//! The tablet's service manager: which commands to give it, how long to
//! wait for it, and the units to install.
use crate::text::{decimal, has_char, replace, replaced, to_decimal, views};
use crate::util::time::{hour_minute, try_to_time, Clock, TimeError};
use crate::Args;
use vstd::prelude::*;
use vstd::string::StringExecFns;

verus! {

/// How often a unit is asked whether it is active before giving up.
pub const MAX_POLLS: u32 = 20;

/// How long to pause between two such questions, in milliseconds.
pub const POLL_PAUSE_MS: u64 = 50;

/// The unit of the tablet's user interface.
pub open spec fn ui_unit() -> Seq<char> {
    "xochitl"@
}

/// The unit of the timer that locks and unlocks.
pub open spec fn timer_unit() -> Seq<char> {
    "book-safe.timer"@
}

/// A command for the service manager, and what to wait for once it is given.
pub struct Plan {
    /// What the service manager is told, word by word.
    pub args: Vec<String>,
    /// The unit that it is told about.
    pub unit: String,
    /// Whether to wait until the unit is active or until it is not, if at all.
    pub wait_for: Option<bool>,
}

/// A command for the service manager, and what to wait for once it is given.
pub ghost struct PlanModel {
    pub args: Seq<Seq<char>>,
    pub unit: Seq<char>,
    pub wait_for: Option<bool>,
}

impl View for Plan {
    type V = PlanModel;

    open spec fn view(&self) -> PlanModel {
        PlanModel { args: views(self.args@), unit: self.unit@, wait_for: self.wait_for }
    }
}

/// The plan to tell the service manager `word` about `unit`.
fn plan(word: &str, now: bool, unit: &str, wait_for: Option<bool>) -> (plan: Plan)
    ensures
        plan@ == (PlanModel {
            args: if now {
                seq![word@, "--now"@]
            } else {
                seq![word@]
            },
            unit: unit@,
            wait_for,
        }),
{
    let mut args: Vec<String> = Vec::new();
    args.push(word.to_owned());
    if now {
        args.push("--now".to_owned());
    }
    let plan = Plan { args, unit: unit.to_owned(), wait_for };
    assert(plan@.args =~= if now {
        seq![word@, "--now"@]
    } else {
        seq![word@]
    });
    plan
}

/// The name of the timer unit.
pub fn timer() -> (name: String)
    ensures
        name@ == timer_unit(),
{
    "book-safe.timer".to_owned()
}

/// Makes the service manager forget that the user interface failed.
pub fn reset_failed() -> (plan: Plan)
    ensures
        plan@ == (PlanModel { args: seq!["reset-failed"@], unit: ui_unit(), wait_for: None }),
{
    self::plan("reset-failed", false, "xochitl", None)
}

/// Whether `operation` is one of the two things that can be done to the
/// user interface.
pub open spec fn is_ui_operation(operation: Seq<char>) -> bool {
    operation == "start"@ || operation == "stop"@
}

/// Starts or stops the user interface and waits until it is up or down.
pub fn ui_action(operation: &str) -> (plan: Plan)
    requires
        is_ui_operation(operation@),
    ensures
        plan@ == (PlanModel {
            args: seq![operation@],
            unit: ui_unit(),
            wait_for: Some(operation@ == "start"@),
        }),
{
    let starting = operation.to_owned() == "start".to_owned();
    self::plan(operation, false, "xochitl", Some(starting))
}

/// The plan for `operation`, if it is one of the two things that can be done
/// to the user interface.
pub fn try_ui_action(operation: &str) -> (plan: Option<Plan>)
    ensures
        plan is Some <==> is_ui_operation(operation@),
        plan matches Some(plan) ==> plan@ == (PlanModel {
            args: seq![operation@],
            unit: ui_unit(),
            wait_for: Some(operation@ == "start"@),
        }),
{
    let given = operation.to_owned();
    if given == "start".to_owned() || given == "stop".to_owned() {
        Some(ui_action(operation))
    } else {
        None
    }
}

/// Switches the timer on, now and for every start of the tablet, and waits
/// until it is active.
pub fn enable() -> (plan: Plan)
    ensures
        plan@ == (PlanModel {
            args: seq!["enable"@, "--now"@],
            unit: timer_unit(),
            wait_for: Some(true),
        }),
{
    self::plan("enable", true, "book-safe.timer", Some(true))
}

/// Switches the timer off, now and for every start of the tablet, and waits
/// until it is no longer active.
pub fn disable() -> (plan: Plan)
    ensures
        plan@ == (PlanModel {
            args: seq!["disable"@, "--now"@],
            unit: timer_unit(),
            wait_for: Some(false),
        }),
{
    self::plan("disable", true, "book-safe.timer", Some(false))
}

/// Whether the service manager's answer says that the unit is active: it
/// says so by ending with the code 0.
pub fn is_active(exit_code: i32) -> (active: bool)
    ensures
        active == (exit_code == 0),
{
    exit_code == 0
}

/// What to do after asking whether a unit is active.
#[derive(Clone, Copy, Debug, PartialEq, Eq, Structural)]
pub enum Poll {
    /// The unit is as wanted.
    Done,
    /// Pause for `POLL_PAUSE_MS` and ask again.
    Again,
    /// Pause for `POLL_PAUSE_MS` and give up: the unit did not get there in
    /// time.
    TimedOut,
}

/// Decides what to do after the unit was found `active` when it is wanted
/// `wanted_active`, and `asked_before` questions went before this one.
pub fn wait_for(wanted_active: bool, active: bool, asked_before: u32) -> (poll: Poll)
    ensures
        poll == if active == wanted_active {
            Poll::Done
        } else if asked_before + 1 < MAX_POLLS {
            Poll::Again
        } else {
            Poll::TimedOut
        },
{
    if active == wanted_active {
        Poll::Done
    } else if asked_before < MAX_POLLS - 1 {
        Poll::Again
    } else {
        Poll::TimedOut
    }
}

/// What came of a command to the service manager: on failure, what it gave
/// as the reason.
pub fn systemctl(success: bool, stderr: &str) -> (r: Result<(), String>)
    ensures
        success ==> r is Ok,
        !success ==> (r matches Err(reason) && reason@ == stderr@),
{
    if success {
        Ok(())
    } else {
        Err(stderr.to_owned())
    }
}

/// One argument as it stands in the service unit: in quotes if it holds a
/// blank, and with a blank behind it.
pub open spec fn quoted(arg: Seq<char>) -> Seq<char> {
    if arg.contains(' ') {
        "\""@ + arg + "\" "@
    } else {
        arg + " "@
    }
}

/// The arguments as they stand in the service unit, one after the other.
pub open spec fn quoted_all(args: Seq<Seq<char>>) -> Seq<char>
    decreases args.len(),
{
    if args.len() == 0 {
        Seq::empty()
    } else {
        quoted_all(args.drop_last()) + quoted(args.last())
    }
}

/// The text of the service unit that runs the program `bin_path` in
/// `working_dir` with the arguments that it was installed with, `run` in
/// place of `install`.
pub open spec fn service_text(working_dir: Seq<char>, bin_path: Seq<char>, args: Seq<Seq<char>>) -> Seq<
    char,
> {
    "[Unit]\nDescription=Makes folders in ui inaccesible for given period\n\n[Service]\nType=oneshot\nWorkingDirectory="@
        + working_dir + "\nExecStart="@ + bin_path + " "@ + replaced(
        quoted_all(args),
        "install"@,
        "run"@,
    ) + "\n\n[Install]\nWantedBy=multi-user.target\n"@
}

/// Writes the service unit. `args` are the arguments that the program was
/// called with, without its own name.
pub fn service_str(working_dir: &str, bin_path: &str, args: &Vec<String>) -> (text: String)
    ensures
        text@ == service_text(working_dir@, bin_path@, views(args@)),
{
    let mut line = String::new();
    let ghost all = views(args@);
    let mut i: usize = 0;
    assert(all.take(0) == Seq::<Seq<char>>::empty());
    while i < args.len()
        invariant
            i <= args.len(),
            all == views(args@),
            line@ == quoted_all(all.take(i as int)),
        decreases args.len() - i,
    {
        proof {
            assert(all.take(i + 1).drop_last() == all.take(i as int));
            assert(all.take(i + 1).last() == args[i as int]@);
        }
        if has_char(args[i].as_str(), ' ') {
            line.append("\"");
            line.append(args[i].as_str());
            line.append("\" ");
        } else {
            line.append(args[i].as_str());
            line.append(" ");
        }
        i += 1;
    }
    assert(all.take(i as int) == all);
    let line = replace(line.as_str(), "install", "run");
    let mut text = String::from_str(
        "[Unit]\nDescription=Makes folders in ui inaccesible for given period\n\n[Service]\nType=oneshot\nWorkingDirectory=",
    );
    text.append(working_dir);
    text.append("\nExecStart=");
    text.append(bin_path);
    text.append(" ");
    text.append(line.as_str());
    text.append("\n\n[Install]\nWantedBy=multi-user.target\n");
    text
}

/// When the timer fires for the time `at`: every day, in the minute after
/// it, so that the time has passed by then.
pub open spec fn calendar(at: Clock) -> Seq<char> {
    "*-*-* "@ + decimal(at.hour) + ":"@ + decimal(at.minute + 1) + ":10"@
}

/// The text of the timer unit that fires after `start` and after `end`.
pub open spec fn timer_text(start: Clock, end: Clock) -> Seq<char> {
    "[Unit]\nDescription=Hide folders in ui at certain times\n\n[Timer]\nOnCalendar="@
        + calendar(start) + "\nOnCalendar="@ + calendar(end)
        + "\nAccuracySec=60\n\n[Install]\nWantedBy=timers.target\n"@
}

/// What the timer unit is to hold for the window of `args`, or which of the
/// two times cannot be read: the start is looked at first.
pub open spec fn timer_spec(start: Seq<char>, end: Seq<char>) -> Result<Seq<char>, TimeError> {
    match hour_minute(start) {
        Err(why) => Err(why),
        Ok(start) => match hour_minute(end) {
            Err(why) => Err(why),
            Ok(end) => Ok(timer_text(start, end)),
        },
    }
}

/// Writes the timer unit for the window that `args` give.
pub fn timer_str(args: &Args) -> (r: Result<String, TimeError>)
    ensures
        match timer_spec(args.start@, args.end@) {
            Ok(text) => r matches Ok(written) && written@ == text,
            Err(why) => r == Err::<String, TimeError>(why),
        },
{
    let start = match try_to_time(args.start.as_str()) {
        Ok(start) => start,
        Err(why) => {
            return Err(why);
        },
    };
    let end = match try_to_time(args.end.as_str()) {
        Ok(end) => end,
        Err(why) => {
            return Err(why);
        },
    };
    let mut text = String::from_str(
        "[Unit]\nDescription=Hide folders in ui at certain times\n\n[Timer]\nOnCalendar=",
    );
    text.append("*-*-* ");
    text.append(to_decimal(start.hour() as u64).as_str());
    text.append(":");
    text.append(to_decimal(start.minute() as u64 + 1).as_str());
    text.append(":10");
    text.append("\nOnCalendar=");
    text.append("*-*-* ");
    text.append(to_decimal(end.hour() as u64).as_str());
    text.append(":");
    text.append(to_decimal(end.minute() as u64 + 1).as_str());
    text.append(":10");
    text.append("\nAccuracySec=60\n\n[Install]\nWantedBy=timers.target\n");
    proof {
        assert(text@ =~= timer_text(start@, end@));
    }
    Ok(text)
}

/// Where the two units are kept.
pub open spec fn unit_dir() -> Seq<char> {
    "/etc/systemd/system/"@
}

/// The path of the unit of this program that ends in `ext`.
pub fn unit_path(ext: &str) -> (path: String)
    ensures
        path@ == unit_path_spec(ext@),
{
    let mut path = String::from_str("/etc/systemd/system/");
    path.append("book-safe");
    path.append(".");
    path.append(ext);
    path
}

/// A unit to be written: where, and with what text.
pub struct UnitFile {
    pub path: String,
    pub text: String,
}

/// Where the unit of this program that ends in `ext` is kept.
pub open spec fn unit_path_spec(ext: Seq<char>) -> Seq<char> {
    unit_dir() + "book-safe"@ + "."@ + ext
}

/// The service unit to write for the program `bin_path`, run in
/// `working_dir` with `args`.
pub fn write_service(working_dir: &str, bin_path: &str, args: &Vec<String>) -> (unit: UnitFile)
    ensures
        unit.path@ == unit_path_spec("service"@),
        unit.text@ == service_text(working_dir@, bin_path@, views(args@)),
{
    UnitFile { path: unit_path("service"), text: service_str(working_dir, bin_path, args) }
}

/// The timer unit to write for the window that `args` give.
pub fn write_timer(args: &Args) -> (r: Result<UnitFile, TimeError>)
    ensures
        match timer_spec(args.start@, args.end@) {
            Ok(text) => r matches Ok(unit) && unit.text@ == text && unit.path@ == unit_path_spec(
                "timer"@,
            ),
            Err(why) => r matches Err(e) && e == why,
        },
{
    match timer_str(args) {
        Ok(text) => Ok(UnitFile { path: unit_path("timer"), text }),
        Err(why) => Err(why),
    }
}

/// The units to remove when the program is uninstalled: the timer first, then
/// the service.
pub fn remove_units() -> (paths: Vec<String>)
    ensures
        views(paths@) == seq![unit_path_spec("timer"@), unit_path_spec("service"@)],
{
    let mut paths: Vec<String> = Vec::new();
    paths.push(unit_path("timer"));
    paths.push(unit_path("service"));
    assert(views(paths@) =~= seq![unit_path_spec("timer"@), unit_path_spec("service"@)]);
    paths
}

} // verus!

use book_safe::report::{build, content, metadata, report_uuid, save, Block};
use book_safe::systemd::{
    disable, enable, is_active, remove_units, reset_failed, service_str, systemctl, timer,
    timer_str, try_ui_action, ui_action, unit_path, wait_for, write_service, write_timer, Poll,
    MAX_POLLS, POLL_PAUSE_MS,
};
use book_safe::util::time::set_os_timezone;
use book_safe::text::{
    before_first, chars_of, digit, le, lines, parse_number, parse_u8, replace, sort, split,
    split_once, string_of, to_decimal,
};
use book_safe::directory::{Tree, TreeError};
use book_safe::util::time::{Time, TimeError};
use book_safe::Args;

fn strings(list: &[&str]) -> Vec<String> {
    list.iter().map(|s| s.to_string()).collect()
}

#[test]
fn split_gives_a_field_more_than_separators() {
    assert_eq!(split("a/b", '/'), strings(&["a", "b"]));
    assert_eq!(split("", '/'), strings(&[""]));
    assert_eq!(split("/", '/'), strings(&["", ""]));
    assert_eq!(split("a//b/", '/'), strings(&["a", "", "b", ""]));
    assert_eq!(split("äö.ü", '.'), strings(&["äö", "ü"]));
}

#[test]
fn lines_as_the_standard_library_cuts_them() {
    for text in [
        "", "a", "a\n", "a\nb", "a\r\nb\r\n", "\n", "\n\n", "a\r", "a\n\r", "\r\n", "a\r\r\nb",
    ] {
        let expected: Vec<String> = text.lines().map(|l| l.to_owned()).collect();
        assert_eq!(lines(text), expected, "{:?}", text);
    }
}

#[test]
fn cutting_once() {
    assert_eq!(
        Some(("23".to_owned(), "59:10".to_owned())),
        split_once("23:59:10", ':')
    );
    assert_eq!(Some(("".to_owned(), "".to_owned())), split_once(":", ':'));
    assert_eq!(None, split_once("2359", ':'));
    assert_eq!(Some("a".to_owned()), before_first("a b c", ' '));
    assert_eq!(Some("".to_owned()), before_first(" b", ' '));
    assert_eq!(None, before_first("abc", ' '));
}

#[test]
fn chars_and_back() {
    assert_eq!(chars_of("aé"), vec!['a', 'é']);
    assert_eq!(string_of(&vec!['a', 'é']), "aé");
}

#[test]
fn dictionary_order() {
    assert!(le("", "a"));
    assert!(le("a", "a"));
    assert!(le("a", "ab"));
    assert!(!le("ab", "a"));
    assert!(le("B", "a"));
    assert!(le("z", "é"));
    assert_eq!(
        sort(&strings(&["b", "a", "B", "ab", "", "a"])),
        strings(&["", "B", "a", "a", "ab", "b"])
    );
    let mut names = strings(&["ü", "u", "zz", "Z", "10", "9"]);
    let sorted = sort(&names);
    names.sort_unstable();
    assert_eq!(sorted, names);
}

#[test]
fn numbers_in_digits() {
    assert_eq!("0", to_decimal(0));
    assert_eq!("7", to_decimal(7));
    assert_eq!("10", to_decimal(10));
    assert_eq!("18446744073709551615", to_decimal(u64::MAX));
    assert_eq!(Some(7), digit('7'));
    assert_eq!(None, digit('a'));
    assert_eq!(Some(255), parse_number(&chars_of("255"), 255));
    assert_eq!(Some(7), parse_number(&chars_of("007"), 255));
    assert_eq!(None, parse_number(&chars_of("256"), 255));
    assert_eq!(None, parse_number(&chars_of(""), 255));
    assert_eq!(None, parse_number(&chars_of("1a"), 255));
    for text in ["0", "255", "256", "+5", "+", "-1", "", "007", " 1", "1 ", "99999999999"] {
        assert_eq!(parse_u8(text), text.parse::<u8>().ok(), "{:?}", text);
    }
}

#[test]
fn replacing() {
    assert_eq!("run --lock x", replace("install --lock x", "install", "run"));
    assert_eq!("runrun", replace("installinstall", "install", "run"));
    assert_eq!("abc", replace("abc", "", "x"));
    assert_eq!("ba", replace("aaa", "aa", "b"));
    assert_eq!("", replace("", "a", "b"));
}

#[test]
fn commands_for_the_service_manager() {
    let plan = reset_failed();
    assert_eq!((plan.args, plan.unit, plan.wait_for), (strings(&["reset-failed"]), "xochitl".to_owned(), None));
    let plan = ui_action("start");
    assert_eq!((plan.args, plan.unit, plan.wait_for), (strings(&["start"]), "xochitl".to_owned(), Some(true)));
    let plan = ui_action("stop");
    assert_eq!((plan.args, plan.unit, plan.wait_for), (strings(&["stop"]), "xochitl".to_owned(), Some(false)));
    assert!(try_ui_action("restart").is_none());
    assert_eq!(try_ui_action("stop").unwrap().wait_for, Some(false));
    let plan = enable();
    assert_eq!((plan.args, plan.unit, plan.wait_for), (strings(&["enable", "--now"]), "book-safe.timer".to_owned(), Some(true)));
    let plan = disable();
    assert_eq!((plan.args, plan.unit, plan.wait_for), (strings(&["disable", "--now"]), timer(), Some(false)));
    assert_eq!("/etc/systemd/system/book-safe.service", unit_path("service"));
    assert!(is_active(0));
    assert!(!is_active(3));
    assert_eq!(Ok(()), systemctl(true, "ignored"));
    assert_eq!(Err("reason".to_owned()), systemctl(false, "reason"));
}

#[test]
fn waiting_for_a_unit() {
    assert_eq!(Poll::Done, wait_for(true, true, 0));
    assert_eq!(Poll::Done, wait_for(false, false, 19));
    assert_eq!(Poll::Again, wait_for(true, false, 0));
    assert_eq!(Poll::Again, wait_for(false, true, 18));
    assert_eq!(Poll::TimedOut, wait_for(false, true, 19));
    assert_eq!(Poll::TimedOut, wait_for(true, false, u32::MAX));
    assert_eq!(20, MAX_POLLS);
    assert_eq!(50, POLL_PAUSE_MS);
}

fn args(start: &str, end: &str) -> Args {
    Args {
        lock: Vec::new(),
        start: start.to_owned(),
        end: end.to_owned(),
        timezone: "UTC".to_owned(),
        allow_sync: false,
    }
}

#[test]
fn timer_fires_in_the_minute_after() {
    let text = timer_str(&args("23:10", "8:05")).unwrap();
    assert_eq!(
        text,
        "[Unit]
Description=Hide folders in ui at certain times

[Timer]
OnCalendar=*-*-* 23:11:10
OnCalendar=*-*-* 8:6:10
AccuracySec=60

[Install]
WantedBy=timers.target
"
    );
    assert!(timer_str(&args("0:59", "1:00")).unwrap().contains("*-*-* 0:60:10"));
    assert_eq!(Err(TimeError::Hour), timer_str(&args("x:10", "8")));
    assert_eq!(Err(TimeError::MissingSeparator), timer_str(&args("1:10", "8")));
}

#[test]
fn service_runs_what_was_installed() {
    let text = service_str(
        "/home/root",
        "/home/root/book-safe",
        &strings(&["install", "--lock", "My Books", "-z", "Europe/Amsterdam"]),
    );
    assert_eq!(
        text,
        "[Unit]
Description=Makes folders in ui inaccesible for given period

[Service]
Type=oneshot
WorkingDirectory=/home/root
ExecStart=/home/root/book-safe run --lock \"My Books\" -z Europe/Amsterdam 

[Install]
WantedBy=multi-user.target
"
    );
}

#[test]
fn records_of_the_report() {
    assert_eq!("64a3befb-b815-47e8-bf74-996bb6a76a5d", report_uuid());
    let text = metadata(1_676_000_000);
    assert!(text.starts_with("{\n    \"deleted\": false,\n    \"lastModified\": \"1676000000000\",\n"));
    assert!(text.ends_with("    \"visibleName\": \"Locked Books\"\n}"));
    assert!(metadata(-5).contains("\"lastModified\": \"-5000\""));
    assert!(metadata(i64::MIN).contains("\"lastModified\": \"-9223372036854775808000\""));
    assert!(metadata(0).contains("\"lastModified\": \"0000\""));
    let text = content(12);
    assert!(text.contains("    \"pageCount\": 12,\n    \"pages\": [\n    ],\n"));
    assert!(text.starts_with("{\n    \"extraMetadata\": {    \n    },\n    \"fileType\": \"pdf\","));
    assert!(text.ends_with("        \"m33\": 1\n    }\n}"));
}

#[test]
fn report_from_top_to_bottom() {
    let mut tree = Tree::new();
    tree.add_folder("f".into(), "".into(), "Books".to_owned())
        .unwrap();
    tree.add_file("d".into(), "f".into(), "Novel".to_owned());
    let root = tree.node_for("Books").unwrap();
    let unlock = Time::from_hms(8, 5, 59).unwrap();
    let blocks = build(&tree, vec![root], strings(&["Gone"]), unlock).unwrap();
    let shown: Vec<String> = blocks
        .iter()
        .map(|block| match block {
            Block::Title(text) => format!("title {}", text),
            Block::Header(text) => format!("header {}", text),
            Block::Subheader(text) => format!("subheader {}", text),
            Block::Path(names) => format!("path {}", names.join("<")),
            Block::Text(text) => format!("text {}", text),
            Block::Space(mm) => format!("space {}", mm),
            Block::Rule => "rule".to_owned(),
        })
        .collect();
    assert_eq!(
        shown,
        strings(&[
            "title Folders are locked",
            "header Missing paths:",
            "text Could not find these paths, if they where not deleted since book-safe was installed\n there is a bug in book safe. Please report it at github.com/dvdsk/book-safe",
            "subheader - Gone",
            "space 10",
            "header Will unlock at: 8:05",
            "rule",
            "space 8",
            "header Locked files:",
            "space 8",
            "path Books<",
            "text Books\n    |-- Novel\n",
        ])
    );
    let blocks = build(&tree, Vec::new(), Vec::new(), Time::from_hms(12, 42, 59).unwrap()).unwrap();
    assert_eq!(6, blocks.len());
    assert!(matches!(&blocks[2], Block::Header(text) if text == "Will unlock at: 12:42"));

    let other = Tree::new();
    assert_eq!(
        Some(TreeError::UnknownNode),
        build(&other, vec![root], Vec::new(), unlock).err()
    );
}

#[test]
fn units_and_where_they_go() {
    let unit = write_service("/w", "/w/bin", &strings(&["run"]));
    assert_eq!("/etc/systemd/system/book-safe.service", unit.path);
    assert_eq!(unit.text, service_str("/w", "/w/bin", &strings(&["run"])));
    let unit = write_timer(&args("1:02", "3:04")).unwrap();
    assert_eq!("/etc/systemd/system/book-safe.timer", unit.path);
    assert_eq!(unit.text, timer_str(&args("1:02", "3:04")).unwrap());
    assert_eq!(Some(TimeError::Minute), write_timer(&args("1:02", "3:")).err());
    assert_eq!(
        remove_units(),
        strings(&[
            "/etc/systemd/system/book-safe.timer",
            "/etc/systemd/system/book-safe.service"
        ])
    );
    assert_eq!(
        set_os_timezone("Europe/Amsterdam"),
        strings(&["set-timezone", "Europe/Amsterdam"])
    );
}

#[test]
fn what_is_stored_with_a_report() {
    let stored = save(3, 17);
    let endings: Vec<&str> = stored.files.iter().map(|f| f.ending.as_str()).collect();
    assert_eq!(endings, vec!["content", "metadata", "pagedata"]);
    assert_eq!(stored.files[0].text, content(3));
    assert_eq!(stored.files[1].text, metadata(17));
    assert_eq!(stored.files[2].text, "");
    assert_eq!(
        stored.dirs,
        strings(&["", "cache", "highlights", "thumbnails", "textconversion"])
    );
    let removal = book_safe::report::remove();
    assert_eq!("textconversion", removal.marker);
    assert_eq!(removal.files, strings(&["content", "metadata", "pagedata", "pdf"]));
    assert_eq!(removal.dirs, stored.dirs);
}

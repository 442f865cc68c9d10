//! Wall-clock times of day and the lock window.
use crate::text::{parse_u8, small_number, split_once, split_once_spec};
use vstd::prelude::*;

verus! {

/// Nanoseconds in one second.
pub const NANOS_PER_SECOND: u32 = 1_000_000_000;

/// A time of day as the four numbers a clock shows.
pub ghost struct Clock {
    pub hour: nat,
    pub minute: nat,
    pub second: nat,
    pub nanosecond: nat,
}

impl Clock {
    /// Whether the four numbers can be read off a clock.
    pub open spec fn valid(self) -> bool {
        &&& self.hour < 24
        &&& self.minute < 60
        &&& self.second < 60
        &&& self.nanosecond < 1_000_000_000
    }

    /// Nanoseconds since midnight.
    pub open spec fn since_midnight(self) -> nat {
        ((self.hour * 60 + self.minute) * 60 + self.second) * 1_000_000_000 + self.nanosecond
    }
}

/// Why a time of day was refused.
#[derive(Debug, Clone, Copy, PartialEq, Eq, Structural)]
pub enum TimeError {
    /// No `:` between hours and minutes.
    MissingSeparator,
    /// The hour is not a number.
    Hour,
    /// The minute is not a number.
    Minute,
    /// The numbers are not on a clock.
    OutOfRange,
}

/// A time of day with nanosecond precision.
#[derive(Debug, Clone, Copy)]
pub struct Time {
    hour: u8,
    minute: u8,
    second: u8,
    nanosecond: u32,
}

impl View for Time {
    type V = Clock;

    closed spec fn view(&self) -> Clock {
        Clock {
            hour: self.hour as nat,
            minute: self.minute as nat,
            second: self.second as nat,
            nanosecond: self.nanosecond as nat,
        }
    }
}

impl Time {
    #[verifier::type_invariant]
    spec fn on_the_clock(self) -> bool {
        self@.valid()
    }

    /// The time `hour:minute:second`, refused when it is not on the clock.
    pub fn from_hms(hour: u8, minute: u8, second: u8) -> (r: Result<Time, TimeError>)
        ensures
            r is Ok <==> hour < 24 && minute < 60 && second < 60,
            r matches Ok(t) ==> t@ == (Clock {
                hour: hour as nat,
                minute: minute as nat,
                second: second as nat,
                nanosecond: 0,
            }),
            r matches Err(e) ==> e == TimeError::OutOfRange,
    {
        Time::from_hms_nano(hour, minute, second, 0)
    }

    /// The time `hour:minute:second` and `nanosecond` nanoseconds.
    pub fn from_hms_nano(hour: u8, minute: u8, second: u8, nanosecond: u32) -> (r: Result<
        Time,
        TimeError,
    >)
        ensures
            r is Ok <==> hour < 24 && minute < 60 && second < 60 && nanosecond
                < NANOS_PER_SECOND,
            r matches Ok(t) ==> t@ == (Clock {
                hour: hour as nat,
                minute: minute as nat,
                second: second as nat,
                nanosecond: nanosecond as nat,
            }),
            r matches Err(e) ==> e == TimeError::OutOfRange,
    {
        if hour < 24 && minute < 60 && second < 60 && nanosecond < NANOS_PER_SECOND {
            Ok(Time { hour, minute, second, nanosecond })
        } else {
            Err(TimeError::OutOfRange)
        }
    }

    /// The hour, 0 to 23.
    pub fn hour(&self) -> (r: u8)
        ensures
            r == self@.hour,
            r < 24,
    {
        proof {
            use_type_invariant(self);
        }
        self.hour
    }

    /// The minute, 0 to 59.
    pub fn minute(&self) -> (r: u8)
        ensures
            r == self@.minute,
            r < 60,
    {
        proof {
            use_type_invariant(self);
        }
        self.minute
    }

    /// The second, 0 to 59.
    pub fn second(&self) -> (r: u8)
        ensures
            r == self@.second,
            r < 60,
    {
        proof {
            use_type_invariant(self);
        }
        self.second
    }

    /// The nanosecond within the second.
    pub fn nanosecond(&self) -> (r: u32)
        ensures
            r == self@.nanosecond,
            r < NANOS_PER_SECOND,
    {
        proof {
            use_type_invariant(self);
        }
        self.nanosecond
    }

    /// Nanoseconds since midnight.
    pub fn since_midnight(&self) -> (r: u64)
        ensures
            r == self@.since_midnight(),
    {
        proof {
            use_type_invariant(self);
        }
        let hour: u64 = self.hour as u64;
        let minute: u64 = self.minute as u64;
        let second: u64 = self.second as u64;
        let nanosecond: u64 = self.nanosecond as u64;
        ((hour * 60 + minute) * 60 + second) * 1_000_000_000 + nanosecond
    }
}

/// Whether `now` lies in the window from `start` to `end`, both ends included.
/// A window whose start is later than its end runs over midnight.
pub open spec fn in_window(now: Clock, start: Clock, end: Clock) -> bool {
    if start.since_midnight() <= end.since_midnight() {
        start.since_midnight() <= now.since_midnight() <= end.since_midnight()
    } else {
        now.since_midnight() >= start.since_midnight() || now.since_midnight()
            <= end.since_midnight()
    }
}

/// Whether the folders are to be hidden at `now`, given the window in which
/// they are hidden.
pub fn should_lock(now: Time, start: Time, end: Time) -> (r: bool)
    ensures
        r == in_window(now@, start@, end@),
{
    let now = now.since_midnight();
    let start = start.since_midnight();
    let end = end.since_midnight();
    if start <= end {
        now >= start && now <= end
    } else {
        now >= start || now <= end
    }
}

/// The time of day that `s` writes as hours, a colon and minutes.
pub open spec fn hour_minute(s: Seq<char>) -> Result<Clock, TimeError> {
    match split_once_spec(s, ':') {
        None => Err(TimeError::MissingSeparator),
        Some(halves) => if small_number(halves.head) is None {
            Err(TimeError::Hour)
        } else if small_number(halves.tail) is None {
            Err(TimeError::Minute)
        } else if small_number(halves.head)->0 >= 24 || small_number(halves.tail)->0 >= 60 {
            Err(TimeError::OutOfRange)
        } else {
            Ok(
                Clock {
                    hour: small_number(halves.head)->0,
                    minute: small_number(halves.tail)->0,
                    second: 0,
                    nanosecond: 0,
                },
            )
        },
    }
}

/// What came of reading a time of day.
pub open spec fn time_view(r: Result<Time, TimeError>) -> Result<Clock, TimeError> {
    match r {
        Ok(time) => Ok(time@),
        Err(why) => Err(why),
    }
}

/// Times that are written as hours and minutes.
pub trait ParseHourMinute: Sized {
    /// Reads a time written as hours, a colon and minutes, such as `23:59`.
    fn try_parse(s: &str) -> Result<Self, TimeError>;
}

impl ParseHourMinute for Time {
    fn try_parse(s: &str) -> (r: Result<Time, TimeError>)
        ensures
            time_view(r) == hour_minute(s@),
    {
        let (hour, minute) = match split_once(s, ':') {
            Some(halves) => halves,
            None => {
                return Err(TimeError::MissingSeparator);
            },
        };
        let hour = match parse_u8(hour.as_str()) {
            Some(hour) => hour,
            None => {
                return Err(TimeError::Hour);
            },
        };
        let minute = match parse_u8(minute.as_str()) {
            Some(minute) => minute,
            None => {
                return Err(TimeError::Minute);
            },
        };
        Time::from_hms(hour, minute, 0)
    }
}

/// Reads a time written as hours, a colon and minutes, such as `23:59`.
pub fn try_to_time(s: &str) -> (r: Result<Time, TimeError>)
    ensures
        time_view(r) == hour_minute(s@),
{
    Time::try_parse(s)
}

/// What the clock service is told to make `timezone` the time zone of the
/// tablet.
pub fn set_os_timezone(timezone: &str) -> (args: Vec<String>)
    ensures
        crate::text::views(args@) == seq!["set-timezone"@, timezone@],
{
    let mut args: Vec<String> = Vec::new();
    args.push("set-timezone".to_owned());
    args.push(timezone.to_owned());
    assert(crate::text::views(args@) =~= seq!["set-timezone"@, timezone@]);
    args
}

} // verus!

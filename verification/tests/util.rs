use book_safe::directory::{Tree, Uuid};
use book_safe::util::time::{
    should_lock, try_to_time, ParseHourMinute, Time, TimeError,
};
use book_safe::util::{byte_length, check_folders, is_prefix, without_overlapping, AcceptErr};
use book_safe::{lock, run, Args, Decision, RunError};

fn vec(list: &[&str]) -> Vec<String> {
    list.into_iter().map(|s| s.to_string()).collect()
}

#[test]
fn overlapping_paths() {
    let list = vec(&["a/aa/aaa", "b/bb", "a/aa/aab", "b/ba"]);
    let res = vec(&["b/bb", "b/ba", "a/aa/aaa", "a/aa/aab"]);
    assert_eq!(res, without_overlapping(list));

    let list = vec(&["a/aa", "b/bb", "a/aa/aab", "b/ba"]);
    let res = vec(&["a/aa", "b/bb", "b/ba"]);
    assert_eq!(res, without_overlapping(list));

    let list = vec(&["Books", "Books/Stories"]);
    let res = vec(&["Books"]);
    assert_eq!(res, without_overlapping(list));
}

#[test]
fn time_compare() {
    let start = Time::from_hms(23, 10, 0).unwrap();
    let end = Time::from_hms(8, 5, 0).unwrap();

    let now = Time::from_hms(8, 10, 0).unwrap();
    assert!(!should_lock(now, start, end));

    let now = Time::from_hms(8, 4, 0).unwrap();
    assert!(should_lock(now, start, end));

    let now = Time::from_hms(23, 11, 0).unwrap();
    assert!(should_lock(now, start, end));

    let now = Time::from_hms(23, 09, 0).unwrap();
    assert!(!should_lock(now, start, end));
}

#[test]
fn without_overlapping_twice_is_once() {
    let lists = [
        vec(&["a/aa/aaa", "b/bb", "a/aa/aab", "b/ba"]),
        vec(&["Books", "Books/Stories", "BooksArchive", "B"]),
        vec(&["x", "x", "", "y"]),
        vec(&[]),
    ];
    for list in lists {
        let once = without_overlapping(list);
        let twice = without_overlapping(once.clone());
        assert_eq!(once, twice);
    }
}

#[test]
fn prefix_is_taken_letter_by_letter() {
    let list = vec(&["BooksArchive", "Books"]);
    assert_eq!(vec(&["Books"]), without_overlapping(list));
    assert!(is_prefix("Books", "BooksArchive"));
    assert!(is_prefix("", "x"));
    assert!(is_prefix("same", "same"));
    assert!(!is_prefix("longer", "long"));
    assert!(!is_prefix("b", "a/b"));
}

#[test]
fn empty_path_covers_all() {
    let list = vec(&["a", "", "b/c"]);
    assert_eq!(vec(&[""]), without_overlapping(list));
}

#[test]
fn length_is_counted_in_bytes() {
    assert_eq!(2, byte_length("é"));
    assert_eq!(0, byte_length(""));
    // two letters of two bytes come behind three letters of one byte
    let list = vec(&["éé", "abc"]);
    assert_eq!(vec(&["abc", "éé"]), without_overlapping(list));
}

#[test]
fn window_on_one_day() {
    let start = Time::from_hms(9, 0, 0).unwrap();
    let end = Time::from_hms(17, 0, 0).unwrap();
    assert!(should_lock(Time::from_hms(9, 0, 0).unwrap(), start, end));
    assert!(should_lock(Time::from_hms(17, 0, 0).unwrap(), start, end));
    assert!(!should_lock(
        Time::from_hms_nano(17, 0, 0, 1).unwrap(),
        start,
        end
    ));
    assert!(!should_lock(Time::from_hms(8, 59, 59).unwrap(), start, end));
    assert!(should_lock(start, start, start));
}

#[test]
fn times_off_the_clock() {
    assert_eq!(Err(TimeError::OutOfRange), Time::from_hms(24, 0, 0).map(|_| ()));
    assert_eq!(Err(TimeError::OutOfRange), Time::from_hms(0, 60, 0).map(|_| ()));
    assert_eq!(Err(TimeError::OutOfRange), Time::from_hms(0, 0, 60).map(|_| ()));
    assert_eq!(
        Err(TimeError::OutOfRange),
        Time::from_hms_nano(0, 0, 0, 1_000_000_000).map(|_| ())
    );
    let last = Time::from_hms_nano(23, 59, 59, 999_999_999).unwrap();
    assert_eq!(23, last.hour());
    assert_eq!(59, last.minute());
    assert_eq!(59, last.second());
    assert_eq!(999_999_999, last.nanosecond());
    assert_eq!(86_399_999_999_999, last.since_midnight());
}

#[test]
fn hours_and_minutes_are_read() {
    let time = Time::try_parse("23:59").unwrap();
    assert_eq!((23, 59, 0), (time.hour(), time.minute(), time.second()));
    let time = try_to_time("+7:05").unwrap();
    assert_eq!((7, 5), (time.hour(), time.minute()));
    assert_eq!(Err(TimeError::MissingSeparator), try_to_time("2359").map(|_| ()));
    assert_eq!(Err(TimeError::Hour), try_to_time("x:59").map(|_| ()));
    assert_eq!(Err(TimeError::Hour), try_to_time(":59").map(|_| ()));
    assert_eq!(Err(TimeError::Hour), try_to_time("256:59").map(|_| ()));
    assert_eq!(Err(TimeError::Minute), try_to_time("23:5 ").map(|_| ()));
    assert_eq!(Err(TimeError::Minute), try_to_time("23:59:00").map(|_| ()));
    assert_eq!(Err(TimeError::OutOfRange), try_to_time("24:00").map(|_| ()));
    assert_eq!(Err(TimeError::OutOfRange), try_to_time("23:60").map(|_| ()));
}

#[test]
fn accepted_errors_become_successes() {
    let failed: Result<(), u8> = Err(3);
    assert_eq!(Ok(()), failed.accept_fn(|e| *e == 3));
    let failed: Result<(), u8> = Err(4);
    assert_eq!(Err(4), failed.accept_fn(|e| *e == 3));
    let fine: Result<(), u8> = Ok(());
    assert_eq!(Ok(()), fine.accept_fn(|_| false));
}

fn small_tree() -> Tree {
    let mut tree = Tree::new();
    tree.add_folder("f1".into(), "".into(), "Books".to_owned())
        .unwrap();
    tree.add_folder("f2".into(), "f1".into(), "Stories".to_owned())
        .unwrap();
    tree.add_file("d1".into(), "f1".into(), "Novel".to_owned());
    tree.add_file("d2".into(), "f2".into(), "Tale".to_owned());
    tree.add_file("d3".into(), "".into(), "Loose".to_owned());
    tree
}

#[test]
fn missing_folders_are_reported_together() {
    let tree = small_tree();
    assert_eq!(Ok(()), check_folders(&tree, &vec(&["Books", "Books/Stories", ""])));
    assert_eq!(
        Err(vec(&["Nope", "Books/Nope"])),
        check_folders(&tree, &vec(&["Nope", "Books", "Books/Nope"]))
    );
    assert_eq!(Ok(()), check_folders(&tree, &vec(&[])));
}

#[test]
fn lock_collects_documents_below_the_folders() {
    let tree = small_tree();
    let plan = lock(&tree, vec(&["Books/Stories", "Gone", "Books"]));
    assert_eq!(vec(&["Gone"]), plan.missing);
    assert_eq!(
        plan.roots,
        vec![
            tree.root(Uuid::from("f2")),
            tree.root(Uuid::from("f1"))
        ]
    );
    assert_eq!(
        plan.to_lock,
        vec![Uuid::from("d2"), Uuid::from("d1"), Uuid::from("d2")]
    );
}

fn args(lock: &[&str], start: &str, end: &str) -> Args {
    Args {
        lock: vec(lock),
        start: start.to_owned(),
        end: end.to_owned(),
        timezone: "Europe/Amsterdam".to_owned(),
        allow_sync: true,
    }
}

#[test]
fn run_locks_inside_the_window() {
    let now = Time::from_hms(23, 30, 0).unwrap();
    match run(args(&["Books", "Books/Stories"], "23:10", "8:05"), now).unwrap() {
        Decision::Lock {
            forbidden,
            unlock_at,
            allow_sync,
        } => {
            assert_eq!(vec(&["Books"]), forbidden);
            assert_eq!((8, 5), (unlock_at.hour(), unlock_at.minute()));
            assert!(allow_sync);
        }
        Decision::Unlock => panic!("inside the window"),
    }
    let now = Time::from_hms(12, 0, 0).unwrap();
    assert!(matches!(
        run(args(&["Books"], "23:10", "8:05"), now),
        Ok(Decision::Unlock)
    ));
    assert!(matches!(
        run(args(&["Books"], "late", "8:05"), now),
        Err(RunError::Start(TimeError::MissingSeparator))
    ));
    assert!(matches!(
        run(args(&["Books"], "23:10", "8:65"), now),
        Err(RunError::End(TimeError::OutOfRange))
    ));
}

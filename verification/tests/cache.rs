use book_safe::sync::address::Address;
use book_safe::sync::cache::{dedup_keep_newest, Cached, Entry, Timestamp};
use std::time::{Duration, SystemTime, UNIX_EPOCH};

fn stamp(time: SystemTime) -> Timestamp {
    let since = time.duration_since(UNIX_EPOCH).unwrap();
    Timestamp::new(since.as_secs(), since.subsec_nanos())
}

fn old_entry(ip: u8, age: u64) -> Entry {
    Entry::new(
        Address::v4(0, 0, 0, ip),
        stamp(SystemTime::UNIX_EPOCH + Duration::from_secs(age)),
    )
}

fn recent_entry(ip: u8) -> Entry {
    Entry::new(Address::v4(0, 0, 0, ip), stamp(SystemTime::now()))
}

#[test]
fn oldest_removed() {
    let mut list: Vec<_> = (0..10).into_iter().map(|i| old_entry(i, 0)).collect();
    let new = (0..10).into_iter().map(|i| old_entry(i, i as u64 + 100));
    list.extend(new);

    dedup_keep_newest(&mut list);

    let mut duplicates = 0;
    for (i, entry) in list.iter().enumerate() {
        if list[..i].iter().any(|earlier| earlier.ip() == entry.ip()) {
            duplicates += 1;
        }
    }

    assert_eq!(
        0, duplicates,
        "should be no duplicates after dedup_keep_newest"
    );
    assert_eq!(10, list.len());
    assert_eq!(
        stamp(SystemTime::UNIX_EPOCH + Duration::from_secs(100)),
        list.iter()
            .map(|e| e.last_updated())
            .min_by_key(|t| t.since_epoch())
            .unwrap(),
        "All old items should be gone"
    );
}

#[test]
fn do_not_remove_recent() {
    let list: Vec<_> = (0..10).into_iter().map(|i| recent_entry(i)).collect();
    let cache = Cached::load(Some(list));

    let cache = cache.update(Vec::new()).unwrap();
    assert_eq!(cache.len(), 10);
}

#[test]
fn remove_old() {
    let list: Vec<_> = (0..5)
        .map(|i| recent_entry(i))
        .chain((5..10).map(|i| old_entry(i, 0)))
        .collect();

    let cache = Cached::load(Some(list));

    let cache = cache.update(Vec::new()).unwrap();
    assert_eq!(cache.len(), 5);
}

#[test]
fn keep_old() {
    let list: Vec<_> = (0..5)
        .map(|i| recent_entry(i))
        .chain((5..10).map(|i| old_entry(i, 0)))
        .collect();

    let cache = Cached::load(Some(list));

    let cache = cache.update(Vec::new()).unwrap();
    assert_eq!(cache.len(), 5);
}

const WEEK: u64 = 60 * 60 * 24 * 7;

fn at(secs: u64) -> Timestamp {
    Timestamp::new(secs, 0)
}

fn entry(ip: u8, secs: u64) -> Entry {
    Entry::new(Address::v4(10, 0, 0, ip), at(secs))
}

#[test]
fn expired_entries_stay_while_fewer_than_two_are_fresh() {
    let now = at(100 * WEEK);
    // one entry, long expired
    let cache = Cached::load(Some(vec![entry(1, WEEK)]));
    let routes = cache.update_at(Vec::new(), now).unwrap();
    assert_eq!(routes.cache(), vec![entry(1, WEEK)]);

    // three expired and one fresh: still nothing may go
    let cache = Cached::load(Some(vec![
        entry(4, 99 * WEEK),
        entry(3, 3 * WEEK),
        entry(2, 2 * WEEK),
        entry(1, WEEK),
    ]));
    let routes = cache.update_at(Vec::new(), now).unwrap();
    assert_eq!(
        routes.cache(),
        vec![
            entry(1, WEEK),
            entry(2, 2 * WEEK),
            entry(3, 3 * WEEK),
            entry(4, 99 * WEEK)
        ]
    );
}

#[test]
fn expired_entries_go_once_two_are_fresh() {
    let now = at(100 * WEEK);
    let cache = Cached::load(Some(vec![entry(1, WEEK), entry(2, 99 * WEEK)]));
    let routes = cache
        .update_at(vec![Address::v4(10, 0, 0, 3)], now)
        .unwrap();
    assert_eq!(
        routes.cache(),
        vec![entry(2, 99 * WEEK), entry(3, 100 * WEEK)]
    );
    assert_eq!(
        routes.into_ips(),
        vec![Address::v4(10, 0, 0, 2), Address::v4(10, 0, 0, 3)]
    );
}

#[test]
fn eight_weeks_to_the_nanosecond() {
    let now = Timestamp::new(100 * WEEK, 5);
    let on_the_edge = Timestamp::new(92 * WEEK, 5);
    let just_inside = Timestamp::new(92 * WEEK, 6);
    assert!(!on_the_edge.fresh_at(&now));
    assert!(just_inside.fresh_at(&now));
    // what was seen after now is fresh
    assert!(at(200 * WEEK).fresh_at(&now));
    assert_eq!(4_838_400, 8 * WEEK);

    let cache = Cached::load(Some(vec![
        Entry::new(Address::v4(1, 1, 1, 1), on_the_edge),
        Entry::new(Address::v4(1, 1, 1, 2), just_inside),
        Entry::new(Address::v4(1, 1, 1, 3), now),
    ]));
    assert_eq!(2, cache.n_recent(&now));
    let routes = cache.update_at(Vec::new(), now).unwrap();
    assert_eq!(
        routes.into_ips(),
        vec![Address::v4(1, 1, 1, 2), Address::v4(1, 1, 1, 3)]
    );
}

#[test]
fn newest_entry_of_an_address_wins() {
    let mut list = vec![entry(7, 50), entry(7, 90), entry(7, 70)];
    dedup_keep_newest(&mut list);
    assert_eq!(list, vec![entry(7, 90)]);

    let mut list = vec![entry(9, 1), entry(7, 90), entry(8, 5), entry(7, 95)];
    dedup_keep_newest(&mut list);
    assert_eq!(list, vec![entry(7, 95), entry(8, 5), entry(9, 1)]);
}

#[test]
fn fresh_address_replaces_its_cached_entry() {
    let now = at(100 * WEEK);
    let cache = Cached::load(Some(vec![entry(1, WEEK)]));
    let routes = cache
        .update_at(vec![Address::v4(10, 0, 0, 1)], now)
        .unwrap();
    assert_eq!(routes.cache(), vec![entry(1, 100 * WEEK)]);
}

#[test]
fn nothing_in_nothing_out() {
    let cache = Cached::load(None);
    assert!(cache.update_at(Vec::new(), at(5)).is_none());
    let cache = Cached::load(Some(Vec::new()));
    assert!(cache.update(Vec::new()).is_none());
    let cache = Cached::load(None);
    assert_eq!(1, cache.update(vec![Address::v6(1)]).unwrap().len());
}

#[test]
fn old_protocol_before_new() {
    let cache = Cached::load(Some(vec![
        Entry::new(Address::v6(1), at(1)),
        Entry::new(Address::v4(255, 255, 255, 255), at(1)),
        Entry::new(Address::v6(0), at(1)),
        Entry::new(Address::v4(0, 0, 0, 0), at(1)),
    ]));
    assert_eq!(
        cache.update_at(Vec::new(), at(2)).unwrap().into_ips(),
        vec![
            Address::v4(0, 0, 0, 0),
            Address::v4(255, 255, 255, 255),
            Address::v6(0),
            Address::v6(1)
        ]
    );
    let cache = Cached::load(Some(vec![entry(2, 1), entry(1, 1), entry(2, 1)]));
    assert_eq!(
        cache.blocked_ips(),
        vec![
            Address::v4(10, 0, 0, 2),
            Address::v4(10, 0, 0, 1),
            Address::v4(10, 0, 0, 2)
        ]
    );
}

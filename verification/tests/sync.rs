use book_safe::sync::address::{contains, insert_unique, parse_v4, unique, Address};
use book_safe::sync::cache::{Cached, Entry, Timestamp};
use book_safe::sync::route::{handle_any_error, table, verify, CommandFailure, Error, TableError};
use book_safe::sync::{
    after_resolving, block, remove, resolve_sync_routes, sync_backends, sync_routes, unblock,
    Failure, FailureKind, Job, Lookup, Operation, Step, SyncError, Verdict, Wait, MAX_ATTEMPTS,
    PAUSE_MS, TIMEOUT_MS,
};

fn ip(last: u8) -> Address {
    Address::v4(192, 168, 0, last)
}

/// A routing tool that answers from a script and keeps a table.
struct Tool {
    answers: Vec<Result<(), Error>>,
    calls: usize,
    table: Vec<Address>,
}

impl Tool {
    fn new(answers: Vec<Result<(), Error>>) -> Tool {
        Tool {
            answers,
            calls: 0,
            table: Vec::new(),
        }
    }

    fn call(&mut self, operation: Operation, address: Address) -> Result<(), Error> {
        let answer = if self.calls < self.answers.len() {
            self.answers[self.calls].clone()
        } else {
            Ok(())
        };
        self.calls += 1;
        if answer.is_ok() {
            match operation {
                Operation::Block => self.table.push(address),
                Operation::Unblock => self.table.retain(|a| *a != address),
            }
        }
        answer
    }
}

fn drive(job: &mut Job, tool: &mut Tool) -> Result<usize, SyncError> {
    let mut pauses = 0;
    loop {
        match job.next_step() {
            Step::Finished => return Ok(pauses),
            Step::Invoke(address) => {
                let outcome = tool.call(job.operation(), address);
                match job.report(outcome) {
                    Verdict::Next => {}
                    Verdict::Retry => pauses += 1,
                    Verdict::Abort(why) => return Err(why),
                }
            }
        }
    }
}

#[test]
fn blocking_twice_adds_one_route() {
    let mut tool = Tool::new(Vec::new());
    let mut job = Job::new(Operation::Block, vec![ip(1)], tool.table.clone());
    assert_eq!(Ok(0), drive(&mut job, &mut tool));
    assert_eq!(tool.table, vec![ip(1)]);
    assert_eq!(1, tool.calls);

    let mut job = Job::new(Operation::Block, vec![ip(1)], tool.table.clone());
    assert_eq!(Ok(0), drive(&mut job, &mut tool));
    assert_eq!(tool.table, vec![ip(1)]);
    assert_eq!(1, tool.calls);

    // the same address twice in one job is also blocked once
    let mut job = Job::new(Operation::Block, vec![ip(2), ip(2)], tool.table.clone());
    assert_eq!(Ok(0), drive(&mut job, &mut tool));
    assert_eq!(tool.table, vec![ip(1), ip(2)]);
    assert_eq!(job.table(), vec![ip(1), ip(2)]);
}

#[test]
fn unblocking_what_is_not_blocked_does_nothing() {
    let mut tool = Tool::new(Vec::new());
    tool.table = vec![ip(1)];
    let mut job = Job::new(Operation::Unblock, vec![ip(2)], tool.table.clone());
    assert_eq!(Step::Finished, job.next_step());
    assert_eq!(0, tool.calls);

    let mut job = Job::new(Operation::Unblock, vec![ip(2), ip(1)], tool.table.clone());
    assert_eq!(Ok(0), drive(&mut job, &mut tool));
    assert_eq!(1, tool.calls);
    assert!(tool.table.is_empty());
    assert!(job.table().is_empty());
}

#[test]
fn three_times_no_effect_then_success() {
    let mut tool = Tool::new(vec![
        Err(Error::NoEffect),
        Err(Error::NoEffect),
        Err(Error::NoEffect),
        Ok(()),
    ]);
    let mut job = Job::new(Operation::Block, vec![ip(1)], Vec::new());
    assert_eq!(Ok(3), drive(&mut job, &mut tool));
    assert_eq!(4, tool.calls);
    assert_eq!(4, job.attempt());
    assert_eq!(tool.table, vec![ip(1)]);
}

#[test]
fn six_times_no_effect_is_a_timeout() {
    let mut tool = Tool::new(vec![Err(Error::NoEffect); 6]);
    let mut job = Job::new(Operation::Block, vec![ip(1), ip(2)], Vec::new());
    assert_eq!(
        Err(SyncError::Timeout {
            operation: Operation::Block,
            address: ip(1)
        }),
        drive(&mut job, &mut tool)
    );
    assert_eq!(5, tool.calls);
    assert_eq!(5, MAX_ATTEMPTS);
    assert!(tool.table.is_empty());

    let mut tool = Tool::new(vec![Err(Error::NoEffect); 6]);
    tool.table = vec![ip(3)];
    let mut job = Job::new(Operation::Unblock, vec![ip(3)], tool.table.clone());
    assert_eq!(
        Err(SyncError::Timeout {
            operation: Operation::Unblock,
            address: ip(3)
        }),
        drive(&mut job, &mut tool)
    );
}

#[test]
fn attempts_are_counted_over_the_whole_job() {
    let mut tool = Tool::new(vec![
        Err(Error::NoEffect),
        Err(Error::NoEffect),
        Ok(()),
        Err(Error::NoEffect),
        Err(Error::NoEffect),
        Err(Error::NoEffect),
    ]);
    let mut job = Job::new(Operation::Block, vec![ip(1), ip(2)], Vec::new());
    assert_eq!(
        Err(SyncError::Timeout {
            operation: Operation::Block,
            address: ip(2)
        }),
        drive(&mut job, &mut tool)
    );
    assert_eq!(tool.table, vec![ip(1)]);
}

#[test]
fn other_failures_are_not_retried() {
    let failure = Error::Run(CommandFailure {
        text: "Command route add returned an error".to_owned(),
        stdout: "out".to_owned(),
        stderr: "route: permission denied\n".to_owned(),
        address: ip(1),
    });
    let mut tool = Tool::new(vec![Err(failure.clone())]);
    let mut job = Job::new(Operation::Block, vec![ip(1), ip(2)], Vec::new());
    assert_eq!(
        Err(SyncError::Route {
            operation: Operation::Block,
            error: failure
        }),
        drive(&mut job, &mut tool)
    );
    assert_eq!(1, tool.calls);

    let mut tool = Tool::new(vec![Err(Error::Start("no such file".to_owned()))]);
    let mut job = Job::new(Operation::Block, vec![ip(1)], Vec::new());
    assert!(drive(&mut job, &mut tool).is_err());

    // a route that is not there cannot be the answer to adding one
    let mut tool = Tool::new(vec![Err(Error::NotFound)]);
    let mut job = Job::new(Operation::Block, vec![ip(1)], Vec::new());
    assert_eq!(
        Err(SyncError::Route {
            operation: Operation::Block,
            error: Error::NotFound
        }),
        drive(&mut job, &mut tool)
    );
}

#[test]
fn known_answers_settle_the_matter() {
    let mut tool = Tool::new(vec![Err(Error::Exists)]);
    let mut job = Job::new(Operation::Block, vec![ip(1), ip(2)], Vec::new());
    assert_eq!(Ok(0), drive(&mut job, &mut tool));
    assert_eq!(2, tool.calls);
    assert_eq!(job.table(), vec![ip(1), ip(2)]);

    let mut tool = Tool::new(vec![Err(Error::NotFound)]);
    let mut job = Job::new(Operation::Unblock, vec![ip(1)], vec![ip(1)]);
    assert_eq!(Ok(0), drive(&mut job, &mut tool));
    assert!(job.table().is_empty());
}

#[test]
fn block_and_unblock_take_their_targets_from_the_cache() {
    let now = Timestamp::new(1_700_000_000, 0);
    let cached = Cached::load(Some(vec![Entry::new(ip(9), now)]));
    let routes = sync_routes(cached, vec![ip(3), ip(9)], now).unwrap();
    assert_eq!(routes.cache().len(), 2);
    let mut job = block(routes, vec![ip(9)]);
    assert_eq!(Step::Invoke(ip(3)), job.next_step());
    assert_eq!(Verdict::Next, job.report(Ok(())));
    assert_eq!(Step::Finished, job.next_step());

    let cached = Cached::load(Some(vec![
        Entry::new(ip(3), now),
        Entry::new(ip(9), now),
    ]));
    let mut job = unblock(cached, vec![ip(9)]);
    assert_eq!(Step::Invoke(ip(9)), job.next_step());
    assert_eq!(Verdict::Next, job.report(Ok(())));
    assert_eq!(Step::Finished, job.next_step());
    assert_eq!(Operation::Unblock, job.operation());
}

#[test]
fn nothing_to_block_is_an_error() {
    let now = Timestamp::new(1_700_000_000, 0);
    assert_eq!(
        Some(SyncError::NothingToBlock),
        sync_routes(Cached::load(None), Vec::new(), now).err()
    );
}

fn lookup(host: &str, outcome: Result<Vec<Address>, FailureKind>) -> Lookup {
    Lookup {
        host: host.to_owned(),
        outcome,
    }
}

#[test]
fn one_failed_lookup_does_not_stop_the_others() {
    let resolution = resolve_sync_routes(vec![
        lookup("a", Ok(vec![ip(5), ip(2)])),
        lookup("b", Err(FailureKind::Other)),
        lookup("c", Ok(vec![ip(2), ip(1)])),
        lookup("d", Err(FailureKind::Connectivity)),
    ]);
    assert_eq!(resolution.addresses, vec![ip(1), ip(2), ip(5)]);
    let failed: Vec<(&str, FailureKind)> = resolution
        .failures
        .iter()
        .map(|f| (f.host.as_str(), f.kind))
        .collect();
    assert_eq!(
        failed,
        vec![("b", FailureKind::Other), ("d", FailureKind::Connectivity)]
    );
}

fn failures(kinds: &[FailureKind]) -> Vec<Failure> {
    kinds
        .iter()
        .map(|kind| Failure {
            host: "host".to_owned(),
            kind: *kind,
        })
        .collect()
}

#[test]
fn only_connection_failures_are_waited_for() {
    let (connectivity, other) = (FailureKind::Connectivity, FailureKind::Other);
    assert_eq!(Wait::Proceed, after_resolving(&failures(&[]), 0));
    assert_eq!(Wait::Retry, after_resolving(&failures(&[connectivity]), 0));
    assert_eq!(
        Wait::Retry,
        after_resolving(&failures(&[connectivity, connectivity]), TIMEOUT_MS)
    );
    assert_eq!(
        Wait::Proceed,
        after_resolving(&failures(&[connectivity, connectivity]), TIMEOUT_MS + 1)
    );
    assert_eq!(
        Wait::Proceed,
        after_resolving(&failures(&[connectivity, other]), 0)
    );
    assert_eq!(Wait::Proceed, after_resolving(&failures(&[other]), 0));
    assert_eq!(30_000, TIMEOUT_MS);
    assert_eq!(200, PAUSE_MS);
}

#[test]
fn nine_hosts() {
    let hosts = sync_backends();
    assert_eq!(9, hosts.len());
    assert_eq!("hwr-production-dot-remarkable-production.appspot.com", hosts[0]);
    assert_eq!("206.137.117.34.bc.googleusercontent.com", hosts[8]);
}

#[test]
fn tool_answers() {
    let address = ip(1);
    assert_eq!(
        Ok(()),
        handle_any_error(true, "", "route: SIOCADDRT: File exists\n", &address, "text")
    );
    assert_eq!(
        Err(Error::Exists),
        handle_any_error(false, "", "route: SIOCADDRT: File exists\n", &address, "text")
    );
    assert_eq!(
        Err(Error::NotFound),
        handle_any_error(false, "", "route: SIOCDELRT: No such process\n", &address, "text")
    );
    assert_eq!(
        Err(Error::Run(CommandFailure {
            text: "text".to_owned(),
            stdout: " out ".to_owned(),
            stderr: "route: SIOCADDRT: File exists".to_owned(),
            address,
        })),
        handle_any_error(false, " out ", "route: SIOCADDRT: File exists", &address, "text")
    );
    assert_eq!(
        Err(Error::Exists),
        book_safe::sync::route::block(&address, false, "", "route: SIOCADDRT: File exists\n")
    );
    assert!(matches!(
        book_safe::sync::route::unblock(&address, false, "o", "e"),
        Err(Error::Run(_))
    ));
}

const TABLE: &str = "Kernel IP routing table
Destination     Gateway         Genmask         Flags Metric Ref    Use Iface
0.0.0.0         192.168.1.1     0.0.0.0         UG    600    0        0 wlan0
34.117.137.206  -               255.255.255.255 !H    0      -        0 -
192.168.1.0     0.0.0.0         255.255.255.0   U     600    0        0 wlan0
34.117.137.206  -               255.255.255.255 !H    0      -        0 -
";

#[test]
fn table_is_read_by_its_first_column() {
    assert_eq!(
        Ok(vec![
            Address::v4(0, 0, 0, 0),
            Address::v4(34, 117, 137, 206),
            Address::v4(192, 168, 1, 0)
        ]),
        table(TABLE)
    );
    assert_eq!(Ok(Vec::new()), table(""));
    assert_eq!(Ok(Vec::new()), table("Kernel IP routing table\nDestination Gateway\n"));
    assert_eq!(Ok(vec![ip(7)]), table("a\r\nb\r\n192.168.0.7 x\r\n"));
    assert_eq!(
        Err(TableError::NoColumns("192.168.0.7".to_owned())),
        table("a\nb\n192.168.0.7\n")
    );
    assert_eq!(
        Err(TableError::NotAnAddress("default".to_owned())),
        table("a\nb\n1.2.3.4 x\ndefault x\nbroken\n")
    );
    assert_eq!(
        Err(TableError::NotAnAddress("".to_owned())),
        table("a\nb\n 1.2.3.4\n")
    );
}

#[test]
fn addresses_in_text() {
    assert_eq!(Some(Address::v4(1, 2, 3, 4)), parse_v4("1.2.3.4"));
    assert_eq!(Some(Address::v4(255, 0, 10, 100)), parse_v4("255.0.10.100"));
    for bad in [
        "", "1.2.3", "1.2.3.4.5", "256.1.1.1", "01.2.3.4", "1.2.3.04", "1..3.4", "a.b.c.d",
        "1.2.3.4 ", "+1.2.3.4", "1.2.3.-4", "::1", "1.2.3.0004",
    ] {
        assert_eq!(None, parse_v4(bad), "{}", bad);
    }
    assert_eq!(0x0102_0304, Address::v4(1, 2, 3, 4).bits());
    assert!(!Address::v4(1, 2, 3, 4).is_v6());
    assert!(Address::v6(7).is_v6());
    assert!(Address::v4(255, 255, 255, 255).before(&Address::v6(0)));
    assert!(!Address::v6(0).same(&Address::v4(0, 0, 0, 0)));
}

#[test]
fn sets_of_addresses() {
    let mut set = Vec::new();
    for last in [5, 1, 5, 3, 1] {
        insert_unique(&mut set, ip(last));
    }
    assert_eq!(set, vec![ip(1), ip(3), ip(5)]);
    assert_eq!(unique(&vec![ip(2), ip(2), ip(1)]), vec![ip(1), ip(2)]);
    assert!(contains(&set, &ip(3)));
    assert!(!contains(&set, &ip(4)));
    assert_eq!(remove(&vec![ip(1), ip(2), ip(1)], &ip(1)), vec![ip(2)]);
}

#[test]
fn route_must_be_gone_after_unblocking() {
    assert_eq!(Ok(()), verify(&ip(1), Ok(vec![ip(2)])));
    assert_eq!(Err(Error::NoEffect), verify(&ip(2), Ok(vec![ip(2)])));
    assert_eq!(
        Err(Error::Verifying("junk".to_owned())),
        verify(&ip(2), Err(TableError::NotAnAddress("junk".to_owned())))
    );
    assert_eq!(
        Err(Error::Verifying("line".to_owned())),
        verify(&ip(2), Err(TableError::NoColumns("line".to_owned())))
    );
}

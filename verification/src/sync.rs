//! Keeping the tablet away from its cloud: which addresses to block, and how
//! to go about blocking and unblocking them with a tool that does not always
//! do as it is told.
pub mod address;
pub mod cache;
pub mod route;

use crate::sync::address::{contains, insert_unique, ordered_set, ranks, Address};
use crate::sync::cache::{routes_view, updated, Cached, EntryModel, Routes, Timestamp};
use crate::sync::route::Error;
use vstd::prelude::*;

verus! {

/// How long to wait for the network before going on without it, in
/// milliseconds.
pub const TIMEOUT_MS: u64 = 30_000;

/// How long to pause before asking again, in milliseconds.
pub const PAUSE_MS: u64 = 200;

/// How often the routing tool is asked before giving up.
pub const MAX_ATTEMPTS: u32 = 5;

/// The names of the hosts that the tablet syncs with.
pub open spec fn backends() -> Seq<Seq<char>> {
    seq![
        "hwr-production-dot-remarkable-production.appspot.com"@,
        "service-manager-production-dot-remarkable-production.appspot.com"@,
        "local.appspot.com"@,
        "my.remarkable.com"@,
        "ping.remarkable.com"@,
        "internal.cloud.remarkable.com"@,
        "ams15s41-in-f20.1e100.net"@,
        "ams15s48-in-f20.1e100.net"@,
        "206.137.117.34.bc.googleusercontent.com"@,
    ]
}

/// What the names of a list are.
pub open spec fn name_views(list: Seq<&'static str>) -> Seq<Seq<char>> {
    Seq::new(list.len(), |i: int| list[i]@)
}

/// The names of the hosts that the tablet syncs with.
pub fn sync_backends() -> (hosts: Vec<&'static str>)
    ensures
        name_views(hosts@) == backends(),
{
    let mut hosts: Vec<&'static str> = Vec::new();
    hosts.push("hwr-production-dot-remarkable-production.appspot.com");
    hosts.push("service-manager-production-dot-remarkable-production.appspot.com");
    hosts.push("local.appspot.com");
    hosts.push("my.remarkable.com");
    hosts.push("ping.remarkable.com");
    hosts.push("internal.cloud.remarkable.com");
    hosts.push("ams15s41-in-f20.1e100.net");
    hosts.push("ams15s48-in-f20.1e100.net");
    hosts.push("206.137.117.34.bc.googleusercontent.com");
    assert(name_views(hosts@) =~= backends());
    hosts
}

/// Why a name was not resolved.
#[derive(Clone, Copy, Debug, PartialEq, Eq, Structural)]
pub enum FailureKind {
    /// The resolver could not be reached: the network may not be up yet.
    Connectivity,
    /// Anything else, such as a name that does not exist.
    Other,
}

/// What came of looking up one name.
pub struct Lookup {
    pub host: String,
    pub outcome: Result<Vec<Address>, FailureKind>,
}

/// What came of looking up one name.
pub ghost struct LookupModel {
    pub host: Seq<char>,
    pub outcome: Result<Seq<nat>, FailureKind>,
}

impl View for Lookup {
    type V = LookupModel;

    open spec fn view(&self) -> LookupModel {
        LookupModel {
            host: self.host@,
            outcome: match self.outcome {
                Ok(list) => Ok(ranks(list@)),
                Err(kind) => Err(kind),
            },
        }
    }
}

/// A name that was not resolved.
pub struct Failure {
    pub host: String,
    pub kind: FailureKind,
}

/// A name that was not resolved, and why.
pub ghost struct FailureModel {
    pub host: Seq<char>,
    pub kind: FailureKind,
}

impl View for Failure {
    type V = FailureModel;

    open spec fn view(&self) -> FailureModel {
        FailureModel { host: self.host@, kind: self.kind }
    }
}

/// What the lookups of a list came to.
pub open spec fn lookup_views(list: Seq<Lookup>) -> Seq<LookupModel> {
    Seq::new(list.len(), |i: int| list[i]@)
}

/// What the failures of a list say.
pub open spec fn failure_views(list: Seq<Failure>) -> Seq<FailureModel> {
    Seq::new(list.len(), |i: int| list[i]@)
}

/// All the addresses that the lookups found, lookup after lookup.
pub open spec fn found(lookups: Seq<LookupModel>) -> Seq<nat>
    decreases lookups.len(),
{
    if lookups.len() == 0 {
        Seq::empty()
    } else {
        found(lookups.drop_last()) + match lookups.last().outcome {
            Ok(list) => list,
            Err(_) => Seq::empty(),
        }
    }
}

/// The lookups that failed, in their order.
pub open spec fn failed(lookups: Seq<LookupModel>) -> Seq<FailureModel>
    decreases lookups.len(),
{
    if lookups.len() == 0 {
        Seq::empty()
    } else {
        match lookups.last().outcome {
            Ok(_) => failed(lookups.drop_last()),
            Err(kind) => failed(lookups.drop_last()).push(
                FailureModel { host: lookups.last().host, kind },
            ),
        }
    }
}

/// What a round of lookups came to: the addresses found, in rising order
/// and each once, and the names that were not resolved.
pub struct Resolution {
    pub addresses: Vec<Address>,
    pub failures: Vec<Failure>,
}

/// Puts together what the lookups of the hosts came to. A lookup that failed
/// takes nothing from what the others found.
pub fn resolve_sync_routes(lookups: Vec<Lookup>) -> (r: Resolution)
    ensures
        ranks(r.addresses@) == ordered_set(found(lookup_views(lookups@))),
        failure_views(r.failures@) == failed(lookup_views(lookups@)),
{
    let mut addresses: Vec<Address> = Vec::new();
    let mut failures: Vec<Failure> = Vec::new();
    let ghost all = lookup_views(lookups@);
    assert(all.take(0) == Seq::<LookupModel>::empty());
    assert(ranks(addresses@) =~= ordered_set(Seq::<nat>::empty()));
    assert(failure_views(failures@) =~= Seq::<FailureModel>::empty());
    for lookup in iter: lookups
        invariant
            iter.seq() == lookups@,
            all == lookup_views(lookups@),
            ranks(addresses@) == ordered_set(found(all.take(iter.index() as int))),
            failure_views(failures@) == failed(all.take(iter.index() as int)),
    {
        proof {
            let i = iter.index() as int;
            assert(all.take(i + 1).drop_last() == all.take(i));
            assert(all.take(i + 1).last() == lookup@);
        }
        let ghost before = found(all.take(iter.index() as int));
        let Lookup { host, outcome } = lookup;
        match outcome {
            Ok(list) => {
                let mut k: usize = 0;
                assert(before + ranks(list@).take(0) =~= before);
                while k < list.len()
                    invariant
                        k <= list.len(),
                        ranks(addresses@) == ordered_set(before + ranks(list@).take(k as int)),
                    decreases list.len() - k,
                {
                    proof {
                        let longer = before + ranks(list@).take(k + 1);
                        assert(longer.drop_last() =~= before + ranks(list@).take(k as int));
                        assert(longer.last() == list[k as int]@);
                    }
                    insert_unique(&mut addresses, list[k]);
                    k += 1;
                }
                assert(ranks(list@).take(k as int) == ranks(list@));
            },
            Err(kind) => {
                let failure = Failure { host, kind };
                proof {
                    assert(failure_views(failures@.push(failure)) =~= failure_views(
                        failures@,
                    ).push(failure@));
                    assert(before + Seq::<nat>::empty() =~= before);
                }
                failures.push(failure);
            },
        }
    }
    assert(all.take(all.len() as int) == all);
    Resolution { addresses, failures }
}

/// Whether all of `failures` are failures to reach the resolver.
pub open spec fn all_connectivity(failures: Seq<FailureModel>) -> bool {
    forall|i: int| 0 <= i < failures.len() ==> (#[trigger] failures[i]).kind
        == FailureKind::Connectivity
}

/// Whether to ask the resolver again: only if something failed, all that
/// failed was the connection, and the time is not up.
pub open spec fn should_retry(failures: Seq<FailureModel>, elapsed_ms: u64) -> bool {
    failures.len() > 0 && all_connectivity(failures) && elapsed_ms <= TIMEOUT_MS
}

/// What to do after a round of lookups.
#[derive(Clone, Copy, Debug, PartialEq, Eq, Structural)]
pub enum Wait {
    /// Go on with what was resolved.
    Proceed,
    /// Pause for `PAUSE_MS` and resolve again.
    Retry,
}

/// Decides what to do after a round of lookups that left `failures`,
/// `elapsed_ms` milliseconds after the first round began.
pub fn after_resolving(failures: &Vec<Failure>, elapsed_ms: u64) -> (r: Wait)
    ensures
        r == if should_retry(failure_views(failures@), elapsed_ms) {
            Wait::Retry
        } else {
            Wait::Proceed
        },
{
    if failures.len() == 0 || elapsed_ms > TIMEOUT_MS {
        return Wait::Proceed;
    }
    let mut i: usize = 0;
    while i < failures.len()
        invariant
            i <= failures.len(),
            forall|k: int| 0 <= k < i ==> (#[trigger] failure_views(failures@)[k]).kind
                == FailureKind::Connectivity,
        decreases failures.len() - i,
    {
        match failures[i].kind {
            FailureKind::Connectivity => {},
            FailureKind::Other => {
                assert(failure_views(failures@)[i as int].kind == FailureKind::Other);
                return Wait::Proceed;
            },
        }
        i += 1;
    }
    Wait::Retry
}

/// Which of the two things is being done to the routes.
#[derive(Clone, Copy, Debug, PartialEq, Eq, Structural)]
pub enum Operation {
    /// Routes are added, so that the addresses cannot be reached.
    Block,
    /// Routes are removed again.
    Unblock,
}

/// Why syncing could not be blocked or unblocked.
#[derive(Debug, Clone, PartialEq, Eq)]
pub enum SyncError {
    /// Nothing was resolved and the cache is empty: there is nothing to block.
    NothingToBlock,
    /// The tool had no effect, as often as it was asked.
    Timeout { operation: Operation, address: Address },
    /// The tool failed.
    Route { operation: Operation, error: Error },
}

/// The addresses to block after `resolved` was resolved at `now`: the cache
/// takes the new addresses in, and what is left of it is what is to be
/// blocked and to be written back. Only where there is nothing at all is
/// this an error.
pub fn sync_routes(cache: Cached, resolved: Vec<Address>, now: Timestamp) -> (r: Result<
    Routes,
    SyncError,
>)
    ensures
        match updated(cache@, ranks(resolved@), now@) {
            Some(entries) => r matches Ok(routes) && routes@ == entries,
            None => r == Err::<Routes, SyncError>(SyncError::NothingToBlock),
        },
{
    match cache.update_at(resolved, now) {
        Some(routes) => Ok(routes),
        None => Err(SyncError::NothingToBlock),
    }
}

/// Whether the tool has to be asked about `address`: a route is added only
/// where there is none, and removed only where there is one.
pub open spec fn needs_work(operation: Operation, table: Seq<nat>, address: nat) -> bool {
    match operation {
        Operation::Block => !table.contains(address),
        Operation::Unblock => table.contains(address),
    }
}

/// The table without `address`.
pub open spec fn without(table: Seq<nat>, address: nat) -> Seq<nat>
    decreases table.len(),
{
    if table.len() == 0 {
        Seq::empty()
    } else if table.last() == address {
        without(table.drop_last(), address)
    } else {
        without(table.drop_last(), address).push(table.last())
    }
}

/// The table after the tool did for `address` what it was asked to.
pub open spec fn after_success(operation: Operation, table: Seq<nat>, address: nat) -> Seq<nat> {
    match operation {
        Operation::Block => if table.contains(address) {
            table
        } else {
            table.push(address)
        },
        Operation::Unblock => without(table, address),
    }
}

/// What the tool's answer means for the work on one address.
pub ghost enum Reply {
    /// The route is now as it should be.
    Settled,
    /// Nothing happened.
    NoEffect,
    /// The tool failed.
    Failed,
}

/// What an answer of the tool means while `operation` is being done. That
/// a route to be added is there already, or that a route to be removed is
/// not there, settles the matter as well as a success does.
pub open spec fn reply(operation: Operation, outcome: Result<(), Error>) -> Reply {
    match outcome {
        Ok(_) => Reply::Settled,
        Err(Error::NoEffect) => Reply::NoEffect,
        Err(Error::Exists) => if operation == Operation::Block {
            Reply::Settled
        } else {
            Reply::Failed
        },
        Err(Error::NotFound) => if operation == Operation::Unblock {
            Reply::Settled
        } else {
            Reply::Failed
        },
        Err(_) => Reply::Failed,
    }
}

/// Where the work on the routes stands.
pub ghost struct JobModel {
    /// What is being done.
    pub operation: Operation,
    /// The addresses to do it for.
    pub targets: Seq<nat>,
    /// The routes that are there, as far as is known.
    pub table: Seq<nat>,
    /// How many of the targets are behind us.
    pub next: nat,
    /// The number of the attempt that comes next, counted from one over the
    /// whole job.
    pub attempt: nat,
}

impl JobModel {
    /// Well-formed: no more targets behind us than there are, and attempts
    /// count from one up to the limit.
    pub open spec fn wf(self) -> bool {
        self.next <= self.targets.len() && 1 <= self.attempt <= MAX_ATTEMPTS
    }

    /// The job past the targets that need no work.
    pub open spec fn skipped(self) -> JobModel
        decreases self.targets.len() - self.next,
    {
        if self.next < self.targets.len() && !needs_work(
            self.operation,
            self.table,
            self.targets[self.next as int],
        ) {
            (JobModel { next: self.next + 1, ..self }).skipped()
        } else {
            self
        }
    }

    /// The address that the tool is to be asked about next, if any is left.
    pub open spec fn pending(self) -> Option<nat> {
        if self.skipped().next < self.targets.len() {
            Some(self.targets[self.skipped().next as int])
        } else {
            None
        }
    }

    /// The job after the tool settled the target at hand.
    pub open spec fn settled(self) -> JobModel {
        JobModel {
            table: after_success(self.operation, self.table, self.targets[self.next as int]),
            next: self.next + 1,
            ..self
        }
    }

    /// The job after the tool had no effect and is to be asked again.
    pub open spec fn retried(self) -> JobModel {
        JobModel { attempt: self.attempt + 1, ..self }
    }
}

/// The work of blocking or unblocking a list of addresses, one call of the
/// routing tool at a time.
pub struct Job {
    operation: Operation,
    targets: Vec<Address>,
    table: Vec<Address>,
    next: usize,
    attempt: u32,
}

impl View for Job {
    type V = JobModel;

    closed spec fn view(&self) -> JobModel {
        JobModel {
            operation: self.operation,
            targets: ranks(self.targets@),
            table: ranks(self.table@),
            next: self.next as nat,
            attempt: self.attempt as nat,
        }
    }
}

/// What is to be done next for a job.
#[derive(Clone, Copy, Debug, PartialEq, Eq)]
pub enum Step {
    /// Call the tool for this address, then report what it said.
    Invoke(Address),
    /// Nothing is left to do.
    Finished,
}

/// What a report leads to.
#[derive(Debug, Clone, PartialEq, Eq)]
pub enum Verdict {
    /// The address is dealt with: take the next step.
    Next,
    /// Pause for `PAUSE_MS`, then take the next step, which asks again.
    Retry,
    /// Give up.
    Abort(SyncError),
}

impl Job {
    /// The job of doing `operation` for `targets`, given the routes that are
    /// in the table now.
    pub fn new(operation: Operation, targets: Vec<Address>, table: Vec<Address>) -> (job: Job)
        ensures
            job@.wf(),
            job@ == (JobModel {
                operation,
                targets: ranks(targets@),
                table: ranks(table@),
                next: 0,
                attempt: 1,
            }),
    {
        Job { operation, targets, table, next: 0, attempt: 1 }
    }

    /// What is being done.
    pub fn operation(&self) -> (operation: Operation)
        ensures
            operation == self@.operation,
    {
        self.operation
    }

    /// The number of the attempt that comes next.
    pub fn attempt(&self) -> (attempt: u32)
        ensures
            attempt == self@.attempt,
    {
        self.attempt
    }

    /// Goes past the targets that need no work and says what to do next:
    /// call the tool for the first target that needs it, or stop.
    pub fn next_step(&mut self) -> (step: Step)
        requires
            old(self)@.wf(),
        ensures
            final(self)@.wf(),
            final(self)@ == old(self)@.skipped(),
            match step {
                Step::Invoke(address) => old(self)@.pending() == Some(address@) && needs_work(
                    final(self)@.operation,
                    final(self)@.table,
                    address@,
                ),
                Step::Finished => old(self)@.pending() is None,
            },
    {
        while self.next < self.targets.len()
            invariant
                self@.wf(),
                self@.skipped() == old(self)@.skipped(),
                self@.targets == old(self)@.targets,
            decreases self.targets.len() - self.next,
        {
            let address = self.targets[self.next];
            let present = contains(&self.table, &address);
            let needed = match self.operation {
                Operation::Block => !present,
                Operation::Unblock => present,
            };
            let ghost here = self@;
            assert(here.targets[here.next as int] == address@);
            if needed {
                assert(here.skipped() == here);
                return Step::Invoke(address);
            }
            self.next += 1;
            assert(here.skipped() == self@.skipped());
        }
        assert(self@.skipped() == self@);
        Step::Finished
    }

    /// Takes note of what the tool said about the target at hand. A settled
    /// target is left behind. After no effect the tool is asked again, unless
    /// it has been asked `MAX_ATTEMPTS` times in this job. Any other failure
    /// ends the job. Where no target is at hand the report changes nothing.
    pub fn report(&mut self, outcome: Result<(), Error>) -> (verdict: Verdict)
        requires
            old(self)@.wf(),
        ensures
            final(self)@.wf(),
            old(self)@.next >= old(self)@.targets.len() ==> verdict == Verdict::Next
                && final(self)@ == old(self)@,
            old(self)@.next < old(self)@.targets.len() ==> match reply(
                old(self)@.operation,
                outcome,
            ) {
                Reply::Settled => verdict == Verdict::Next && final(self)@ == old(self)@.settled(),
                Reply::NoEffect => if old(self)@.attempt >= MAX_ATTEMPTS {
                    final(self)@ == old(self)@ && (verdict matches Verdict::Abort(
                        SyncError::Timeout { operation, address },
                    ) && operation == old(self)@.operation && address@ == old(
                        self,
                    )@.targets[old(self)@.next as int])
                } else {
                    verdict == Verdict::Retry && final(self)@ == old(self)@.retried()
                },
                Reply::Failed => final(self)@ == old(self)@ && (verdict matches Verdict::Abort(
                    SyncError::Route { operation, error },
                ) && operation == old(self)@.operation && Err::<(), Error>(error) == outcome),
            },
    {
        if self.next >= self.targets.len() {
            return Verdict::Next;
        }
        let address = self.targets[self.next];
        let count = self.targets.len();
        assert(self.next < count);
        let settled = match &outcome {
            Ok(_) => true,
            Err(Error::Exists) => match self.operation {
                Operation::Block => true,
                Operation::Unblock => false,
            },
            Err(Error::NotFound) => match self.operation {
                Operation::Block => false,
                Operation::Unblock => true,
            },
            Err(_) => false,
        };
        if settled {
            match self.operation {
                Operation::Block => {
                    if !contains(&self.table, &address) {
                        proof {
                            assert(ranks(self.table@.push(address)) =~= ranks(self.table@).push(
                                address@,
                            ));
                        }
                        self.table.push(address);
                    }
                },
                Operation::Unblock => {
                    self.table = remove(&self.table, &address);
                },
            }
            self.next += 1;
            return Verdict::Next;
        }
        match outcome {
            Err(Error::NoEffect) => {
                if self.attempt >= MAX_ATTEMPTS {
                    Verdict::Abort(SyncError::Timeout { operation: self.operation, address })
                } else {
                    self.attempt += 1;
                    Verdict::Retry
                }
            },
            Err(error) => Verdict::Abort(SyncError::Route { operation: self.operation, error }),
            Ok(_) => Verdict::Next,
        }
    }

    /// The routes that are there, as far as the job knows.
    pub fn table(&self) -> (table: Vec<Address>)
        ensures
            ranks(table@) == self@.table,
    {
        let mut table: Vec<Address> = Vec::new();
        let mut i: usize = 0;
        while i < self.table.len()
            invariant
                i <= self.table.len(),
                table.len() == i,
                forall|k: int| 0 <= k < i ==> table[k] == self.table[k],
            decreases self.table.len() - i,
        {
            table.push(self.table[i]);
            i += 1;
        }
        assert(ranks(table@) =~= self@.table);
        table
    }
}

/// `table` without `address`.
pub fn remove(table: &Vec<Address>, address: &Address) -> (rest: Vec<Address>)
    ensures
        ranks(rest@) == without(ranks(table@), address@),
{
    let mut rest: Vec<Address> = Vec::new();
    let ghost all = ranks(table@);
    let mut i: usize = 0;
    assert(all.take(0) == Seq::<nat>::empty());
    assert(ranks(rest@) =~= Seq::<nat>::empty());
    while i < table.len()
        invariant
            i <= table.len(),
            all == ranks(table@),
            ranks(rest@) == without(all.take(i as int), address@),
        decreases table.len() - i,
    {
        proof {
            assert(all.take(i + 1).drop_last() == all.take(i as int));
            assert(all.take(i + 1).last() == table[i as int]@);
        }
        if !table[i].same(address) {
            proof {
                assert(ranks(rest@.push(table[i as int])) =~= ranks(rest@).push(table[i as int]@));
            }
            rest.push(table[i]);
        }
        i += 1;
    }
    assert(all.take(i as int) == all);
    rest
}

/// The job of blocking `routes`, given the routes that are in the table now.
pub fn block(routes: Routes, table: Vec<Address>) -> (job: Job)
    ensures
        job@.wf(),
        job@ == (JobModel {
            operation: Operation::Block,
            targets: crate::sync::cache::ips(routes@),
            table: ranks(table@),
            next: 0,
            attempt: 1,
        }),
{
    Job::new(Operation::Block, routes.into_ips(), table)
}

/// The job of unblocking what the cache holds, given the routes that are in
/// the table now. Nothing is resolved for it.
pub fn unblock(cached: Cached, table: Vec<Address>) -> (job: Job)
    ensures
        job@.wf(),
        job@ == (JobModel {
            operation: Operation::Unblock,
            targets: crate::sync::cache::ips(cached@),
            table: ranks(table@),
            next: 0,
            attempt: 1,
        }),
{
    Job::new(Operation::Unblock, cached.blocked_ips(), table)
}

/// Nothing is left of an address that was taken out of a table.
pub proof fn lemma_without(table: Seq<nat>, address: nat)
    ensures
        !without(table, address).contains(address),
        !table.contains(address) ==> without(table, address) == table,
    decreases table.len(),
{
    if table.len() > 0 {
        let shorter = table.drop_last();
        lemma_without(shorter, address);
        let rest = without(table, address);
        if rest.contains(address) {
            let i = choose|i: int| 0 <= i < rest.len() && rest[i] == address;
            if i < without(shorter, address).len() {
                assert(without(shorter, address)[i] == address);
            }
        }
        if !table.contains(address) {
            assert(table[table.len() - 1] != address);
            if shorter.contains(address) {
                let i = choose|i: int| 0 <= i < shorter.len() && shorter[i] == address;
                assert(table[i] == address);
            }
            assert(shorter.push(table.last()) =~= table);
        }
    }
}

/// Blocking an address twice is blocking it once: after the first success
/// the address needs no more work, a second success changes nothing, and the
/// address stands in the table exactly once if it did not stand there
/// before.
pub proof fn lemma_block_twice(table: Seq<nat>, address: nat)
    ensures
        !needs_work(Operation::Block, after_success(Operation::Block, table, address), address),
        after_success(
            Operation::Block,
            after_success(Operation::Block, table, address),
            address,
        ) == after_success(Operation::Block, table, address),
        !table.contains(address) ==> after_success(
            Operation::Block,
            table,
            address,
        ).to_multiset().count(address) == 1,
{
    let once = after_success(Operation::Block, table, address);
    if table.contains(address) {
    } else {
        assert(once[once.len() - 1] == address);
        vstd::seq_lib::to_multiset_build(table, address);
        table.to_multiset_ensures();
    }
}

/// Unblocking an address that has no route is no work: the tool is not asked,
/// and had it been asked and succeeded the table would be as it was.
pub proof fn lemma_unblock_absent(table: Seq<nat>, address: nat)
    requires
        !table.contains(address),
    ensures
        !needs_work(Operation::Unblock, table, address),
        after_success(Operation::Unblock, table, address) == table,
{
    lemma_without(table, address);
}

} // verus!

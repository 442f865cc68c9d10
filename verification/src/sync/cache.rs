//! The addresses that were blocked before, kept from one run to the next and
//! forgotten with care.
use crate::sync::address::{ranks, Address};
use std::time::{Duration, SystemTime, UNIX_EPOCH};
use vstd::prelude::*;

verus! {

/// Eight weeks in seconds: the age from which an entry counts as expired.
pub const EXPIRATION_SECS: u64 = 4_838_400;

/// Eight weeks in nanoseconds.
pub open spec fn expiration() -> nat {
    4_838_400_000_000_000
}

/// A point in time, counted from the first second of 1970.
#[derive(Clone, Copy, Debug, PartialEq, Eq, Hash)]
pub struct Timestamp {
    secs: u64,
    nanos: u32,
}

impl View for Timestamp {
    type V = nat;

    /// Nanoseconds since the first second of 1970.
    closed spec fn view(&self) -> nat {
        (self.secs * 1_000_000_000 + self.nanos) as nat
    }
}

impl Timestamp {
    /// The point in time `secs` seconds and `nanos` nanoseconds after the
    /// first second of 1970.
    pub fn new(secs: u64, nanos: u32) -> (time: Timestamp)
        ensures
            time@ == secs * 1_000_000_000 + nanos,
            time.secs_part() == secs,
            time.nanos_part() == nanos,
    {
        Timestamp { secs, nanos }
    }

    /// The seconds that the time was made of.
    pub closed spec fn secs_part(&self) -> u64 {
        self.secs
    }

    /// The nanoseconds that the time was made of.
    pub closed spec fn nanos_part(&self) -> u32 {
        self.nanos
    }

    /// The seconds that `new` was given.
    pub fn secs(&self) -> (secs: u64)
        ensures
            secs == self.secs_part(),
            self@ == self.secs_part() * 1_000_000_000 + self.nanos_part(),
    {
        self.secs
    }

    /// The nanoseconds that `new` was given.
    pub fn nanos(&self) -> (nanos: u32)
        ensures
            nanos == self.nanos_part(),
    {
        self.nanos
    }

    /// Nanoseconds since the first second of 1970.
    pub fn since_epoch(&self) -> (r: u128)
        ensures
            r == self@,
    {
        (self.secs as u128) * 1_000_000_000 + (self.nanos as u128)
    }

    /// Whether something last seen at this time is fresh at `now`: seen less
    /// than eight weeks ago, or later than `now`.
    pub fn fresh_at(&self, now: &Timestamp) -> (r: bool)
        ensures
            r == is_fresh(self@, now@),
    {
        let then = self.since_epoch();
        let now = now.since_epoch();
        now < then || now - then < (EXPIRATION_SECS as u128) * 1_000_000_000
    }
}

/// `SystemTime::now`: the time of the machine's clock as it stands when
/// asked, handed out as seconds and nanoseconds since the first second of
/// 1970. Nothing is promised of it.
#[verifier::external_body]
fn clock() -> (parts: (u64, u32)) {
    let since = SystemTime::now().duration_since(UNIX_EPOCH).unwrap_or(Duration::ZERO);
    (since.as_secs(), since.subsec_nanos())
}

/// Whether something last seen at `then` is fresh at `now`.
pub open spec fn is_fresh(then: nat, now: nat) -> bool {
    now < then || now - then < expiration()
}

/// An address and when it was last seen.
pub ghost struct EntryModel {
    pub ip: nat,
    pub last_updated: nat,
}

/// One line of the cache: an address and when it was last resolved.
#[derive(Clone, Copy, Debug, PartialEq, Eq)]
pub struct Entry {
    ip: Address,
    last_updated: Timestamp,
}

impl View for Entry {
    type V = EntryModel;

    closed spec fn view(&self) -> EntryModel {
        EntryModel { ip: self.ip@, last_updated: self.last_updated@ }
    }
}

impl Entry {
    /// The entry that says that `ip` was seen at `last_updated`.
    pub fn new(ip: Address, last_updated: Timestamp) -> (entry: Entry)
        ensures
            entry@ == (EntryModel { ip: ip@, last_updated: last_updated@ }),
    {
        Entry { ip, last_updated }
    }

    /// The address.
    pub fn ip(&self) -> (ip: Address)
        ensures
            ip@ == self@.ip,
    {
        self.ip
    }

    /// When the address was last seen.
    pub fn last_updated(&self) -> (time: Timestamp)
        ensures
            time@ == self@.last_updated,
    {
        self.last_updated
    }
}

/// What the entries of a list say.
pub open spec fn entry_views(list: Seq<Entry>) -> Seq<EntryModel> {
    Seq::new(list.len(), |i: int| list[i]@)
}

/// The addresses of a list of entries.
pub open spec fn ips(list: Seq<EntryModel>) -> Seq<nat> {
    Seq::new(list.len(), |i: int| list[i].ip)
}

/// Whether the addresses of the entries rise strictly, so that no address has
/// two entries.
pub open spec fn one_each(list: Seq<EntryModel>) -> bool {
    forall|i: int, j: int| 0 <= i < j < list.len() ==> list[i].ip < list[j].ip
}

/// The list `sorted`, which has one entry for each address, with `entry`
/// taken in: in the place that belongs to its address, and instead of an
/// entry for the same address unless that one is newer.
pub open spec fn merge_entry(sorted: Seq<EntryModel>, entry: EntryModel) -> Seq<EntryModel>
    decreases sorted.len(),
{
    if sorted.len() == 0 {
        seq![entry]
    } else if sorted.last().ip < entry.ip {
        sorted.push(entry)
    } else if sorted.last().ip == entry.ip {
        if sorted.last().last_updated < entry.last_updated {
            sorted.drop_last().push(entry)
        } else {
            sorted
        }
    } else {
        merge_entry(sorted.drop_last(), entry).push(sorted.last())
    }
}

/// The entries of `list` by address, one for each address: the newest.
pub open spec fn newest_each(list: Seq<EntryModel>) -> Seq<EntryModel>
    decreases list.len(),
{
    if list.len() == 0 {
        Seq::empty()
    } else {
        merge_entry(newest_each(list.drop_last()), list.last())
    }
}

/// The entries that say that each of `addresses` was seen at `now`.
pub open spec fn seen_at(addresses: Seq<nat>, now: nat) -> Seq<EntryModel> {
    Seq::new(addresses.len(), |i: int| EntryModel { ip: addresses[i], last_updated: now })
}

/// How many of `list` are fresh at `now`.
pub open spec fn count_fresh(list: Seq<EntryModel>, now: nat) -> nat
    decreases list.len(),
{
    if list.len() == 0 {
        0
    } else {
        count_fresh(list.drop_last(), now) + if is_fresh(list.last().last_updated, now) {
            1nat
        } else {
            0nat
        }
    }
}

/// The fresh ones among `list`, in their order.
pub open spec fn fresh_only(list: Seq<EntryModel>, now: nat) -> Seq<EntryModel>
    decreases list.len(),
{
    if list.len() == 0 {
        Seq::empty()
    } else if is_fresh(list.last().last_updated, now) {
        fresh_only(list.drop_last(), now).push(list.last())
    } else {
        fresh_only(list.drop_last(), now)
    }
}

/// What becomes of the cached entries when `addresses` were resolved at
/// `now`: the new entries are taken in, one entry is kept for each address,
/// and the expired ones are dropped, but only where two or more are fresh.
/// Nothing at all gives `None`.
pub open spec fn updated(cached: Seq<EntryModel>, addresses: Seq<nat>, now: nat) -> Option<
    Seq<EntryModel>,
> {
    let merged = newest_each(cached + seen_at(addresses, now));
    if merged.len() == 0 {
        None
    } else if count_fresh(merged, now) < 2 {
        Some(merged)
    } else {
        Some(fresh_only(merged, now))
    }
}

/// Taking an entry in keeps one entry for each address.
pub proof fn lemma_merge_entry(sorted: Seq<EntryModel>, entry: EntryModel)
    requires
        one_each(sorted),
    ensures
        one_each(merge_entry(sorted, entry)),
        merge_entry(sorted, entry).len() >= 1,
        forall|e: EntryModel|
            #![trigger merge_entry(sorted, entry).contains(e)]
            merge_entry(sorted, entry).contains(e) ==> sorted.contains(e) || e == entry,
        forall|e: EntryModel|
            #![trigger sorted.contains(e)]
            sorted.contains(e) ==> exists|k: int|
                #![trigger merge_entry(sorted, entry)[k]]
                0 <= k < merge_entry(sorted, entry).len() && merge_entry(sorted, entry)[k].ip
                    == e.ip && merge_entry(sorted, entry)[k].last_updated >= e.last_updated,
        exists|k: int|
            #![trigger merge_entry(sorted, entry)[k]]
            0 <= k < merge_entry(sorted, entry).len() && merge_entry(sorted, entry)[k].ip
                == entry.ip && merge_entry(sorted, entry)[k].last_updated >= entry.last_updated,
    decreases sorted.len(),
{
    let after = merge_entry(sorted, entry);
    if sorted.len() == 0 {
        assert(after[0] == entry);
    } else if sorted.last().ip < entry.ip {
        assert(after[after.len() - 1] == entry);
        assert forall|i: int, j: int| 0 <= i < j < after.len() implies after[i].ip
            < after[j].ip by {
            if j == sorted.len() && i < sorted.len() - 1 {
                assert(sorted[i].ip < sorted[sorted.len() - 1].ip);
            }
        }
        assert forall|e: EntryModel| after.contains(e) implies sorted.contains(e) || e
            == entry by {
            let i = choose|i: int| 0 <= i < after.len() && after[i] == e;
            if i < sorted.len() {
                assert(sorted[i] == e);
            }
        }
        assert forall|e: EntryModel| sorted.contains(e) implies exists|k: int|
            #![trigger after[k]]
            0 <= k < after.len() && after[k].ip == e.ip && after[k].last_updated
                >= e.last_updated by {
            let i = choose|i: int| 0 <= i < sorted.len() && sorted[i] == e;
            assert(after[i] == e);
        }
    } else if sorted.last().ip == entry.ip {
        let last = sorted.len() - 1;
        if sorted.last().last_updated < entry.last_updated {
            assert(after[last] == entry);
            assert forall|i: int, j: int| 0 <= i < j < after.len() implies after[i].ip
                < after[j].ip by {
                assert(sorted[i].ip < sorted[j].ip);
            }
            assert forall|e: EntryModel| after.contains(e) implies sorted.contains(e) || e
                == entry by {
                let i = choose|i: int| 0 <= i < after.len() && after[i] == e;
                if i < last {
                    assert(sorted[i] == e);
                }
            }
            assert forall|e: EntryModel| sorted.contains(e) implies exists|k: int|
                #![trigger after[k]]
                0 <= k < after.len() && after[k].ip == e.ip && after[k].last_updated
                    >= e.last_updated by {
                let i = choose|i: int| 0 <= i < sorted.len() && sorted[i] == e;
                if i < last {
                    assert(after[i] == e);
                } else {
                    assert(after[last].ip == e.ip);
                }
            }
        } else {
            assert(after[last].ip == entry.ip);
            assert forall|e: EntryModel| sorted.contains(e) implies exists|k: int|
                #![trigger after[k]]
                0 <= k < after.len() && after[k].ip == e.ip && after[k].last_updated
                    >= e.last_updated by {
                let i = choose|i: int| 0 <= i < sorted.len() && sorted[i] == e;
                assert(after[i] == e);
            }
        }
    } else {
        let shorter = sorted.drop_last();
        let last = sorted.last();
        assert(one_each(shorter)) by {
            assert forall|i: int, j: int| 0 <= i < j < shorter.len() implies shorter[i].ip
                < shorter[j].ip by {
                assert(sorted[i].ip < sorted[j].ip);
            }
        }
        lemma_merge_entry(shorter, entry);
        let inner = merge_entry(shorter, entry);
        assert forall|i: int, j: int| 0 <= i < j < after.len() implies after[i].ip
            < after[j].ip by {
            if j < inner.len() {
                assert(inner[i].ip < inner[j].ip);
            } else {
                assert(inner.contains(inner[i]));
                if shorter.contains(inner[i]) {
                    let k = choose|k: int| 0 <= k < shorter.len() && shorter[k] == inner[i];
                    assert(sorted[k].ip < sorted[sorted.len() - 1].ip);
                }
            }
        }
        assert forall|e: EntryModel| after.contains(e) implies sorted.contains(e) || e
            == entry by {
            let i = choose|i: int| 0 <= i < after.len() && after[i] == e;
            if i < inner.len() {
                assert(inner[i] == e);
                assert(inner.contains(e));
                if shorter.contains(e) {
                    let k = choose|k: int| 0 <= k < shorter.len() && shorter[k] == e;
                    assert(sorted[k] == e);
                }
            } else {
                assert(sorted[sorted.len() - 1] == e);
            }
        }
        assert forall|e: EntryModel| sorted.contains(e) implies exists|k: int|
            #![trigger after[k]]
            0 <= k < after.len() && after[k].ip == e.ip && after[k].last_updated
                >= e.last_updated by {
            let i = choose|i: int| 0 <= i < sorted.len() && sorted[i] == e;
            if i < sorted.len() - 1 {
                assert(shorter[i] == e);
                assert(shorter.contains(e));
                let k = choose|k: int|
                    #![trigger inner[k]]
                    0 <= k < inner.len() && inner[k].ip == e.ip && inner[k].last_updated
                        >= e.last_updated;
                assert(after[k] == inner[k]);
            } else {
                assert(after[after.len() - 1] == e);
            }
        }
        let k = choose|k: int|
            #![trigger inner[k]]
            0 <= k < inner.len() && inner[k].ip == entry.ip && inner[k].last_updated
                >= entry.last_updated;
        assert(after[k] == inner[k]);
    }
}

/// Of entries for the same address only the newest is kept: what
/// `newest_each` makes of a list has one entry for each address, holds only
/// entries of the list, and has for every entry of the list one for the same
/// address that is as new or newer.
pub proof fn lemma_newest_each(list: Seq<EntryModel>)
    ensures
        one_each(newest_each(list)),
        forall|e: EntryModel|
            #![trigger newest_each(list).contains(e)]
            newest_each(list).contains(e) ==> list.contains(e),
        forall|e: EntryModel|
            #![trigger list.contains(e)]
            list.contains(e) ==> exists|k: int|
                #![trigger newest_each(list)[k]]
                0 <= k < newest_each(list).len() && newest_each(list)[k].ip == e.ip
                    && newest_each(list)[k].last_updated >= e.last_updated,
    decreases list.len(),
{
    if list.len() > 0 {
        let shorter = list.drop_last();
        lemma_newest_each(shorter);
        let inner = newest_each(shorter);
        lemma_merge_entry(inner, list.last());
        let after = newest_each(list);
        assert forall|e: EntryModel| after.contains(e) implies list.contains(e) by {
            if inner.contains(e) {
                assert(shorter.contains(e));
                let k = choose|k: int| 0 <= k < shorter.len() && shorter[k] == e;
                assert(list[k] == e);
            } else {
                assert(list[list.len() - 1] == e);
            }
        }
        assert forall|e: EntryModel| list.contains(e) implies exists|k: int|
            #![trigger after[k]]
            0 <= k < after.len() && after[k].ip == e.ip && after[k].last_updated
                >= e.last_updated by {
            let i = choose|i: int| 0 <= i < list.len() && list[i] == e;
            if i < list.len() - 1 {
                assert(shorter[i] == e);
                assert(shorter.contains(e));
                let k = choose|k: int|
                    #![trigger inner[k]]
                    0 <= k < inner.len() && inner[k].ip == e.ip && inner[k].last_updated
                        >= e.last_updated;
                assert(inner.contains(inner[k]));
                let m = choose|m: int|
                    #![trigger after[m]]
                    0 <= m < after.len() && after[m].ip == inner[k].ip && after[m].last_updated
                        >= inner[k].last_updated;
                assert(after[m].ip == e.ip);
            }
        }
    }
}

/// The fresh ones among entries with one entry for each address are as many
/// as were counted, stand in their old order, and are fresh.
pub proof fn lemma_fresh_only(list: Seq<EntryModel>, now: nat)
    ensures
        fresh_only(list, now).len() == count_fresh(list, now),
        forall|i: int|
            0 <= i < fresh_only(list, now).len() ==> list.contains(
                #[trigger] fresh_only(list, now)[i],
            ) && is_fresh(fresh_only(list, now)[i].last_updated, now),
        one_each(list) ==> one_each(fresh_only(list, now)),
    decreases list.len(),
{
    if list.len() > 0 {
        let front = list.drop_last();
        lemma_fresh_only(front, now);
        let kept = fresh_only(front, now);
        let all = fresh_only(list, now);
        assert forall|i: int| 0 <= i < all.len() implies list.contains(#[trigger] all[i])
            && is_fresh(all[i].last_updated, now) by {
            if i < kept.len() {
                assert(front.contains(kept[i]));
                let k = choose|k: int| 0 <= k < front.len() && front[k] == kept[i];
                assert(list[k] == kept[i]);
            } else {
                assert(list[list.len() - 1] == all[i]);
            }
        }
        if one_each(list) {
            assert(one_each(front)) by {
                assert forall|i: int, j: int| 0 <= i < j < front.len() implies front[i].ip
                    < front[j].ip by {
                    assert(list[i].ip < list[j].ip);
                }
            }
            assert forall|i: int, j: int| 0 <= i < j < all.len() implies all[i].ip
                < all[j].ip by {
                if j < kept.len() {
                    assert(kept[i].ip < kept[j].ip);
                } else {
                    assert(front.contains(kept[i]));
                    let k = choose|k: int| 0 <= k < front.len() && front[k] == kept[i];
                    assert(list[k].ip < list[list.len() - 1].ip);
                }
            }
        }
    }
}

/// What an update leaves: nothing only where there was nothing; else one
/// entry for each address, and either every address that the cache or the
/// resolver knew, or, where entries were dropped, two or more entries that
/// are all fresh.
pub proof fn lemma_updated(cached: Seq<EntryModel>, addresses: Seq<nat>, now: nat)
    ensures
        updated(cached, addresses, now) is None <==> cached.len() + addresses.len() == 0,
        updated(cached, addresses, now) matches Some(kept) ==> kept.len() >= 1 && one_each(kept)
            && (kept == newest_each(cached + seen_at(addresses, now)) || (kept.len() >= 2
            && forall|i: int| 0 <= i < kept.len() ==> is_fresh(
                (#[trigger] kept[i]).last_updated,
                now,
            ))),
{
    let all = cached + seen_at(addresses, now);
    let merged = newest_each(all);
    lemma_newest_each(all);
    lemma_fresh_only(merged, now);
    if all.len() > 0 {
        lemma_merge_entry_nonempty(all);
    }
}

/// While fewer than two entries are fresh nothing is dropped, however old:
/// an update then keeps one entry for every address it has heard of.
pub proof fn lemma_update_floor(cached: Seq<EntryModel>, addresses: Seq<nat>, now: nat)
    requires
        count_fresh(newest_each(cached + seen_at(addresses, now)), now) < 2,
        cached.len() + addresses.len() > 0,
    ensures
        updated(cached, addresses, now) == Some(newest_each(cached + seen_at(addresses, now))),
{
    let all = cached + seen_at(addresses, now);
    assert(all.len() > 0);
    lemma_merge_entry_nonempty(all);
}

proof fn lemma_merge_entry_nonempty(list: Seq<EntryModel>)
    requires
        list.len() > 0,
    ensures
        newest_each(list).len() > 0,
    decreases list.len(),
{
    lemma_newest_each(list.drop_last());
    lemma_merge_entry(newest_each(list.drop_last()), list.last());
}

/// The place of `entry` in a list with one entry for each address.
proof fn lemma_merge_entry_at(sorted: Seq<EntryModel>, entry: EntryModel, at: int)
    requires
        0 <= at <= sorted.len(),
        forall|k: int| at <= k < sorted.len() ==> sorted[k].ip > entry.ip,
        at == 0 || sorted[at - 1].ip <= entry.ip,
    ensures
        merge_entry(sorted, entry) == if at > 0 && sorted[at - 1].ip == entry.ip {
            if sorted[at - 1].last_updated < entry.last_updated {
                sorted.update(at - 1, entry)
            } else {
                sorted
            }
        } else {
            sorted.insert(at, entry)
        },
    decreases sorted.len(),
{
    if sorted.len() == 0 {
        assert(sorted.insert(at, entry) =~= seq![entry]);
    } else if at == sorted.len() {
        assert(sorted.insert(at, entry) =~= sorted.push(entry));
        assert(sorted.update(at - 1, entry) =~= sorted.drop_last().push(entry));
    } else {
        assert(sorted[sorted.len() - 1].ip > entry.ip);
        lemma_merge_entry_at(sorted.drop_last(), entry, at);
        assert(sorted.drop_last().insert(at, entry).push(sorted.last()) =~= sorted.insert(
            at,
            entry,
        ));
        assert(sorted.drop_last().push(sorted.last()) =~= sorted);
        if at > 0 {
            assert(sorted.drop_last().update(at - 1, entry).push(sorted.last()) =~= sorted.update(
                at - 1,
                entry,
            ));
        }
    }
}

/// Takes `entry` into `sorted`, which has one entry for each address.
fn merge(sorted: &mut Vec<Entry>, entry: Entry)
    ensures
        entry_views(final(sorted)@) == merge_entry(entry_views(old(sorted)@), entry@),
{
    let ghost before = entry_views(sorted@);
    let mut at: usize = sorted.len();
    while at > 0 && entry.ip.before(&sorted[at - 1].ip)
        invariant
            at <= sorted.len(),
            before == entry_views(sorted@),
            *sorted == *old(sorted),
            forall|k: int| at <= k < sorted.len() ==> before[k].ip > entry@.ip,
        decreases at,
    {
        at -= 1;
    }
    proof {
        if at > 0 {
            assert(before[at - 1] == sorted[at - 1]@);
        }
        lemma_merge_entry_at(before, entry@, at as int);
    }
    if at > 0 && sorted[at - 1].ip.same(&entry.ip) {
        if sorted[at - 1].last_updated.since_epoch() < entry.last_updated.since_epoch() {
            sorted.set(at - 1, entry);
            assert(entry_views(sorted@) =~= before.update(at - 1, entry@));
        }
        return ;
    }
    proof {
        assert(entry_views(sorted@.insert(at as int, entry)) =~= before.insert(at as int, entry@));
    }
    sorted.insert(at, entry);
}

/// Orders `list` by address and keeps one entry for each address, the
/// newest.
pub fn dedup_keep_newest(list: &mut Vec<Entry>)
    ensures
        entry_views(final(list)@) == newest_each(entry_views(old(list)@)),
{
    let mut sorted: Vec<Entry> = Vec::new();
    let ghost all = entry_views(list@);
    let mut i: usize = 0;
    assert(all.take(0) == Seq::<EntryModel>::empty());
    assert(entry_views(sorted@) =~= Seq::<EntryModel>::empty());
    while i < list.len()
        invariant
            i <= list.len(),
            *list == *old(list),
            all == entry_views(list@),
            entry_views(sorted@) == newest_each(all.take(i as int)),
        decreases list.len() - i,
    {
        proof {
            assert(all.take(i + 1).drop_last() == all.take(i as int));
            assert(all.take(i + 1).last() == list[i as int]@);
        }
        merge(&mut sorted, list[i]);
        i += 1;
    }
    assert(all.take(i as int) == all);
    *list = sorted;
}

/// The cache as it was read: it may hold addresses twice and entries that
/// have expired.
#[derive(Debug)]
pub struct Cached(Vec<Entry>);

/// The addresses to block: one entry for each.
pub struct Routes(Vec<Entry>);

impl View for Cached {
    type V = Seq<EntryModel>;

    closed spec fn view(&self) -> Seq<EntryModel> {
        entry_views(self.0@)
    }
}

impl View for Routes {
    type V = Seq<EntryModel>;

    closed spec fn view(&self) -> Seq<EntryModel> {
        entry_views(self.0@)
    }
}

/// What an optional set of routes holds.
pub open spec fn routes_view(routes: Option<Routes>) -> Option<Seq<EntryModel>> {
    match routes {
        Some(routes) => Some(routes@),
        None => None,
    }
}

impl Cached {
    /// The cache with the entries that were found in the store; a store that
    /// is absent or empty gives the empty cache.
    pub fn load(stored: Option<Vec<Entry>>) -> (cache: Cached)
        ensures
            cache@ == match stored {
                Some(entries) => entry_views(entries@),
                None => Seq::<EntryModel>::empty(),
            },
    {
        match stored {
            Some(entries) => Cached(entries),
            None => {
                let cache = Cached(Vec::new());
                assert(cache@ =~= Seq::<EntryModel>::empty());
                cache
            },
        }
    }

    /// How many entries are fresh at `now`.
    pub fn n_recent(&self, now: &Timestamp) -> (n: usize)
        ensures
            n == count_fresh(self@, now@),
    {
        count_recent(&self.0, now)
    }

    /// The addresses of the cache, entry by entry.
    pub fn blocked_ips(self) -> (list: Vec<Address>)
        ensures
            ranks(list@) == ips(self@),
    {
        addresses_of(&self.0)
    }

    /// Takes in the addresses that were resolved just now; see `update_at`.
    /// The time is the machine's.
    pub fn update(self, new: Vec<Address>) -> (routes: Option<Routes>)
        ensures
            exists|now: nat| routes_view(routes) == updated(self@, ranks(new@), now),
    {
        let (secs, nanos) = clock();
        let now = Timestamp::new(secs, nanos);
        self.update_at(new, now)
    }

    /// Takes in the addresses `new`, resolved at `now`: they become entries
    /// of that time, every address keeps its newest entry, and if then two
    /// entries or more are fresh, the expired ones go. `None` comes back only
    /// where there were neither entries nor addresses.
    pub fn update_at(self, new: Vec<Address>, now: Timestamp) -> (routes: Option<Routes>)
        ensures
            routes_view(routes) == updated(self@, ranks(new@), now@),
    {
        let mut entries = self.0;
        let ghost cached = entry_views(entries@);
        let ghost fresh = seen_at(ranks(new@), now@);
        let mut i: usize = 0;
        assert(cached + fresh.take(0) =~= cached);
        while i < new.len()
            invariant
                i <= new.len(),
                fresh == seen_at(ranks(new@), now@),
                entry_views(entries@) == cached + fresh.take(i as int),
            decreases new.len() - i,
        {
            let entry = Entry { ip: new[i], last_updated: now };
            proof {
                assert(fresh.take(i + 1) == fresh.take(i as int).push(entry@));
                assert(entry_views(entries@.push(entry)) =~= entry_views(entries@).push(entry@));
                assert(cached + fresh.take(i as int).push(entry@) =~= (cached + fresh.take(
                    i as int,
                )).push(entry@));
            }
            entries.push(entry);
            i += 1;
        }
        assert(fresh.take(i as int) == fresh);
        dedup_keep_newest(&mut entries);
        if entries.len() == 0 {
            return None;
        }
        if count_recent(&entries, &now) < 2 {
            return Some(Routes(entries));
        }
        let ghost merged = entry_views(entries@);
        let mut kept: Vec<Entry> = Vec::new();
        let mut k: usize = 0;
        assert(merged.take(0) == Seq::<EntryModel>::empty());
        assert(entry_views(kept@) =~= Seq::<EntryModel>::empty());
        while k < entries.len()
            invariant
                k <= entries.len(),
                merged == entry_views(entries@),
                entry_views(kept@) == fresh_only(merged.take(k as int), now@),
            decreases entries.len() - k,
        {
            proof {
                assert(merged.take(k + 1).drop_last() == merged.take(k as int));
                assert(merged.take(k + 1).last() == entries[k as int]@);
            }
            if entries[k].last_updated.fresh_at(&now) {
                proof {
                    assert(entry_views(kept@.push(entries[k as int])) =~= entry_views(kept@).push(
                        entries[k as int]@,
                    ));
                }
                kept.push(entries[k]);
            }
            k += 1;
        }
        assert(merged.take(k as int) == merged);
        Some(Routes(kept))
    }
}

/// How many of `entries` are fresh at `now`.
fn count_recent(entries: &Vec<Entry>, now: &Timestamp) -> (n: usize)
    ensures
        n == count_fresh(entry_views(entries@), now@),
{
    let ghost all = entry_views(entries@);
    let mut n: usize = 0;
    let mut i: usize = 0;
    assert(all.take(0) == Seq::<EntryModel>::empty());
    while i < entries.len()
        invariant
            i <= entries.len(),
            n <= i,
            all == entry_views(entries@),
            n == count_fresh(all.take(i as int), now@),
        decreases entries.len() - i,
    {
        proof {
            assert(all.take(i + 1).drop_last() == all.take(i as int));
            assert(all.take(i + 1).last() == entries[i as int]@);
        }
        if entries[i].last_updated.fresh_at(now) {
            n += 1;
        }
        i += 1;
    }
    assert(all.take(i as int) == all);
    n
}

/// The addresses of `entries`, entry by entry.
fn addresses_of(entries: &Vec<Entry>) -> (list: Vec<Address>)
    ensures
        ranks(list@) == ips(entry_views(entries@)),
{
    let mut list: Vec<Address> = Vec::new();
    let mut i: usize = 0;
    while i < entries.len()
        invariant
            i <= entries.len(),
            list.len() == i,
            forall|k: int| 0 <= k < i ==> list[k]@ == entries[k]@.ip,
        decreases entries.len() - i,
    {
        list.push(entries[i].ip);
        i += 1;
    }
    assert(ranks(list@) =~= ips(entry_views(entries@)));
    list
}

impl Routes {
    /// What is to be written to the store in place of what it held.
    pub fn cache(&self) -> (entries: Vec<Entry>)
        ensures
            entry_views(entries@) == self@,
    {
        let mut entries: Vec<Entry> = Vec::new();
        let mut i: usize = 0;
        while i < self.0.len()
            invariant
                i <= self.0.len(),
                entries.len() == i,
                forall|k: int| 0 <= k < i ==> entries[k] == self.0[k],
            decreases self.0.len() - i,
        {
            entries.push(self.0[i]);
            i += 1;
        }
        assert(entry_views(entries@) =~= self@);
        entries
    }

    /// How many entries there are.
    pub fn len(&self) -> (n: usize)
        ensures
            n == self@.len(),
    {
        self.0.len()
    }

    /// The addresses to block, entry by entry.
    pub fn into_ips(self) -> (list: Vec<Address>)
        ensures
            ranks(list@) == ips(self@),
    {
        addresses_of(&self.0)
    }
}

} // verus!

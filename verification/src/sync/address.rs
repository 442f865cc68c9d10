//! Internet addresses and sets of them.
use crate::text::{chars_of, number_up_to, parse_number, split, split_spec, views};
use vstd::prelude::*;

verus! {

/// The place of an address in the order of all addresses: the addresses of
/// the old protocol by their 32 bits, then those of the new one by their 128.
pub open spec fn rank(v6: bool, bits: u128) -> nat {
    if v6 {
        (bits + 0x1_0000_0000) as nat
    } else {
        bits as nat
    }
}

/// An address of the old or the new internet protocol.
#[derive(Clone, Copy, Debug, PartialEq, Eq, Hash)]
pub struct Address {
    v6: bool,
    bits: u128,
}

impl View for Address {
    type V = nat;

    closed spec fn view(&self) -> nat {
        rank(self.v6, self.bits)
    }
}

impl Address {
    #[verifier::type_invariant]
    spec fn fits(self) -> bool {
        !self.v6 ==> self.bits <= 0xffff_ffff
    }

    /// The address `a.b.c.d` of the old protocol.
    pub fn v4(a: u8, b: u8, c: u8, d: u8) -> (address: Address)
        ensures
            address@ == rank(false, v4_bits(a, b, c, d)),
    {
        let bits: u128 = ((a as u128) * 0x100_0000 + (b as u128) * 0x1_0000 + (c as u128) * 0x100
            + (d as u128));
        Address { v6: false, bits }
    }

    /// The address of the new protocol whose 128 bits are `bits`.
    pub fn v6(bits: u128) -> (address: Address)
        ensures
            address@ == rank(true, bits),
    {
        Address { v6: true, bits }
    }

    /// Whether this is an address of the new protocol.
    pub fn is_v6(&self) -> (r: bool)
        ensures
            self@ == rank(r, self.bits_spec()),
    {
        self.v6
    }

    /// The bits of the address: 32 for the old protocol, 128 for the new.
    pub closed spec fn bits_spec(&self) -> u128 {
        self.bits
    }

    /// The bits of the address: 32 for the old protocol, 128 for the new.
    pub fn bits(&self) -> (r: u128)
        ensures
            r == self.bits_spec(),
    {
        self.bits
    }

    /// Whether both are the same address.
    pub fn same(&self, other: &Address) -> (r: bool)
        ensures
            r == (self@ == other@),
    {
        proof {
            use_type_invariant(self);
            use_type_invariant(other);
        }
        self.v6 == other.v6 && self.bits == other.bits
    }

    /// Whether this address comes before `other`.
    pub fn before(&self, other: &Address) -> (r: bool)
        ensures
            r == (self@ < other@),
    {
        proof {
            use_type_invariant(self);
            use_type_invariant(other);
        }
        if self.v6 == other.v6 {
            self.bits < other.bits
        } else {
            !self.v6
        }
    }
}

/// The 32 bits of `a.b.c.d`.
pub open spec fn v4_bits(a: u8, b: u8, c: u8, d: u8) -> u128 {
    (a * 0x100_0000 + b * 0x1_0000 + c * 0x100 + d) as u128
}

/// What the addresses of a list are.
pub open spec fn ranks(list: Seq<Address>) -> Seq<nat> {
    Seq::new(list.len(), |i: int| list[i]@)
}

/// Whether the addresses rise strictly, so that none stands twice.
pub open spec fn strictly_rising(list: Seq<nat>) -> bool {
    forall|i: int, j: int| 0 <= i < j < list.len() ==> list[i] < list[j]
}

/// The rising list `sorted` with `x` in its place, unless it is there.
pub open spec fn set_insert(sorted: Seq<nat>, x: nat) -> Seq<nat>
    decreases sorted.len(),
{
    if sorted.len() == 0 {
        seq![x]
    } else if sorted.last() < x {
        sorted.push(x)
    } else if sorted.last() == x {
        sorted
    } else {
        set_insert(sorted.drop_last(), x).push(sorted.last())
    }
}

/// The addresses of `list` in rising order, each once.
pub open spec fn ordered_set(list: Seq<nat>) -> Seq<nat>
    decreases list.len(),
{
    if list.len() == 0 {
        Seq::empty()
    } else {
        set_insert(ordered_set(list.drop_last()), list.last())
    }
}

/// Putting an address into a rising list keeps it rising and adds that
/// address and no other.
pub proof fn lemma_set_insert(sorted: Seq<nat>, x: nat)
    requires
        strictly_rising(sorted),
    ensures
        strictly_rising(set_insert(sorted, x)),
        forall|y: nat|
            #![trigger set_insert(sorted, x).contains(y)]
            #![trigger sorted.contains(y)]
            set_insert(sorted, x).contains(y) <==> sorted.contains(y) || y == x,
        set_insert(sorted, x).contains(x),
    decreases sorted.len(),
{
    let after = set_insert(sorted, x);
    if sorted.len() == 0 {
        assert(after[0] == x);
    } else if sorted.last() < x {
        assert(after[after.len() - 1] == x);
        assert forall|y: nat| after.contains(y) <==> sorted.contains(y) || y == x by {
            if sorted.contains(y) {
                let i = choose|i: int| 0 <= i < sorted.len() && sorted[i] == y;
                assert(after[i] == y);
            }
        }
        assert forall|i: int, j: int| 0 <= i < j < after.len() implies after[i] < after[j] by {
            if j == sorted.len() {
                if i < sorted.len() - 1 {
                    assert(sorted[i] < sorted[sorted.len() - 1]);
                }
            }
        }
    } else if sorted.last() == x {
        assert(sorted[sorted.len() - 1] == x);
    } else {
        let shorter = sorted.drop_last();
        assert(strictly_rising(shorter)) by {
            assert forall|i: int, j: int| 0 <= i < j < shorter.len() implies shorter[i]
                < shorter[j] by {
                assert(sorted[i] < sorted[j]);
            }
        }
        lemma_set_insert(shorter, x);
        let inner = set_insert(shorter, x);
        assert(after.contains(x)) by {
            let k = choose|k: int| 0 <= k < inner.len() && inner[k] == x;
            assert(after[k] == x);
        }
        assert forall|y: nat| after.contains(y) <==> sorted.contains(y) || y == x by {
            if after.contains(y) {
                let i = choose|i: int| 0 <= i < after.len() && after[i] == y;
                if i < inner.len() {
                    assert(inner[i] == y);
                    assert(inner.contains(y));
                    if shorter.contains(y) {
                        let k = choose|k: int| 0 <= k < shorter.len() && shorter[k] == y;
                        assert(sorted[k] == y);
                    }
                } else {
                    assert(sorted[sorted.len() - 1] == y);
                }
            }
            if sorted.contains(y) {
                let i = choose|i: int| 0 <= i < sorted.len() && sorted[i] == y;
                if i < sorted.len() - 1 {
                    assert(shorter[i] == y);
                    assert(shorter.contains(y));
                    assert(inner.contains(y));
                    let k = choose|k: int| 0 <= k < inner.len() && inner[k] == y;
                    assert(after[k] == y);
                } else {
                    assert(after[after.len() - 1] == y);
                }
            }
        }
        assert forall|i: int, j: int| 0 <= i < j < after.len() implies after[i] < after[j] by {
            if j < inner.len() {
                assert(inner[i] < inner[j]);
            } else {
                assert(inner.contains(inner[i]));
                if shorter.contains(inner[i]) {
                    let k = choose|k: int| 0 <= k < shorter.len() && shorter[k] == inner[i];
                    assert(sorted[k] < sorted[sorted.len() - 1]);
                }
            }
        }
    }
}

/// The ordered set of a list rises strictly and holds the addresses of the
/// list and no others.
pub proof fn lemma_ordered_set(list: Seq<nat>)
    ensures
        strictly_rising(ordered_set(list)),
        forall|y: nat|
            #![trigger ordered_set(list).contains(y)]
            #![trigger list.contains(y)]
            ordered_set(list).contains(y) <==> list.contains(y),
    decreases list.len(),
{
    if list.len() > 0 {
        let shorter = list.drop_last();
        lemma_ordered_set(shorter);
        lemma_set_insert(ordered_set(shorter), list.last());
        assert forall|y: nat| ordered_set(list).contains(y) <==> list.contains(y) by {
            if list.contains(y) {
                let i = choose|i: int| 0 <= i < list.len() && list[i] == y;
                if i < list.len() - 1 {
                    assert(shorter[i] == y);
                    assert(shorter.contains(y));
                }
            }
            if shorter.contains(y) {
                let k = choose|k: int| 0 <= k < shorter.len() && shorter[k] == y;
                assert(list[k] == y);
            }
            if y == list.last() {
                assert(list[list.len() - 1] == y);
            }
        }
    }
}

/// A rising list with `x` put in at `at`, where it belongs.
proof fn lemma_set_insert_at(sorted: Seq<nat>, x: nat, at: int)
    requires
        0 <= at <= sorted.len(),
        forall|k: int| at <= k < sorted.len() ==> sorted[k] > x,
        at == 0 || sorted[at - 1] <= x,
    ensures
        set_insert(sorted, x) == if at > 0 && sorted[at - 1] == x {
            sorted
        } else {
            sorted.insert(at, x)
        },
    decreases sorted.len(),
{
    if sorted.len() == 0 {
        assert(sorted.insert(at, x) =~= seq![x]);
    } else if at == sorted.len() {
        assert(sorted.insert(at, x) =~= sorted.push(x));
    } else {
        assert(sorted[sorted.len() - 1] > x);
        lemma_set_insert_at(sorted.drop_last(), x, at);
        assert(sorted.drop_last().insert(at, x).push(sorted.last()) =~= sorted.insert(at, x));
        assert(sorted.drop_last().push(sorted.last()) =~= sorted);
    }
}

/// Puts `address` into the rising list `sorted`, unless it is there.
pub fn insert_unique(sorted: &mut Vec<Address>, address: Address)
    ensures
        ranks(final(sorted)@) == set_insert(ranks(old(sorted)@), address@),
{
    let ghost before = ranks(sorted@);
    let mut at: usize = sorted.len();
    while at > 0 && address.before(&sorted[at - 1])
        invariant
            at <= sorted.len(),
            before == ranks(sorted@),
            *sorted == *old(sorted),
            forall|k: int| at <= k < sorted.len() ==> before[k] > address@,
        decreases at,
    {
        at -= 1;
    }
    proof {
        if at > 0 {
            assert(before[at - 1] == sorted[at - 1]@);
        }
        lemma_set_insert_at(before, address@, at as int);
    }
    if at > 0 && sorted[at - 1].same(&address) {
        return ;
    }
    proof {
        assert(ranks(sorted@.insert(at as int, address)) =~= before.insert(at as int, address@));
    }
    sorted.insert(at, address);
}

/// Whether `address` is in `list`.
pub fn contains(list: &Vec<Address>, address: &Address) -> (r: bool)
    ensures
        r == ranks(list@).contains(address@),
{
    let mut i: usize = 0;
    while i < list.len()
        invariant
            i <= list.len(),
            forall|k: int| 0 <= k < i ==> ranks(list@)[k] != address@,
        decreases list.len() - i,
    {
        if list[i].same(address) {
            assert(ranks(list@)[i as int] == address@);
            return true;
        }
        i += 1;
    }
    false
}

/// The addresses of `list` in rising order, each once.
pub fn unique(list: &Vec<Address>) -> (set: Vec<Address>)
    ensures
        ranks(set@) == ordered_set(ranks(list@)),
{
    let mut set: Vec<Address> = Vec::new();
    let ghost all = ranks(list@);
    let mut i: usize = 0;
    assert(all.take(0) == Seq::<nat>::empty());
    assert(ranks(set@) =~= Seq::<nat>::empty());
    while i < list.len()
        invariant
            i <= list.len(),
            all == ranks(list@),
            ranks(set@) == ordered_set(all.take(i as int)),
        decreases list.len() - i,
    {
        proof {
            assert(all.take(i + 1).drop_last() == all.take(i as int));
            assert(all.take(i + 1).last() == list[i as int]@);
        }
        insert_unique(&mut set, list[i]);
        i += 1;
    }
    assert(all.take(i as int) == all);
    set
}

/// The number that one of the four fields of an address writes: up to three
/// digits, at most 255, and no zero in front of another digit.
pub open spec fn octet(field: Seq<char>) -> Option<nat> {
    if field.len() > 3 || (field.len() > 1 && field[0] == '0') {
        None
    } else {
        number_up_to(field, 255)
    }
}

/// The 32 bits that `text` writes as four numbers with dots between them, if
/// it does.
pub open spec fn v4_value(text: Seq<char>) -> Option<u128> {
    let fields = split_spec(text, '.');
    if fields.len() == 4 && octet(fields[0]) is Some && octet(fields[1]) is Some && octet(
        fields[2],
    ) is Some && octet(fields[3]) is Some {
        Some(
            v4_bits(
                octet(fields[0])->0 as u8,
                octet(fields[1])->0 as u8,
                octet(fields[2])->0 as u8,
                octet(fields[3])->0 as u8,
            ),
        )
    } else {
        None
    }
}

/// Reads one of the four fields of an address.
fn parse_octet(field: &str) -> (r: Option<u8>)
    ensures
        match r {
            Some(n) => octet(field@) == Some(n as nat),
            None => octet(field@) is None,
        },
{
    let digits = chars_of(field);
    if digits.len() > 3 || (digits.len() > 1 && digits[0] == '0') {
        return None;
    }
    match parse_number(&digits, 255) {
        Some(n) => Some(n as u8),
        None => None,
    }
}

/// Reads an address of the old protocol: four numbers up to 255, written
/// without zeros in front, with dots between them.
pub fn parse_v4(text: &str) -> (r: Option<Address>)
    ensures
        match r {
            Some(address) => v4_value(text@) is Some && address@ == rank(
                false,
                v4_value(text@)->0,
            ),
            None => v4_value(text@) is None,
        },
{
    let fields = split(text, '.');
    if fields.len() != 4 {
        return None;
    }
    proof {
        assert(views(fields@)[0] == fields[0]@);
        assert(views(fields@)[1] == fields[1]@);
        assert(views(fields@)[2] == fields[2]@);
        assert(views(fields@)[3] == fields[3]@);
    }
    let a = match parse_octet(fields[0].as_str()) {
        Some(a) => a,
        None => {
            return None;
        },
    };
    let b = match parse_octet(fields[1].as_str()) {
        Some(b) => b,
        None => {
            return None;
        },
    };
    let c = match parse_octet(fields[2].as_str()) {
        Some(c) => c,
        None => {
            return None;
        },
    };
    let d = match parse_octet(fields[3].as_str()) {
        Some(d) => d,
        None => {
            return None;
        },
    };
    Some(Address::v4(a, b, c, d))
}

} // verus!

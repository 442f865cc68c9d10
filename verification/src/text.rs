//! Strings as sequences of characters: cutting them into fields and lines,
//! ordering them and writing numbers into them.
use vstd::prelude::*;
use vstd::relations::{sorted_by, total_ordering};
use vstd::seq_lib::lemma_sorted_unique;

verus! {

/// `String::push` appends one character.
pub assume_specification[ String::push ](s: &mut String, c: char)
    ensures
        final(s)@ == old(s)@.push(c),
;

/// The character sequences of a list of strings.
pub open spec fn views(list: Seq<String>) -> Seq<Seq<char>> {
    Seq::new(list.len(), |i: int| list[i]@)
}

/// `views` of a list with one more string.
pub proof fn lemma_views_push(list: Seq<String>, s: String)
    ensures
        views(list.push(s)) == views(list).push(s@),
{
    assert(views(list.push(s)) =~= views(list).push(s@));
}

/// The fields of `s` between occurrences of `sep`: one more than there are
/// separators, so the empty string has one empty field.
pub open spec fn split_spec(s: Seq<char>, sep: char) -> Seq<Seq<char>>
    decreases s.len(),
{
    if s.len() == 0 {
        seq![Seq::<char>::empty()]
    } else {
        let before = split_spec(s.drop_last(), sep);
        if s.last() == sep {
            before.push(Seq::empty())
        } else {
            before.drop_last().push(before.last().push(s.last()))
        }
    }
}

/// A string has at least one field, and no field holds the separator.
pub proof fn lemma_split_fields(s: Seq<char>, sep: char)
    ensures
        split_spec(s, sep).len() >= 1,
        forall|i: int| 0 <= i < split_spec(s, sep).len() ==> !(#[trigger] split_spec(s, sep)[i]).contains(sep),
    decreases s.len(),
{
    if s.len() > 0 {
        lemma_split_fields(s.drop_last(), sep);
        let before = split_spec(s.drop_last(), sep);
        if s.last() == sep {
        } else {
            let now = split_spec(s, sep);
            assert forall|i: int| 0 <= i < now.len() implies !(#[trigger] now[i]).contains(sep) by {
                if i == now.len() - 1 {
                    assert(!before.last().contains(sep));
                    assert(now[i] == before.last().push(s.last()));
                } else {
                    assert(now[i] == before[i]);
                }
            }
        }
    }
}

/// The characters of `s`, in order.
pub fn chars_of(s: &str) -> (chars: Vec<char>)
    ensures
        chars@ == s@,
{
    let mut chars: Vec<char> = Vec::new();
    for c in iter: s.chars()
        invariant
            chars@ == s@.take(iter.index() as int),
            iter.seq() == s@,
    {
        chars.push(c);
    }
    chars
}

/// The string made of `chars`, in order.
pub fn string_of(chars: &Vec<char>) -> (s: String)
    ensures
        s@ == chars@,
{
    let mut s = String::new();
    let mut i: usize = 0;
    while i < chars.len()
        invariant
            i <= chars.len(),
            s@ == chars@.take(i as int),
        decreases chars.len() - i,
    {
        s.push(chars[i]);
        i += 1;
    }
    s
}

/// Cuts `s` at every `sep`.
pub fn split(s: &str, sep: char) -> (fields: Vec<String>)
    ensures
        views(fields@) == split_spec(s@, sep),
{
    let mut fields: Vec<String> = Vec::new();
    let mut current = String::new();
    for c in iter: s.chars()
        invariant
            iter.seq() == s@,
            split_spec(s@.take(iter.index() as int), sep) == views(fields@).push(current@),
    {
        proof {
            let i = iter.index() as int;
            assert(s@.take(i + 1).drop_last() == s@.take(i));
            assert(s@.take(i + 1).last() == c);
            lemma_views_push(fields@, current);
        }
        let ghost before = current@;
        if c == sep {
            fields.push(current);
            current = String::new();
        } else {
            current.push(c);
            assert(views(fields@).push(before).drop_last() == views(fields@));
        }
    }
    proof {
        assert(s@.take(s@.len() as int) == s@);
        lemma_views_push(fields@, current);
    }
    fields.push(current);
    fields
}

/// Whether `a` comes before `b` in a dictionary, or is `b`: at the first
/// place where they differ `a` has the smaller character, or `a` ends first.
pub open spec fn lex_le(a: Seq<char>, b: Seq<char>) -> bool
    decreases a.len(),
{
    if a.len() == 0 {
        true
    } else if b.len() == 0 {
        false
    } else if a[0] != b[0] {
        (a[0] as u32) < (b[0] as u32)
    } else {
        lex_le(a.drop_first(), b.drop_first())
    }
}

/// Dictionary order as a relation.
pub open spec fn dictionary() -> spec_fn(Seq<char>, Seq<char>) -> bool {
    |a: Seq<char>, b: Seq<char>| lex_le(a, b)
}

proof fn lemma_lex_reflexive(a: Seq<char>)
    ensures
        lex_le(a, a),
    decreases a.len(),
{
    if a.len() > 0 {
        lemma_lex_reflexive(a.drop_first());
    }
}

proof fn lemma_lex_antisymmetric(a: Seq<char>, b: Seq<char>)
    requires
        lex_le(a, b),
        lex_le(b, a),
    ensures
        a == b,
    decreases a.len(),
{
    if a.len() == 0 || b.len() == 0 {
        assert(a =~= b);
    } else {
        lemma_lex_antisymmetric(a.drop_first(), b.drop_first());
        assert(a =~= seq![a[0]] + a.drop_first());
        assert(b =~= seq![b[0]] + b.drop_first());
    }
}

proof fn lemma_lex_transitive(a: Seq<char>, b: Seq<char>, c: Seq<char>)
    requires
        lex_le(a, b),
        lex_le(b, c),
    ensures
        lex_le(a, c),
    decreases a.len(),
{
    if a.len() > 0 && b.len() > 0 && c.len() > 0 {
        if a[0] == b[0] && b[0] == c[0] {
            lemma_lex_transitive(a.drop_first(), b.drop_first(), c.drop_first());
        }
    }
}

proof fn lemma_lex_connected(a: Seq<char>, b: Seq<char>)
    ensures
        lex_le(a, b) || lex_le(b, a),
    decreases a.len(),
{
    if a.len() > 0 && b.len() > 0 {
        if a[0] == b[0] {
            lemma_lex_connected(a.drop_first(), b.drop_first());
        } else {
            vstd::utf8::char_u32_cast(a[0], a[0] as u32);
            vstd::utf8::char_u32_cast(b[0], b[0] as u32);
        }
    }
}

/// Dictionary order is a total order.
pub proof fn lemma_dictionary_total()
    ensures
        total_ordering(dictionary()),
{
    let r = dictionary();
    assert forall|x: Seq<char>| #[trigger] r(x, x) by {
        lemma_lex_reflexive(x);
    }
    assert forall|x: Seq<char>, y: Seq<char>| #[trigger] r(x, y) && #[trigger] r(y, x) implies x
        == y by {
        lemma_lex_antisymmetric(x, y);
    }
    assert forall|x: Seq<char>, y: Seq<char>, z: Seq<char>| #[trigger]
        r(x, y) && #[trigger] r(y, z) implies r(x, z) by {
        lemma_lex_transitive(x, y, z);
    }
    assert forall|x: Seq<char>, y: Seq<char>| #[trigger] r(x, y) || #[trigger] r(y, x) by {
        lemma_lex_connected(x, y);
    }
}

/// Whether `a` has the smaller code point.
fn char_lt(a: char, b: char) -> (r: bool)
    ensures
        r == ((a as u32) < (b as u32)),
{
    a < b
}

/// Whether `a` comes before `b` in a dictionary, or is `b`.
pub fn le(a: &str, b: &str) -> (r: bool)
    ensures
        r == lex_le(a@, b@),
{
    let left = chars_of(a);
    let right = chars_of(b);
    let mut i: usize = 0;
    assert(left@.skip(0) == left@ && right@.skip(0) == right@);
    while i < left.len() && i < right.len()
        invariant
            i <= left.len(),
            i <= right.len(),
            left@ == a@,
            right@ == b@,
            lex_le(left@, right@) == lex_le(left@.skip(i as int), right@.skip(i as int)),
        decreases left.len() - i,
    {
        proof {
            assert(left@.skip(i as int).drop_first() == left@.skip(i + 1));
            assert(right@.skip(i as int).drop_first() == right@.skip(i + 1));
        }
        if left[i] != right[i] {
            let x = left[i];
            let y = right[i];
            assert(left@.skip(i as int)[0] == x);
            assert(right@.skip(i as int)[0] == y);
            return char_lt(x, y);
        }
        i += 1;
    }
    i == left.len()
}

/// `names` in dictionary order.
pub fn sort(names: &Vec<String>) -> (sorted: Vec<String>)
    ensures
        views(sorted@) == views(names@).sort_by(dictionary()),
{
    let mut sorted: Vec<String> = Vec::new();
    let mut i: usize = 0;
    assert(views(sorted@) =~= views(names@).take(0));
    while i < names.len()
        invariant
            i <= names.len(),
            sorted_by(views(sorted@), dictionary()),
            views(sorted@).to_multiset() == views(names@).take(i as int).to_multiset(),
        decreases names.len() - i,
    {
        let name = names[i].clone();
        let mut at: usize = 0;
        while at < sorted.len() && le(sorted[at].as_str(), name.as_str())
            invariant
                at <= sorted.len(),
                forall|k: int| 0 <= k < at ==> lex_le(#[trigger] views(sorted@)[k], name@),
            decreases sorted.len() - at,
        {
            at += 1;
        }
        proof {
            let before = views(sorted@);
            let after = before.insert(at as int, name@);
            lemma_dictionary_total();
            assert forall|x: int, y: int| 0 <= x < y < after.len() implies #[trigger] dictionary()(
                after[x],
                after[y],
            ) by {
                if y < at {
                    assert(dictionary()(before[x], before[y]));
                } else if y == at {
                    assert(lex_le(before[x], name@));
                } else if x < at {
                    assert(dictionary()(before[x], before[y - 1]));
                } else if x == at {
                    assert(!lex_le(before[at as int], name@));
                    lemma_lex_connected(before[at as int], name@);
                    if y - 1 > at {
                        assert(dictionary()(before[at as int], before[y - 1]));
                        lemma_lex_transitive(name@, before[at as int], before[y - 1]);
                    }
                } else {
                    assert(dictionary()(before[x - 1], before[y - 1]));
                }
            }
            vstd::seq_lib::to_multiset_insert(before, at as int, name@);
            assert(views(names@).take(i + 1) == views(names@).take(i as int).push(name@));
            vstd::seq_lib::to_multiset_build(views(names@).take(i as int), name@);
            assert(views(sorted@.insert(at as int, name)) == after);
        }
        sorted.insert(at, name);
        i += 1;
    }
    proof {
        assert(views(names@).take(names@.len() as int) == views(names@));
        lemma_dictionary_total();
        views(names@).lemma_sort_by_ensures(dictionary());
        lemma_sorted_unique(views(sorted@), views(names@).sort_by(dictionary()), dictionary());
    }
    sorted
}

/// A line without the carriage return at its end, if it has one.
pub open spec fn without_cr(line: Seq<char>) -> Seq<char> {
    if line.len() > 0 && line.last() == '\r' {
        line.drop_last()
    } else {
        line
    }
}

/// The lines of `s`: what stands before each line feed, without a carriage
/// return just before it, and what stands behind the last line feed if that
/// is anything at all.
pub open spec fn lines_spec(s: Seq<char>) -> Seq<Seq<char>> {
    let fields = split_spec(s, '\n');
    let ended = Seq::new((fields.len() - 1) as nat, |i: int| without_cr(fields[i]));
    if fields.last().len() == 0 {
        ended
    } else {
        ended.push(fields.last())
    }
}

/// The lines of `s`.
pub fn lines(s: &str) -> (list: Vec<String>)
    ensures
        views(list@) == lines_spec(s@),
{
    let fields = split(s, '\n');
    proof {
        lemma_split_fields(s@, '\n');
    }
    let ghost all = views(fields@);
    let mut list: Vec<String> = Vec::new();
    let mut i: usize = 0;
    while i + 1 < fields.len()
        invariant
            fields.len() >= 1,
            i + 1 <= fields.len(),
            all == views(fields@),
            list.len() == i,
            forall|k: int| 0 <= k < i ==> list[k]@ == without_cr(all[k]),
        decreases fields.len() - i,
    {
        let mut line = chars_of(fields[i].as_str());
        if line.len() > 0 && line[line.len() - 1] == '\r' {
            line.pop();
        }
        let line = string_of(&line);
        assert(line@ == without_cr(all[i as int]));
        list.push(line);
        i += 1;
    }
    let last = &fields[fields.len() - 1];
    if !last.as_str().is_empty() {
        list.push(last.clone());
    }
    assert(views(list@) =~= lines_spec(s@));
    list
}

/// What stands before the first `sep` in `s`, if `sep` stands in `s`.
pub open spec fn before_first_spec(s: Seq<char>, sep: char) -> Option<Seq<char>> {
    if split_spec(s, sep).len() >= 2 {
        Some(split_spec(s, sep)[0])
    } else {
        None
    }
}

/// What stands before the first `sep` in `s`, if `sep` stands in `s`.
pub fn before_first(s: &str, sep: char) -> (head: Option<String>)
    ensures
        match head {
            Some(head) => before_first_spec(s@, sep) == Some(head@),
            None => before_first_spec(s@, sep) is None,
        },
{
    let fields = split(s, sep);
    if fields.len() >= 2 {
        assert(views(fields@)[0] == fields[0]@);
        Some(fields[0].clone())
    } else {
        None
    }
}

/// Whether `c` is one of the ten digits.
pub open spec fn is_digit(c: char) -> bool {
    '0' <= c && c <= '9'
}

/// The number that a digit stands for.
pub open spec fn digit_value(c: char) -> nat {
    (c as u32 - '0' as u32) as nat
}

/// Whether `s` is made of digits only.
pub open spec fn all_digits(s: Seq<char>) -> bool {
    forall|i: int| 0 <= i < s.len() ==> is_digit(#[trigger] s[i])
}

/// The number that the digits of `s` write.
pub open spec fn number_value(s: Seq<char>) -> nat
    decreases s.len(),
{
    if s.len() == 0 {
        0
    } else {
        number_value(s.drop_last()) * 10 + digit_value(s.last())
    }
}

/// The number that the digit `c` stands for, if it is one.
pub fn digit(c: char) -> (r: Option<u8>)
    ensures
        r is Some <==> is_digit(c),
        r matches Some(d) ==> d == digit_value(c) && d <= 9,
{
    if '0' <= c && c <= '9' {
        let d = (c as u32 - '0' as u32) as u8;
        Some(d)
    } else {
        None
    }
}

/// The number that `digits` write, if they are digits and the number is at
/// most `max`.
pub open spec fn number_up_to(digits: Seq<char>, max: nat) -> Option<nat> {
    if digits.len() >= 1 && all_digits(digits) && number_value(digits) <= max {
        Some(number_value(digits))
    } else {
        None
    }
}

/// The value of a number never falls when digits are put behind it.
pub proof fn lemma_number_grows(s: Seq<char>, k: int)
    requires
        0 <= k <= s.len(),
    ensures
        number_value(s.take(k)) <= number_value(s),
    decreases s.len() - k,
{
    if k < s.len() {
        assert(s.take(k + 1).drop_last() == s.take(k));
        lemma_number_grows(s, k + 1);
    } else {
        assert(s.take(k) == s);
    }
}

/// Reads the number that `digits` write, if they are one digit or more and
/// nothing else, and the number is at most `max`.
pub fn parse_number(digits: &Vec<char>, max: u64) -> (r: Option<u64>)
    requires
        max <= 0xffff_ffff_ffff,
    ensures
        match r {
            Some(n) => number_up_to(digits@, max as nat) == Some(n as nat),
            None => number_up_to(digits@, max as nat) is None,
        },
{
    if digits.len() == 0 {
        return None;
    }
    let mut value: u64 = 0;
    let mut i: usize = 0;
    assert(digits@.take(0) == Seq::<char>::empty());
    while i < digits.len()
        invariant
            i <= digits.len(),
            max <= 0xffff_ffff_ffff,
            all_digits(digits@.take(i as int)),
            value == number_value(digits@.take(i as int)),
            value <= max,
        decreases digits.len() - i,
    {
        proof {
            assert(digits@.take(i + 1).drop_last() == digits@.take(i as int));
            assert(digits@.take(i + 1).last() == digits[i as int]);
        }
        match digit(digits[i]) {
            Some(d) => {
                let next = value * 10 + (d as u64);
                if next > max {
                    proof {
                        lemma_number_grows(digits@, i + 1);
                    }
                    return None;
                }
                value = next;
                proof {
                    assert forall|k: int| 0 <= k < i + 1 implies is_digit(
                        #[trigger] digits@.take(i + 1)[k],
                    ) by {
                        if k < i {
                            assert(digits@.take(i as int)[k] == digits@.take(i + 1)[k]);
                        }
                    }
                }
            },
            None => {
                assert(!is_digit(digits@[i as int]));
                return None;
            },
        }
        i += 1;
    }
    assert(digits@.take(i as int) == digits@);
    Some(value)
}

/// The digit for a number below ten.
pub open spec fn digit_char(d: nat) -> char {
    (d + '0' as u32) as char
}

/// The number `n` written in digits, without zeros in front.
pub open spec fn decimal(n: nat) -> Seq<char>
    decreases n,
{
    if n < 10 {
        seq![digit_char(n)]
    } else {
        decimal(n / 10).push(digit_char(n % 10))
    }
}

/// Writes `n` in digits, without zeros in front.
pub fn to_decimal(n: u64) -> (s: String)
    ensures
        s@ == decimal(n as nat),
{
    let mut digits: Vec<char> = Vec::new();
    let mut rest = n;
    // The digits come out last first.
    loop
        invariant_except_break
            decimal(n as nat) == decimal(rest as nat) + digits@.reverse(),
        ensures
            rest < 10,
            decimal(n as nat) == decimal(rest as nat) + digits@.reverse(),
        decreases rest,
    {
        if rest < 10 {
            break ;
        }
        let d = digit_of((rest % 10) as u8);
        proof {
            assert(digits@.push(d).reverse() =~= seq![d] + digits@.reverse());
            assert(decimal(rest as nat) == decimal((rest / 10) as nat).push(d));
            assert(decimal((rest / 10) as nat).push(d) + digits@.reverse() =~= decimal(
                (rest / 10) as nat,
            ) + (seq![d] + digits@.reverse()));
        }
        digits.push(d);
        rest = rest / 10;
    }
    let mut s = String::new();
    s.push(digit_of(rest as u8));
    let mut i: usize = digits.len();
    while i > 0
        invariant
            i <= digits.len(),
            rest < 10,
            s@ == decimal(rest as nat) + digits@.reverse().take(digits.len() - i),
        decreases i,
    {
        i -= 1;
        proof {
            let turned = digits@.reverse();
            let k = digits.len() - i - 1;
            assert(turned.take(k + 1) =~= turned.take(k).push(digits[i as int]));
            assert(decimal(rest as nat) + turned.take(k).push(digits[i as int]) =~= (decimal(
                rest as nat,
            ) + turned.take(k)).push(digits[i as int]));
        }
        s.push(digits[i]);
    }
    assert(digits@.reverse().take(digits.len() as int) == digits@.reverse());
    s
}

/// The digit for a number below ten.
fn digit_of(d: u8) -> (c: char)
    requires
        d < 10,
    ensures
        c == digit_char(d as nat),
{
    if d == 0 {
        '0'
    } else if d == 1 {
        '1'
    } else if d == 2 {
        '2'
    } else if d == 3 {
        '3'
    } else if d == 4 {
        '4'
    } else if d == 5 {
        '5'
    } else if d == 6 {
        '6'
    } else if d == 7 {
        '7'
    } else if d == 8 {
        '8'
    } else {
        '9'
    }
}

/// Where `sep` first stands in `s`, if it stands there.
pub open spec fn position(s: Seq<char>, sep: char) -> Option<int>
    decreases s.len(),
{
    if s.len() == 0 {
        None
    } else if s[0] == sep {
        Some(0)
    } else {
        match position(s.drop_first(), sep) {
            Some(i) => Some(i + 1),
            None => None,
        }
    }
}

/// What stands before and what stands behind the first `sep` in `s`.
pub ghost struct Halves {
    pub head: Seq<char>,
    pub tail: Seq<char>,
}

/// `s` cut in two at its first `sep`, if it has one.
pub open spec fn split_once_spec(s: Seq<char>, sep: char) -> Option<Halves> {
    match position(s, sep) {
        Some(i) => Some(Halves { head: s.take(i), tail: s.skip(i + 1) }),
        None => None,
    }
}

/// Cuts `s` in two at its first `sep`, if it has one.
pub fn split_once(s: &str, sep: char) -> (halves: Option<(String, String)>)
    ensures
        match halves {
            Some(pair) => split_once_spec(s@, sep) == Some(
                Halves { head: pair.0@, tail: pair.1@ },
            ),
            None => split_once_spec(s@, sep) is None,
        },
{
    let chars = chars_of(s);
    let mut i: usize = 0;
    assert(chars@.skip(0) == chars@);
    while i < chars.len()
        invariant
            i <= chars.len(),
            chars@ == s@,
            position(chars@, sep) == match position(chars@.skip(i as int), sep) {
                Some(k) => Some(k + i),
                None => None,
            },
        decreases chars.len() - i,
    {
        proof {
            assert(chars@.skip(i as int).drop_first() == chars@.skip(i + 1));
            assert(chars@.skip(i as int)[0] == chars[i as int]);
        }
        if chars[i] == sep {
            let mut head = String::new();
            let mut k: usize = 0;
            while k < i
                invariant
                    k <= i,
                    i < chars.len(),
                    head@ == chars@.take(k as int),
                decreases i - k,
            {
                head.push(chars[k]);
                assert(chars@.take(k + 1) == chars@.take(k as int).push(chars[k as int]));
                k += 1;
            }
            let mut tail = String::new();
            let mut k: usize = i + 1;
            assert(chars@.skip(i + 1).take(0) == Seq::<char>::empty());
            while k < chars.len()
                invariant
                    i + 1 <= k <= chars.len(),
                    tail@ == chars@.skip(i + 1).take(k - i - 1),
                decreases chars.len() - k,
            {
                tail.push(chars[k]);
                assert(chars@.skip(i + 1).take(k + 1 - i - 1) == chars@.skip(i + 1).take(
                    k - i - 1,
                ).push(chars[k as int]));
                k += 1;
            }
            assert(chars@.skip(i + 1).take(chars@.len() - i - 1) == chars@.skip(i + 1));
            return Some((head, tail));
        }
        i += 1;
    }
    None
}

/// The number below 256 that `s` writes, with or without a plus sign in
/// front of its digits.
pub open spec fn small_number(s: Seq<char>) -> Option<nat> {
    if s.len() > 0 && s[0] == '+' {
        number_up_to(s.drop_first(), 255)
    } else {
        number_up_to(s, 255)
    }
}

/// Reads a number below 256: digits, with or without a plus sign in front.
pub fn parse_u8(s: &str) -> (r: Option<u8>)
    ensures
        match r {
            Some(n) => small_number(s@) == Some(n as nat),
            None => small_number(s@) is None,
        },
{
    let chars = chars_of(s);
    let digits = if chars.len() > 0 && chars[0] == '+' {
        let mut rest: Vec<char> = Vec::new();
        let mut i: usize = 1;
        assert(chars@.drop_first().take(0) == Seq::<char>::empty());
        while i < chars.len()
            invariant
                1 <= i <= chars.len(),
                rest@ == chars@.drop_first().take(i - 1),
            decreases chars.len() - i,
        {
            rest.push(chars[i]);
            assert(chars@.drop_first().take(i + 1 - 1) == chars@.drop_first().take(i - 1).push(
                chars[i as int],
            ));
            i += 1;
        }
        assert(chars@.drop_first().take(chars@.len() - 1) == chars@.drop_first());
        rest
    } else {
        chars
    };
    match parse_number(&digits, 255) {
        Some(n) => Some(n as u8),
        None => None,
    }
}

/// `s` with `to` in place of every `from`, found from the left and never
/// twice in the same letters. An empty `from` is found nowhere.
pub open spec fn replaced(s: Seq<char>, from: Seq<char>, to: Seq<char>) -> Seq<char>
    decreases s.len(),
{
    if s.len() == 0 {
        Seq::empty()
    } else if from.len() > 0 && from.is_prefix_of(s) {
        to + replaced(s.skip(from.len() as int), from, to)
    } else {
        seq![s[0]] + replaced(s.drop_first(), from, to)
    }
}

/// Whether `from` stands in `s` at `at`.
fn stands_at(s: &Vec<char>, at: usize, from: &Vec<char>) -> (r: bool)
    requires
        at <= s.len(),
    ensures
        r == from@.is_prefix_of(s@.skip(at as int)),
{
    if from.len() > s.len() - at {
        return false;
    }
    let mut k: usize = 0;
    while k < from.len()
        invariant
            k <= from.len(),
            at + from.len() <= s.len(),
            forall|j: int| 0 <= j < k ==> from[j] == s[at + j],
        decreases from.len() - k,
    {
        if from[k] != s[at + k] {
            assert(s@.skip(at as int).subrange(0, from@.len() as int)[k as int] == s[at + k]);
            return false;
        }
        k += 1;
    }
    assert(from@ =~= s@.skip(at as int).subrange(0, from@.len() as int));
    true
}

/// Puts `to` in place of every `from` in `s`.
pub fn replace(s: &str, from: &str, to: &str) -> (out: String)
    ensures
        out@ == replaced(s@, from@, to@),
{
    let chars = chars_of(s);
    let pattern = chars_of(from);
    let mut out = String::new();
    let mut i: usize = 0;
    assert(chars@.skip(0) == chars@);
    while i < chars.len()
        invariant
            i <= chars.len(),
            chars@ == s@,
            pattern@ == from@,
            out@ + replaced(chars@.skip(i as int), from@, to@) == replaced(s@, from@, to@),
        decreases chars.len() - i,
    {
        let ghost rest = chars@.skip(i as int);
        if pattern.len() > 0 && stands_at(&chars, i, &pattern) {
            proof {
                assert(rest.skip(pattern@.len() as int) == chars@.skip(i + pattern@.len()));
                assert(out@ + (to@ + replaced(rest.skip(pattern@.len() as int), from@, to@)) =~= (
                out@ + to@) + replaced(rest.skip(pattern@.len() as int), from@, to@));
            }
            out.append(to);
            i += pattern.len();
        } else {
            proof {
                assert(rest.drop_first() == chars@.skip(i + 1));
                assert(rest[0] == chars[i as int]);
                assert(out@ + (seq![chars[i as int]] + replaced(rest.drop_first(), from@, to@))
                    =~= out@.push(chars[i as int]) + replaced(rest.drop_first(), from@, to@));
            }
            out.push(chars[i]);
            i += 1;
        }
    }
    assert(chars@.skip(i as int) =~= Seq::<char>::empty());
    assert(out@ + Seq::<char>::empty() =~= out@);
    out
}

/// Whether `c` stands in `s`.
pub fn has_char(s: &str, c: char) -> (r: bool)
    ensures
        r == s@.contains(c),
{
    let chars = chars_of(s);
    let mut i: usize = 0;
    while i < chars.len()
        invariant
            i <= chars.len(),
            chars@ == s@,
            forall|k: int| 0 <= k < i ==> chars[k] != c,
        decreases chars.len() - i,
    {
        if chars[i] == c {
            assert(s@[i as int] == c);
            return true;
        }
        i += 1;
    }
    false
}

} // verus!

//! Helpers shared by the commands: which folders to lock, and whether they
//! are there.
pub mod time;

use crate::directory::Tree;
use crate::text::{chars_of, views};
use vstd::prelude::*;
use vstd::utf8::encode_utf8;

verus! {

/// A result whose error may be waved through.
pub trait AcceptErr: Sized {
    /// What can go wrong.
    type Error;

    /// The error that a result holds, if it holds one.
    spec fn error_of(&self) -> Option<Self::Error>;

    /// The same result, unless it is an error that `predicate` approves of:
    /// such an error becomes a success. The result is unchanged unless the
    /// predicate can say yes to the error, and a success unless it can say no.
    fn accept_fn<P: FnOnce(&Self::Error) -> bool>(self, predicate: P) -> (r: Self)
        requires
            forall|e: Self::Error| self.error_of() == Some(e) ==> call_requires(predicate, (&e,)),
        ensures
            self.error_of() is None ==> r.error_of() is None,
            self.error_of() matches Some(e) ==> (call_ensures(predicate, (&e,), true) || r == self),
            self.error_of() matches Some(e) ==> (call_ensures(predicate, (&e,), false)
                || r.error_of() is None),
    ;
}

impl<E> AcceptErr for Result<(), E> {
    type Error = E;

    open spec fn error_of(&self) -> Option<E> {
        match *self {
            Ok(_) => None,
            Err(e) => Some(e),
        }
    }

    fn accept_fn<P: FnOnce(&E) -> bool>(self, predicate: P) -> (r: Self) {
        match self {
            Ok(done) => Ok(done),
            Err(e) => {
                let approved = predicate(&e);
                if approved {
                    Ok(())
                } else {
                    Err(e)
                }
            },
        }
    }
}

/// The length of a string in bytes.
pub open spec fn byte_len(s: Seq<char>) -> nat {
    encode_utf8(s).len()
}

/// `sorted` with `path` put behind the last path that is not longer.
pub open spec fn insert_by_len(sorted: Seq<Seq<char>>, path: Seq<char>) -> Seq<Seq<char>>
    decreases sorted.len(),
{
    if sorted.len() == 0 {
        seq![path]
    } else if byte_len(sorted.last()) <= byte_len(path) {
        sorted.push(path)
    } else {
        insert_by_len(sorted.drop_last(), path).push(sorted.last())
    }
}

/// The paths ordered by length, shortest first, paths of one length in the
/// order in which they stand in `list`.
pub open spec fn sorted_by_len(list: Seq<Seq<char>>) -> Seq<Seq<char>>
    decreases list.len(),
{
    if list.len() == 0 {
        Seq::empty()
    } else {
        insert_by_len(sorted_by_len(list.drop_last()), list.last())
    }
}

/// Whether one of `kept` is the beginning of `path`.
pub open spec fn covered(kept: Seq<Seq<char>>, path: Seq<char>) -> bool {
    exists|i: int| 0 <= i < kept.len() && (#[trigger] kept[i]).is_prefix_of(path)
}

/// The paths of `list` that have none of the paths kept before them as their
/// beginning.
pub open spec fn keep_uncovered(list: Seq<Seq<char>>) -> Seq<Seq<char>>
    decreases list.len(),
{
    if list.len() == 0 {
        Seq::empty()
    } else {
        let kept = keep_uncovered(list.drop_last());
        if covered(kept, list.last()) {
            kept
        } else {
            kept.push(list.last())
        }
    }
}

/// The requested paths without those that lie under another requested path:
/// the paths by length, each kept unless a path kept before is its beginning.
/// The beginning is taken letter by letter, so `Books` also covers
/// `BooksArchive`.
pub open spec fn without_overlapping_spec(list: Seq<Seq<char>>) -> Seq<Seq<char>> {
    keep_uncovered(sorted_by_len(list))
}

/// Whether the lengths never fall from one path to the next.
pub open spec fn rising(list: Seq<Seq<char>>) -> bool {
    forall|i: int, j: int| 0 <= i <= j < list.len() ==> byte_len(list[i]) <= byte_len(list[j])
}

/// Whether no path has an earlier one as its beginning.
pub open spec fn clean(list: Seq<Seq<char>>) -> bool {
    forall|i: int, j: int| 0 <= i < j < list.len() ==> !(#[trigger] list[i]).is_prefix_of(
        #[trigger] list[j],
    )
}

proof fn lemma_insert_at(sorted: Seq<Seq<char>>, path: Seq<char>, at: int)
    requires
        0 <= at <= sorted.len(),
        forall|k: int| at <= k < sorted.len() ==> byte_len(#[trigger] sorted[k]) > byte_len(path),
        at == 0 || byte_len(sorted[at - 1]) <= byte_len(path),
    ensures
        insert_by_len(sorted, path) == sorted.insert(at, path),
    decreases sorted.len(),
{
    if sorted.len() == 0 {
        assert(sorted.insert(at, path) =~= seq![path]);
    } else if at == sorted.len() {
        assert(sorted.insert(at, path) =~= sorted.push(path));
    } else {
        assert(byte_len(sorted[sorted.len() - 1]) > byte_len(path));
        lemma_insert_at(sorted.drop_last(), path, at);
        assert(sorted.drop_last().insert(at, path).push(sorted.last()) =~= sorted.insert(at, path));
    }
}

proof fn lemma_insert_members(sorted: Seq<Seq<char>>, path: Seq<char>)
    ensures
        insert_by_len(sorted, path).len() == sorted.len() + 1,
        forall|x: Seq<char>|
            #![trigger insert_by_len(sorted, path).contains(x)]
            #![trigger sorted.contains(x)]
            insert_by_len(sorted, path).contains(x) <==> sorted.contains(x) || x == path,
        insert_by_len(sorted, path).contains(path),
    decreases sorted.len(),
{
    let after = insert_by_len(sorted, path);
    if sorted.len() == 0 {
        assert(after[0] == path);
        assert forall|x: Seq<char>| after.contains(x) <==> sorted.contains(x) || x == path by {}
    } else if byte_len(sorted.last()) <= byte_len(path) {
        assert(after.last() == path);
        assert(after[after.len() - 1] == path);
        assert forall|x: Seq<char>| after.contains(x) <==> sorted.contains(x) || x == path by {
            if sorted.contains(x) {
                let i = choose|i: int| 0 <= i < sorted.len() && sorted[i] == x;
                assert(after[i] == x);
            }
        }
    } else {
        let shorter = sorted.drop_last();
        lemma_insert_members(shorter, path);
        let inner = insert_by_len(shorter, path);
        assert(inner.contains(path));
        assert(after.contains(path)) by {
            let k = choose|k: int| 0 <= k < inner.len() && inner[k] == path;
            assert(after[k] == path);
        }
        assert forall|x: Seq<char>| after.contains(x) <==> sorted.contains(x) || x == path by {
            if after.contains(x) {
                let i = choose|i: int| 0 <= i < after.len() && after[i] == x;
                if i < inner.len() {
                    assert(inner[i] == x);
                    assert(inner.contains(x));
                    if shorter.contains(x) {
                        let k = choose|k: int| 0 <= k < shorter.len() && shorter[k] == x;
                        assert(sorted[k] == x);
                    }
                } else {
                    assert(sorted[sorted.len() - 1] == x);
                }
            }
            if sorted.contains(x) {
                let i = choose|i: int| 0 <= i < sorted.len() && sorted[i] == x;
                if i < sorted.len() - 1 {
                    assert(shorter[i] == x);
                    assert(shorter.contains(x));
                    assert(inner.contains(x));
                    let k = choose|k: int| 0 <= k < inner.len() && inner[k] == x;
                    assert(after[k] == x);
                } else {
                    assert(after[after.len() - 1] == x);
                }
            }
        }
    }
}

proof fn lemma_insert_rising(sorted: Seq<Seq<char>>, path: Seq<char>)
    requires
        rising(sorted),
    ensures
        rising(insert_by_len(sorted, path)),
    decreases sorted.len(),
{
    let after = insert_by_len(sorted, path);
    if sorted.len() == 0 {
    } else if byte_len(sorted.last()) <= byte_len(path) {
        assert forall|i: int, j: int| 0 <= i <= j < after.len() implies byte_len(after[i])
            <= byte_len(after[j]) by {
            if j < sorted.len() {
                assert(byte_len(sorted[i]) <= byte_len(sorted[j]));
            } else if i < sorted.len() {
                assert(byte_len(sorted[i]) <= byte_len(sorted[sorted.len() - 1]));
            }
        }
    } else {
        let shorter = sorted.drop_last();
        assert(rising(shorter)) by {
            assert forall|i: int, j: int| 0 <= i <= j < shorter.len() implies byte_len(shorter[i])
                <= byte_len(shorter[j]) by {
                assert(byte_len(sorted[i]) <= byte_len(sorted[j]));
            }
        }
        lemma_insert_rising(shorter, path);
        lemma_insert_members(shorter, path);
        let inner = insert_by_len(shorter, path);
        assert forall|i: int, j: int| 0 <= i <= j < after.len() implies byte_len(after[i])
            <= byte_len(after[j]) by {
            if j < inner.len() {
                assert(byte_len(inner[i]) <= byte_len(inner[j]));
            } else if i < inner.len() {
                assert(inner.contains(inner[i]));
                if shorter.contains(inner[i]) {
                    let k = choose|k: int| 0 <= k < shorter.len() && shorter[k] == inner[i];
                    assert(byte_len(sorted[k]) <= byte_len(sorted[sorted.len() - 1]));
                }
            }
        }
    }
}

/// The paths of `list` whose length is `length`, in their order.
pub open spec fn of_length(list: Seq<Seq<char>>, length: nat) -> Seq<Seq<char>> {
    list.filter(|path: Seq<char>| byte_len(path) == length)
}

proof fn lemma_insert_of_length(sorted: Seq<Seq<char>>, path: Seq<char>, length: nat)
    ensures
        of_length(insert_by_len(sorted, path), length) == if byte_len(path) == length {
            of_length(sorted, length).push(path)
        } else {
            of_length(sorted, length)
        },
    decreases sorted.len(),
{
    let wanted = |p: Seq<char>| byte_len(p) == length;
    reveal(Seq::filter);
    if sorted.len() == 0 {
        assert(seq![path].drop_last() =~= Seq::<Seq<char>>::empty());
        assert(Seq::<Seq<char>>::empty().filter(wanted) =~= Seq::<Seq<char>>::empty());
        assert(seq![path].last() == path);
    } else if byte_len(sorted.last()) <= byte_len(path) {
        assert(sorted.push(path).drop_last() =~= sorted);
    } else {
        lemma_insert_of_length(sorted.drop_last(), path, length);
        let inner = insert_by_len(sorted.drop_last(), path);
        assert(inner.push(sorted.last()).drop_last() =~= inner);
    }
}

/// Ordering by length puts the shorter before the longer and changes
/// nothing else: the paths of any one length stand in the order in which they
/// stood in the list.
pub proof fn lemma_sorted_by_len(list: Seq<Seq<char>>)
    ensures
        rising(sorted_by_len(list)),
        sorted_by_len(list).len() == list.len(),
        forall|length: nat| #[trigger]
            of_length(sorted_by_len(list), length) == of_length(list, length),
    decreases list.len(),
{
    lemma_sorted_rising(list);
    reveal(Seq::filter);
    if list.len() > 0 {
        let front = list.drop_last();
        lemma_sorted_by_len(front);
        lemma_insert_members(sorted_by_len(front), list.last());
        assert forall|length: nat| #[trigger]
            of_length(sorted_by_len(list), length) == of_length(list, length) by {
            lemma_insert_of_length(sorted_by_len(front), list.last(), length);
            assert(of_length(sorted_by_len(front), length) == of_length(front, length));
        }
    }
}

/// Ordering by length gives lengths that never fall.
pub proof fn lemma_sorted_rising(list: Seq<Seq<char>>)
    ensures
        rising(sorted_by_len(list)),
    decreases list.len(),
{
    if list.len() > 0 {
        lemma_sorted_rising(list.drop_last());
        lemma_insert_rising(sorted_by_len(list.drop_last()), list.last());
    }
}

/// A list whose lengths never fall is its own ordering by length.
pub proof fn lemma_sorted_fixed(list: Seq<Seq<char>>)
    requires
        rising(list),
    ensures
        sorted_by_len(list) == list,
    decreases list.len(),
{
    if list.len() > 0 {
        let shorter = list.drop_last();
        assert(rising(shorter)) by {
            assert forall|i: int, j: int| 0 <= i <= j < shorter.len() implies byte_len(shorter[i])
                <= byte_len(shorter[j]) by {
                assert(byte_len(list[i]) <= byte_len(list[j]));
            }
        }
        lemma_sorted_fixed(shorter);
        if shorter.len() > 0 {
            assert(byte_len(list[shorter.len() - 1]) <= byte_len(list[list.len() - 1]));
        }
        assert(shorter.push(list.last()) =~= list);
    }
}

/// What is kept stands in the list, in the list's order, and no kept path has
/// an earlier kept path as its beginning.
pub proof fn lemma_kept(list: Seq<Seq<char>>)
    ensures
        clean(keep_uncovered(list)),
        forall|i: int|
            0 <= i < keep_uncovered(list).len() ==> list.contains(
                #[trigger] keep_uncovered(list)[i],
            ),
        rising(list) ==> rising(keep_uncovered(list)),
    decreases list.len(),
{
    if list.len() > 0 {
        let shorter = list.drop_last();
        lemma_kept(shorter);
        let kept = keep_uncovered(shorter);
        let now = keep_uncovered(list);
        assert forall|i: int| 0 <= i < now.len() implies list.contains(#[trigger] now[i]) by {
            if i < kept.len() {
                assert(shorter.contains(kept[i]));
                let k = choose|k: int| 0 <= k < shorter.len() && shorter[k] == kept[i];
                assert(list[k] == kept[i]);
            } else {
                assert(list[list.len() - 1] == now[i]);
            }
        }
        if !covered(kept, list.last()) {
            assert forall|i: int, j: int| 0 <= i < j < now.len() implies !(#[trigger] now[i]).is_prefix_of(
                #[trigger] now[j],
            ) by {
                if j < kept.len() {
                    assert(!kept[i].is_prefix_of(kept[j]));
                } else {
                    assert(kept[i] == now[i]);
                }
            }
        }
        if rising(list) {
            assert(rising(shorter)) by {
                assert forall|i: int, j: int| 0 <= i <= j < shorter.len() implies byte_len(
                    shorter[i],
                ) <= byte_len(shorter[j]) by {
                    assert(byte_len(list[i]) <= byte_len(list[j]));
                }
            }
            assert forall|i: int, j: int| 0 <= i <= j < now.len() implies byte_len(now[i])
                <= byte_len(now[j]) by {
                if j < kept.len() {
                    assert(byte_len(kept[i]) <= byte_len(kept[j]));
                } else if i < kept.len() {
                    assert(shorter.contains(kept[i]));
                    let k = choose|k: int| 0 <= k < shorter.len() && shorter[k] == kept[i];
                    assert(byte_len(list[k]) <= byte_len(list[list.len() - 1]));
                }
            }
        }
    }
}

/// From a list in which no path has an earlier one as its beginning, every
/// path is kept.
pub proof fn lemma_clean_kept(list: Seq<Seq<char>>)
    requires
        clean(list),
    ensures
        keep_uncovered(list) == list,
    decreases list.len(),
{
    if list.len() > 0 {
        let shorter = list.drop_last();
        assert(clean(shorter)) by {
            assert forall|i: int, j: int| 0 <= i < j < shorter.len() implies !(
            #[trigger] shorter[i]).is_prefix_of(#[trigger] shorter[j]) by {
                assert(!list[i].is_prefix_of(list[j]));
            }
        }
        lemma_clean_kept(shorter);
        assert(!covered(shorter, list.last())) by {
            if covered(shorter, list.last()) {
                let i = choose|i: int|
                    0 <= i < shorter.len() && (#[trigger] shorter[i]).is_prefix_of(list.last());
                assert(list[i].is_prefix_of(list[list.len() - 1]));
            }
        }
        assert(shorter.push(list.last()) =~= list);
    }
}

/// Removing overlapping paths a second time removes nothing: the result of
/// `without_overlapping` is what `without_overlapping` makes of it.
pub proof fn lemma_without_overlapping_idempotent(list: Seq<Seq<char>>)
    ensures
        without_overlapping_spec(without_overlapping_spec(list)) == without_overlapping_spec(list),
{
    let once = without_overlapping_spec(list);
    lemma_sorted_rising(list);
    lemma_kept(sorted_by_len(list));
    lemma_sorted_fixed(once);
    lemma_clean_kept(once);
}

/// Whether `start` is the beginning of `path`.
pub fn is_prefix(start: &str, path: &str) -> (r: bool)
    ensures
        r == start@.is_prefix_of(path@),
{
    let head = chars_of(start);
    let whole = chars_of(path);
    if head.len() > whole.len() {
        return false;
    }
    let mut i: usize = 0;
    while i < head.len()
        invariant
            i <= head.len(),
            head.len() <= whole.len(),
            head@ == start@,
            whole@ == path@,
            forall|k: int| 0 <= k < i ==> head[k] == whole[k],
        decreases head.len() - i,
    {
        if head[i] != whole[i] {
            assert(head@ != whole@.subrange(0, head@.len() as int)) by {
                assert(whole@.subrange(0, head@.len() as int)[i as int] == whole[i as int]);
            }
            return false;
        }
        i += 1;
    }
    assert(head@ =~= whole@.subrange(0, head@.len() as int));
    true
}

/// The length of `s` in bytes.
pub fn byte_length(s: &str) -> (n: usize)
    ensures
        n == byte_len(s@),
{
    s.as_bytes().len()
}

/// The requested paths without those that lie under another requested path,
/// so that no folder is locked twice.
pub fn without_overlapping(list: Vec<String>) -> (result: Vec<String>)
    ensures
        views(result@) == without_overlapping_spec(views(list@)),
{
    let mut sorted: Vec<String> = Vec::new();
    let ghost all = views(list@);
    assert(all.take(0) == Seq::<Seq<char>>::empty());
    assert(views(sorted@) =~= Seq::<Seq<char>>::empty());
    for path in iter: list
        invariant
            iter.seq() == list@,
            all == views(list@),
            views(sorted@) == sorted_by_len(all.take(iter.index() as int)),
    {
        let ghost before = views(sorted@);
        let mut at: usize = sorted.len();
        let length = byte_length(path.as_str());
        while at > 0 && byte_length(sorted[at - 1].as_str()) > length
            invariant
                at <= sorted.len(),
                before == views(sorted@),
                length == byte_len(path@),
                forall|k: int|
                    at <= k < sorted.len() ==> byte_len(#[trigger] before[k]) > byte_len(path@),
            decreases at,
        {
            at -= 1;
        }
        proof {
            let i = iter.index() as int;
            assert(all.take(i + 1).drop_last() == all.take(i));
            assert(all.take(i + 1).last() == path@);
            if at > 0 {
                assert(before[at - 1] == sorted[at - 1]@);
            }
            lemma_insert_at(before, path@, at as int);
            assert(views(sorted@.insert(at as int, path)) =~= before.insert(at as int, path@));
        }
        sorted.insert(at, path);
    }
    assert(all.take(all.len() as int) == all);
    let ghost ordered = views(sorted@);
    let mut result: Vec<String> = Vec::new();
    assert(ordered.take(0) == Seq::<Seq<char>>::empty());
    assert(views(result@) =~= Seq::<Seq<char>>::empty());
    for path in iter: sorted
        invariant
            iter.seq() == sorted@,
            ordered == views(sorted@),
            views(result@) == keep_uncovered(ordered.take(iter.index() as int)),
    {
        let ghost kept = views(result@);
        let mut is_covered = false;
        let mut k: usize = 0;
        while k < result.len() && !is_covered
            invariant
                k <= result.len(),
                kept == views(result@),
                is_covered ==> covered(kept, path@),
                !is_covered ==> forall|i: int|
                    0 <= i < k ==> !(#[trigger] kept[i]).is_prefix_of(path@),
            decreases result.len() - k + (if is_covered { 0int } else { 1int }),
        {
            if is_prefix(result[k].as_str(), path.as_str()) {
                assert(kept[k as int].is_prefix_of(path@));
                is_covered = true;
            } else {
                k += 1;
            }
        }
        proof {
            let i = iter.index() as int;
            assert(ordered.take(i + 1).drop_last() == ordered.take(i));
            assert(ordered.take(i + 1).last() == path@);
        }
        if !is_covered {
            proof {
                assert(views(result@.push(path)) =~= kept.push(path@));
            }
            result.push(path);
        }
    }
    assert(ordered.take(ordered.len() as int) == ordered);
    result
}

/// The paths among `paths` that lead to no folder of `tree`.
pub open spec fn missing_paths(tree: crate::directory::TreeModel, paths: Seq<Seq<char>>) -> Seq<
    Seq<char>,
>
    decreases paths.len(),
{
    if paths.len() == 0 {
        Seq::empty()
    } else if tree.resolve(paths.last()) is None {
        missing_paths(tree, paths.drop_last()).push(paths.last())
    } else {
        missing_paths(tree, paths.drop_last())
    }
}

/// Whether every folder that is to be locked is there: if not, all the paths
/// that lead nowhere come back, in the order in which they were asked for.
pub fn check_folders(tree: &Tree, forbidden: &Vec<String>) -> (r: Result<(), Vec<String>>)
    requires
        tree.wf(),
    ensures
        r is Ok <==> missing_paths(tree@, views(forbidden@)).len() == 0,
        r matches Err(missing) ==> views(missing@) == missing_paths(tree@, views(forbidden@)),
{
    let mut missing: Vec<String> = Vec::new();
    let ghost all = views(forbidden@);
    let mut i: usize = 0;
    assert(all.take(0) == Seq::<Seq<char>>::empty());
    assert(views(missing@) =~= Seq::<Seq<char>>::empty());
    while i < forbidden.len()
        invariant
            tree.wf(),
            i <= forbidden.len(),
            all == views(forbidden@),
            views(missing@) == missing_paths(tree@, all.take(i as int)),
        decreases forbidden.len() - i,
    {
        proof {
            assert(all.take(i + 1).drop_last() == all.take(i as int));
            assert(all.take(i + 1).last() == forbidden[i as int]@);
        }
        match tree.node_for(forbidden[i].as_str()) {
            Ok(_) => {},
            Err(path) => {
                proof {
                    assert(views(missing@.push(path)) =~= views(missing@).push(path@));
                }
                missing.push(path);
            },
        }
        i += 1;
    }
    assert(all.take(i as int) == all);
    if missing.len() == 0 {
        Ok(())
    } else {
        Err(missing)
    }
}

} // verus!

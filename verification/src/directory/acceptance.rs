//! Which records a build takes in: all of them, exactly where no record names
//! a folder as its own parent or names a root as a folder, no two records
//! describe one folder, and the records close no circle. Whether that is so
//! does not hang on the order of the records.
use crate::directory::forest::lemma_ancestors_unfold;
use crate::directory::library::RecordModel;
use crate::directory::metadata::Kind;
use crate::directory::shape::{
    all_accepted, built, gives_link, gives_name, lemma_built_shape, lemma_ensured,
    lemma_record_shape_unordered, lemma_with_record, record_shape, Link, Shown,
};
use crate::directory::{main_id, trash_id, TreeError, TreeModel};
use vstd::prelude::*;

verus! {

/// Whether every record of a folder names another folder as its parent, and
/// neither of the two roots as the folder.
pub open spec fn proper(records: Seq<RecordModel>) -> bool {
    forall|r: RecordModel|
        #![trigger records.contains(r)]
        records.contains(r) && r.kind == Kind::Collection ==> r.id != r.parent && r.id
            != trash_id() && r.id != main_id()
}

/// Whether no two records describe the same folder.
pub open spec fn one_record_each(records: Seq<RecordModel>) -> bool {
    forall|i: int, j: int|
        0 <= i < records.len() && 0 <= j < records.len() && i != j && records[i].kind
            == Kind::Collection && records[j].kind == Kind::Collection ==> records[i].id
            != records[j].id
}

/// Whether `rank` gives every folder a smaller number than the folder that
/// its record names as its parent.
pub open spec fn ranked(records: Seq<RecordModel>, rank: spec_fn(Seq<char>) -> nat) -> bool {
    forall|r: RecordModel|
        #![trigger records.contains(r)]
        records.contains(r) && r.kind == Kind::Collection ==> rank(r.id) < rank(r.parent)
}

/// Whether the records can all be taken in: they are proper, no two describe
/// one folder, and they close no circle.
pub open spec fn sound(records: Seq<RecordModel>) -> bool {
    &&& proper(records)
    &&& one_record_each(records)
    &&& exists|rank: spec_fn(Seq<char>) -> nat| ranked(records, rank)
}

/// A value that stands at two places of a list is counted twice.
proof fn lemma_twice_counted<A>(list: Seq<A>, i: int, j: int)
    requires
        0 <= i < j < list.len(),
        list[i] == list[j],
    ensures
        list.to_multiset().count(list[i]) >= 2,
    decreases list.len(),
{
    let front = list.drop_last();
    let x = list[i];
    assert(front.push(list.last()) =~= list);
    vstd::seq_lib::to_multiset_build(front, list.last());
    front.to_multiset_ensures();
    if j == list.len() - 1 {
        assert(front[i] == x);
        assert(front.contains(x));
    } else {
        assert(front[i] == front[j]);
        lemma_twice_counted(front, i, j);
    }
}

/// A value that is counted twice stands at two places of the list.
proof fn lemma_counted_twice<A>(list: Seq<A>, x: A) -> (places: (int, int))
    requires
        list.to_multiset().count(x) >= 2,
    ensures
        0 <= places.0 < places.1 < list.len(),
        list[places.0] == x,
        list[places.1] == x,
    decreases list.len(),
{
    list.to_multiset_ensures();
    if list.len() == 0 {
        assert(list.to_multiset().len() == 0);
        assert(list.to_multiset().count(x) == 0);
        (0, 0)
    } else {
        let front = list.drop_last();
        assert(front.push(list.last()) =~= list);
        vstd::seq_lib::to_multiset_build(front, list.last());
        front.to_multiset_ensures();
        if list.last() == x {
            assert(front.to_multiset().count(x) >= 1);
            assert(front.contains(x));
            let i = choose|i: int| 0 <= i < front.len() && front[i] == x;
            assert(list[i] == x);
            (i, list.len() - 1)
        } else {
            let (i, j) = lemma_counted_twice(front, x);
            assert(list[i] == x && list[j] == x);
            (i, j)
        }
    }
}

/// Records in another order are as sound as they were.
pub proof fn lemma_sound_unordered(first: Seq<RecordModel>, second: Seq<RecordModel>)
    requires
        first.to_multiset() == second.to_multiset(),
        sound(first),
    ensures
        sound(second),
{
    first.to_multiset_ensures();
    second.to_multiset_ensures();
    assert forall|r: RecordModel| first.contains(r) <==> second.contains(r) by {
        assert(first.contains(r) <==> first.to_multiset().count(r) > 0);
        assert(second.contains(r) <==> second.to_multiset().count(r) > 0);
    }
    let rank = choose|rank: spec_fn(Seq<char>) -> nat| ranked(first, rank);
    assert(ranked(second, rank));
    assert forall|i: int, j: int|
        0 <= i < second.len() && 0 <= j < second.len() && i != j && second[i].kind
            == Kind::Collection && second[j].kind == Kind::Collection implies second[i].id
        != second[j].id by {
        if second[i].id == second[j].id {
            assert(second.contains(second[i]));
            assert(second.contains(second[j]));
            if second[i] == second[j] {
                if i < j {
                    lemma_twice_counted(second, i, j);
                } else {
                    lemma_twice_counted(second, j, i);
                }
                let (a, b) = lemma_counted_twice(first, second[i]);
                assert(first[a].id != first[b].id);
            } else {
                let a = choose|a: int| 0 <= a < first.len() && first[a] == second[i];
                let b = choose|b: int| 0 <= b < first.len() && first[b] == second[j];
                assert(first[a].id != first[b].id);
            }
        }
    }
}

/// In a tree that says of its links what the records say, the ranks of the
/// records rise along every chain of ancestors.
proof fn lemma_rank_rises(
    tree: TreeModel,
    records: Seq<RecordModel>,
    rank: spec_fn(Seq<char>) -> nat,
    x: int,
    k: int,
)
    requires
        tree.wf(),
        tree.shape().links == record_shape(records).links,
        ranked(records, rank),
        tree.has(x),
        0 <= k < tree.forest.ancestors(x).len(),
    ensures
        tree.has(tree.forest.ancestors(x)[k]),
        rank(tree.ids[x - 1]) <= rank(tree.ids[tree.forest.ancestors(x)[k] - 1]),
    decreases k,
{
    assert(tree.forest.is_live(x));
    lemma_ancestors_unfold(tree.forest, x);
    if k > 0 {
        let up = tree.forest.parent(x)->0;
        assert(tree.forest.is_live(up));
        let rest = tree.forest.ancestors(up);
        assert(tree.forest.ancestors(x)[k] == rest[k - 1]);
        lemma_rank_rises(tree, records, rank, up, k - 1);
        let link = Link { child: tree.ids[x - 1], parent: tree.ids[up - 1] };
        assert(tree.links_at(x, link));
        assert(tree.shape().links.contains(link));
        assert(record_shape(records).links.contains(link));
        let r = choose|r: RecordModel| records.contains(r) && #[trigger] gives_link(r, link);
        assert(rank(r.id) < rank(r.parent));
    }
}

/// Whether the records are proper, no two describe one folder, and `rank`
/// rises from every folder to its parent.
pub open spec fn sound_by(records: Seq<RecordModel>, rank: spec_fn(Seq<char>) -> nat) -> bool {
    proper(records) && one_record_each(records) && ranked(records, rank)
}

/// Sound records are all taken in.
pub proof fn lemma_sound_accepted(records: Seq<RecordModel>, rank: spec_fn(Seq<char>) -> nat)
    requires
        sound_by(records, rank),
    ensures
        all_accepted(records),
    decreases records.len(),
{
    if records.len() > 0 {
        let front = records.drop_last();
        let last = records.last();
        assert forall|r: RecordModel| front.contains(r) implies records.contains(r) by {
            let i = choose|i: int| 0 <= i < front.len() && front[i] == r;
            assert(records[i] == r);
        }
        assert(one_record_each(front)) by {
            assert forall|i: int, j: int|
                0 <= i < front.len() && 0 <= j < front.len() && i != j && front[i].kind
                    == Kind::Collection && front[j].kind == Kind::Collection implies front[i].id
                != front[j].id by {
                assert(front[i] == records[i] && front[j] == records[j]);
            }
        }
        lemma_sound_accepted(front, rank);
        lemma_built_shape(front);
        let tree = built(front).tree;
        lemma_with_record(built(front), last);
        assert(records.contains(last)) by {
            assert(records[records.len() - 1] == last);
        }
        if last.kind == Kind::Collection {
            assert(tree.folder_refusal(last.id, last.parent) is None) by {
                if tree.find(last.id) is Some {
                    let c = tree.find(last.id)->0;
                    assert(tree.ids[tree.ids.index_of(last.id)] == last.id);
                    assert(tree.has(c) && tree.ids[c - 1] == last.id);
                    if tree.names[c - 1] is Some {
                        // The folder has a name: a record gave it, or it is a root.
                        let shown = Shown { id: last.id, name: tree.names[c - 1]->0 };
                        assert(tree.shown_at(c, shown));
                        assert(tree.shape().names.contains(shown));
                        assert(record_shape(front).names.contains(shown));
                        let r = choose|r: RecordModel|
                            front.contains(r) && #[trigger] gives_name(r, shown);
                        let i = choose|i: int| 0 <= i < front.len() && front[i] == r;
                        assert(records[i].id != records[records.len() - 1].id);
                    }
                    if tree.find(last.parent) is Some {
                        let p = tree.find(last.parent)->0;
                        assert(tree.ids[tree.ids.index_of(last.parent)] == last.parent);
                        assert(tree.has(p) && tree.ids[p - 1] == last.parent);
                        let chain = tree.forest.ancestors(p);
                        if chain.contains(c) {
                            // The folder lies above its parent: the ranks say otherwise.
                            let k = choose|k: int| 0 <= k < chain.len() && chain[k] == c;
                            assert(ranked(front, rank));
                            lemma_rank_rises(tree, front, rank, p, k);
                        }
                    }
                }
            }
        }
    }
}

/// What was rejected among the first records stays rejected.
proof fn lemma_rejected_grows(records: Seq<RecordModel>, k: int)
    requires
        0 <= k <= records.len(),
    ensures
        built(records.take(k)).rejected.len() <= built(records).rejected.len(),
    decreases records.len() - k,
{
    if k < records.len() {
        lemma_rejected_grows(records, k + 1);
        let longer = records.take(k + 1);
        assert(longer.drop_last() == records.take(k));
        lemma_built_shape(longer);
    } else {
        assert(records.take(k) == records);
    }
}

/// A folder's record that was taken in was not refused by the tree of the
/// records before it.
proof fn lemma_step_accepted(records: Seq<RecordModel>, k: int)
    requires
        all_accepted(records),
        0 <= k < records.len(),
        records[k].kind == Kind::Collection,
    ensures
        all_accepted(records.take(k)),
        built(records.take(k)).tree.wf(),
        built(records.take(k)).tree.folder_refusal(records[k].id, records[k].parent) is None,
{
    lemma_rejected_grows(records, k);
    lemma_rejected_grows(records, k + 1);
    let front = records.take(k);
    let longer = records.take(k + 1);
    assert(longer.drop_last() == front);
    assert(longer.last() == records[k]);
    lemma_built_shape(front);
    lemma_with_record(built(front), records[k]);
}

/// Records that are all taken in are sound.
pub proof fn lemma_accepted_sound(records: Seq<RecordModel>)
    requires
        all_accepted(records),
    ensures
        sound(records),
{
    lemma_built_shape(records);
    let tree = built(records).tree;
    assert forall|r: RecordModel|
        #![trigger records.contains(r)]
        records.contains(r) && r.kind == Kind::Collection implies r.id != r.parent && r.id
        != trash_id() && r.id != main_id() by {
        let k = choose|k: int| 0 <= k < records.len() && records[k] == r;
        lemma_step_accepted(records, k);
        let before = built(records.take(k)).tree;
        if r.id == trash_id() {
            before.lemma_find(r.id, 1);
        }
        if r.id == main_id() {
            before.lemma_find(r.id, 2);
        }
    }
    assert forall|i: int, j: int|
        0 <= i < records.len() && 0 <= j < records.len() && i != j && records[i].kind
            == Kind::Collection && records[j].kind == Kind::Collection implies records[i].id
        != records[j].id by {
        if records[i].id == records[j].id {
            let (early, late) = if i < j {
                (i, j)
            } else {
                (j, i)
            };
            lemma_step_accepted(records, late);
            let front = records.take(late);
            let before = built(front).tree;
            lemma_built_shape(front);
            let r = records[early];
            assert(front[early] == r);
            assert(front.contains(r));
            let shown = Shown { id: r.id, name: r.name };
            assert(gives_name(r, shown));
            assert(record_shape(front).names.contains(shown));
            assert(before.shape().names.contains(shown));
            let h = choose|h: int| before.shown_at(h, shown);
            before.lemma_find(r.id, h);
        }
    }
    let rank = |id: Seq<char>|
        if tree.find(id) is Some {
            tree.forest.ranking()[tree.find(id)->0 - 1]
        } else {
            0nat
        };
    assert(ranked(records, rank)) by {
        assert forall|r: RecordModel|
            #![trigger records.contains(r)]
            records.contains(r) && r.kind == Kind::Collection implies rank(r.id) < rank(
            r.parent,
        ) by {
            let link = Link { child: r.id, parent: r.parent };
            assert(gives_link(r, link));
            assert(record_shape(records).links.contains(link));
            assert(tree.shape().links.contains(link));
            let h = choose|h: int| tree.links_at(h, link);
            let up = tree.forest.parent(h)->0;
            assert(tree.forest.is_live(h));
            assert(tree.forest.is_live(up));
            tree.lemma_find(r.id, h);
            tree.lemma_find(r.parent, up);
        }
    }
}

/// A build takes in all the records exactly where they are sound.
pub proof fn lemma_accepted_iff_sound(records: Seq<RecordModel>)
    ensures
        all_accepted(records) <==> sound(records),
{
    if all_accepted(records) {
        lemma_accepted_sound(records);
    }
    if sound(records) {
        let rank = choose|rank: spec_fn(Seq<char>) -> nat| ranked(records, rank);
        lemma_sound_accepted(records, rank);
    }
}

/// The order of the records does not matter. If a build takes in all the
/// records, it takes them all in in any other order too, and the two trees
/// say the same: they have the same folders, every folder hangs under the
/// same folder and shows the same name in both, and the same documents lie
/// in it.
pub proof fn lemma_insertion_order_independent(
    first: Seq<RecordModel>,
    second: Seq<RecordModel>,
)
    requires
        first.to_multiset() == second.to_multiset(),
        all_accepted(first),
    ensures
        all_accepted(second),
        built(first).tree.shape() == built(second).tree.shape(),
{
    lemma_accepted_iff_sound(first);
    lemma_sound_unordered(first, second);
    lemma_accepted_iff_sound(second);
    lemma_built_shape(first);
    lemma_built_shape(second);
    lemma_record_shape_unordered(first, second);
}

} // verus!

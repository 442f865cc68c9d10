//! What holds of every tree: which documents a folder yields, and that the
//! order of the records does not matter.
use crate::directory::descent::{lemma_descendants, lemma_kids_deeper, reaches_all};
use crate::directory::forest::{lemma_ancestors_unfold, lemma_walk_live};
use crate::directory::library::{LibraryModel, RecordModel};
use crate::directory::metadata::Kind;
use crate::directory::shape::{
    all_accepted, built, gives_file, gives_link, lemma_built_shape, lemma_ensured,
    lemma_with_record, record_shape, Filed, Link,
};
use crate::directory::{main_id, FileModel, TreeModel, MAIN};
use vstd::prelude::*;
use vstd::seq_lib::lemma_no_dup_in_concat;

verus! {

impl TreeModel {
    /// Whether the document `doc` lies directly in `folder`.
    pub open spec fn holds(self, folder: int, doc: Seq<char>) -> bool {
        self.has(folder) && exists|i: int|
            0 <= i < self.files[folder - 1].len() && (#[trigger] self.files[folder - 1][i]).id
                == doc
    }

    /// Whether no identifier names two documents of the tree.
    pub open spec fn documents_distinct(self) -> bool {
        forall|x: int, i: int, y: int, j: int|
            self.has(x) && 0 <= i < self.files[x - 1].len() && self.has(y) && 0 <= j
                < self.files[y - 1].len() && (x != y || i != j) ==> (
            #[trigger] self.files[x - 1][i]).id != (#[trigger] self.files[y - 1][j]).id
    }

    /// Whether all of `handles` are folders of the tree.
    pub open spec fn has_all(self, handles: Seq<int>) -> bool {
        forall|k: int| 0 <= k < handles.len() ==> self.has(#[trigger] handles[k])
    }
}

/// The documents of a list of folders are the documents that lie in one of
/// them.
pub proof fn lemma_files_of_members(tree: TreeModel, handles: Seq<int>, doc: Seq<char>)
    requires
        tree.has_all(handles),
    ensures
        tree.files_of(handles).contains(doc) <==> exists|k: int|
            0 <= k < handles.len() && tree.holds(#[trigger] handles[k], doc),
    decreases handles.len(),
{
    if handles.len() > 0 {
        let front = handles.drop_last();
        let last = handles.last();
        assert(tree.has_all(front)) by {
            assert forall|k: int| 0 <= k < front.len() implies tree.has(#[trigger] front[k]) by {
                assert(front[k] == handles[k]);
            }
        }
        assert(tree.has(handles[handles.len() - 1]));
        lemma_files_of_members(tree, front, doc);
        let a = tree.files_of(front);
        let b = tree.files[last - 1].map_values(|file: FileModel| file.id);
        let whole = tree.files_of(handles);
        assert(whole == a + b);
        if whole.contains(doc) {
            let m = choose|m: int| 0 <= m < whole.len() && whole[m] == doc;
            if m < a.len() {
                assert(a[m] == doc);
                assert(a.contains(doc));
                let k = choose|k: int| 0 <= k < front.len() && tree.holds(#[trigger] front[k], doc);
                assert(handles[k] == front[k]);
            } else {
                assert(b[m - a.len()] == doc);
                assert(tree.files[last - 1][m - a.len()].id == doc);
                assert(tree.holds(handles[handles.len() - 1], doc));
            }
        }
        if exists|k: int| 0 <= k < handles.len() && tree.holds(#[trigger] handles[k], doc) {
            let k = choose|k: int| 0 <= k < handles.len() && tree.holds(#[trigger] handles[k], doc);
            if k < front.len() {
                assert(front[k] == handles[k]);
                assert(a.contains(doc));
                let m = choose|m: int| 0 <= m < a.len() && a[m] == doc;
                assert(whole[m] == doc);
            } else {
                let i = choose|i: int|
                    0 <= i < tree.files[last - 1].len() && (#[trigger] tree.files[last - 1][i]).id
                        == doc;
                assert(b[i] == doc);
                assert(whole[a.len() + i] == doc);
            }
        }
    }
}

/// Different folders of a tree whose documents are distinct yield no
/// document twice.
pub proof fn lemma_files_of_distinct(tree: TreeModel, handles: Seq<int>)
    requires
        tree.has_all(handles),
        handles.no_duplicates(),
        tree.documents_distinct(),
    ensures
        tree.files_of(handles).no_duplicates(),
    decreases handles.len(),
{
    if handles.len() > 0 {
        let front = handles.drop_last();
        let last = handles.last();
        assert(tree.has_all(front)) by {
            assert forall|k: int| 0 <= k < front.len() implies tree.has(#[trigger] front[k]) by {
                assert(front[k] == handles[k]);
            }
        }
        assert(tree.has(handles[handles.len() - 1]));
        lemma_files_of_distinct(tree, front);
        let a = tree.files_of(front);
        let b = tree.files[last - 1].map_values(|file: FileModel| file.id);
        assert(b.no_duplicates()) by {
            assert forall|i: int, j: int| 0 <= i < b.len() && 0 <= j < b.len() && i
                != j implies b[i] != b[j] by {
                assert(tree.files[last - 1][i].id != tree.files[last - 1][j].id);
            }
        }
        assert forall|i: int, j: int| 0 <= i < a.len() && 0 <= j < b.len() implies a[i]
            != b[j] by {
            if a[i] == b[j] {
                let doc = a[i];
                assert(a.contains(doc));
                lemma_files_of_members(tree, front, doc);
                let k = choose|k: int| 0 <= k < front.len() && tree.holds(#[trigger] front[k], doc);
                assert(front[k] == handles[k]);
                let m = choose|m: int|
                    0 <= m < tree.files[front[k] - 1].len() && (
                    #[trigger] tree.files[front[k] - 1][m]).id == doc;
                assert(handles[k] != handles[handles.len() - 1]);
                assert(tree.files[front[k] - 1][m].id != tree.files[last - 1][j].id);
            }
        }
        lemma_no_dup_in_concat(a, b);
    }
}

/// What a folder yields: the documents that lie in it or in a folder below
/// it, and no others. Where no identifier names two documents of the tree,
/// none is yielded twice.
pub proof fn lemma_descendant_files(tree: TreeModel, folder: int)
    requires
        tree.wf(),
        tree.has(folder),
    ensures
        forall|doc: Seq<char>|
            #![trigger tree.files_under(folder).contains(doc)]
            tree.files_under(folder).contains(doc) <==> exists|x: int|
                tree.forest.is_above(folder, x) && #[trigger] tree.holds(x, doc),
        tree.documents_distinct() ==> tree.files_under(folder).no_duplicates(),
{
    let below = tree.forest.descendants(folder);
    assert(tree.forest.is_live(folder));
    lemma_descendants(tree.forest, folder);
    lemma_walk_live(tree.forest, folder, tree.forest.size());
    assert(tree.has_all(below)) by {
        assert forall|k: int| 0 <= k < below.len() implies tree.has(#[trigger] below[k]) by {
            assert(tree.forest.is_live(below[k]));
        }
    }
    assert forall|doc: Seq<char>|
        #![trigger tree.files_under(folder).contains(doc)]
        tree.files_under(folder).contains(doc) <==> exists|x: int|
            tree.forest.is_above(folder, x) && #[trigger] tree.holds(x, doc) by {
        lemma_files_of_members(tree, below, doc);
        if tree.files_under(folder).contains(doc) {
            let k = choose|k: int| 0 <= k < below.len() && tree.holds(#[trigger] below[k], doc);
            assert(below.contains(below[k]));
            assert(tree.forest.is_above(folder, below[k]) && tree.holds(below[k], doc));
        }
        if exists|x: int| tree.forest.is_above(folder, x) && #[trigger] tree.holds(x, doc) {
            let x = choose|x: int| tree.forest.is_above(folder, x) && #[trigger] tree.holds(x, doc);
            assert(tree.forest.is_live(x));
            assert(below.contains(x));
            let k = choose|k: int| 0 <= k < below.len() && below[k] == x;
            assert(tree.holds(below[k], doc));
        }
    }
    if tree.documents_distinct() {
        lemma_files_of_distinct(tree, below);
    }
}

/// Whether no identifier names two documents among the records.
pub open spec fn distinct_documents(records: Seq<RecordModel>) -> bool {
    forall|i: int, j: int|
        0 <= i < j < records.len() && records[i].kind == Kind::Document && records[j].kind
            == Kind::Document ==> records[i].id != records[j].id
}

/// Whether the records lead from the folder `id` to the main root in at most
/// `steps` steps, each from a folder to the folder that its record names as
/// its parent.
pub open spec fn leads_home(records: Seq<RecordModel>, id: Seq<char>, steps: nat) -> bool
    decreases steps,
{
    id == main_id() || (steps > 0 && exists|r: RecordModel|
        #![trigger records.contains(r)]
        records.contains(r) && r.kind == Kind::Collection && r.id == id && leads_home(
            records,
            r.parent,
            (steps - 1) as nat,
        ))
}

/// Whether every document of the records lies in a folder from which the
/// records lead to the main root.
pub open spec fn all_at_home(records: Seq<RecordModel>) -> bool {
    forall|r: RecordModel|
        records.contains(r) && r.kind == Kind::Document ==> exists|steps: nat| #[trigger]
            leads_home(records, r.parent, steps)
}

/// Whether every document of the tree is named by a document among the
/// records.
pub open spec fn documents_from(tree: TreeModel, records: Seq<RecordModel>) -> bool {
    forall|x: int, i: int|
        tree.has(x) && 0 <= i < tree.files[x - 1].len() ==> exists|k: int|
            0 <= k < records.len() && records[k].kind == Kind::Document && (
            #[trigger] records[k]).id == (#[trigger] tree.files[x - 1][i]).id
}

/// Records that name no document twice give a tree that holds no document
/// twice, and every document of the tree is one of the records.
pub proof fn lemma_built_documents(records: Seq<RecordModel>)
    requires
        distinct_documents(records),
    ensures
        built(records).tree.wf(),
        built(records).tree.documents_distinct(),
        documents_from(built(records).tree, records),
    decreases records.len(),
{
    lemma_built_shape(records);
    if records.len() == 0 {
        let tree = built(records).tree;
        assert(tree.files[0].len() == 0 && tree.files[1].len() == 0);
    } else {
        let front = records.drop_last();
        let last = records.last();
        assert(distinct_documents(front)) by {
            assert forall|i: int, j: int|
                0 <= i < j < front.len() && front[i].kind == Kind::Document && front[j].kind
                    == Kind::Document implies front[i].id != front[j].id by {
                assert(front[i] == records[i] && front[j] == records[j]);
            }
        }
        lemma_built_documents(front);
        let before = built(front).tree;
        let after = built(records).tree;
        match last.kind {
            Kind::Document => {
                lemma_ensured(before, last.parent);
                let mid = before.ensured(last.parent);
                let folder = mid.find(last.parent)->0;
                let added = mid.files[folder - 1].len() as int;
                assert forall|x: int, i: int|
                    after.has(x) && 0 <= i < after.files[x - 1].len() implies (x == folder && i
                    == added && after.files[x - 1][i].id == last.id) || (before.has(x) && 0 <= i
                    < before.files[x - 1].len() && before.files[x - 1][i] == (
                #[trigger] after.files[x - 1][i])) by {
                    if x == folder && i == added {
                    } else {
                        assert(mid.has(x));
                        assert(0 <= i < mid.files[x - 1].len());
                        if !before.has(x) {
                            assert(mid.files[x - 1] == Seq::<FileModel>::empty());
                        }
                    }
                }
                assert forall|x: int, i: int|
                    after.has(x) && 0 <= i < after.files[x - 1].len() implies exists|k: int|
                    0 <= k < records.len() && records[k].kind == Kind::Document && (
                    #[trigger] records[k]).id == (#[trigger] after.files[x - 1][i]).id by {
                    if x == folder && i == added {
                        assert(records[records.len() - 1].id == last.id);
                    } else {
                        assert(before.files[x - 1][i] == after.files[x - 1][i]);
                        let k = choose|k: int|
                            0 <= k < front.len() && front[k].kind == Kind::Document && (
                            #[trigger] front[k]).id == before.files[x - 1][i].id;
                        assert(records[k] == front[k]);
                    }
                }
                assert forall|x: int, i: int, y: int, j: int|
                    after.has(x) && 0 <= i < after.files[x - 1].len() && after.has(y) && 0 <= j
                        < after.files[y - 1].len() && (x != y || i != j) implies (
                #[trigger] after.files[x - 1][i]).id != (#[trigger] after.files[y - 1][j]).id by {
                    let new_x = x == folder && i == added;
                    let new_y = y == folder && j == added;
                    if new_x && !new_y {
                        assert(before.files[y - 1][j] == after.files[y - 1][j]);
                        let k = choose|k: int|
                            0 <= k < front.len() && front[k].kind == Kind::Document && (
                            #[trigger] front[k]).id == before.files[y - 1][j].id;
                        assert(records[k] == front[k]);
                        assert(records[k].id != records[records.len() - 1].id);
                    } else if new_y && !new_x {
                        assert(before.files[x - 1][i] == after.files[x - 1][i]);
                        let k = choose|k: int|
                            0 <= k < front.len() && front[k].kind == Kind::Document && (
                            #[trigger] front[k]).id == before.files[x - 1][i].id;
                        assert(records[k] == front[k]);
                        assert(records[k].id != records[records.len() - 1].id);
                    } else {
                        assert(before.files[x - 1][i] == after.files[x - 1][i]);
                        assert(before.files[y - 1][j] == after.files[y - 1][j]);
                    }
                }
            },
            Kind::Collection => {
                if before.folder_refusal(last.id, last.parent) is None {
                    lemma_ensured(before, last.id);
                    let first = before.ensured(last.id);
                    lemma_ensured(first, last.parent);
                    let mid = first.ensured(last.parent);
                    assert(after.files == mid.files);
                    assert forall|x: int, i: int|
                        after.has(x) && 0 <= i < after.files[x - 1].len() implies before.has(x)
                        && 0 <= i < before.files[x - 1].len() && before.files[x - 1][i] == (
                    #[trigger] after.files[x - 1][i]) by {
                        assert(mid.has(x));
                        if !first.has(x) {
                            assert(mid.files[x - 1] == Seq::<FileModel>::empty());
                        } else if !before.has(x) {
                            assert(first.files[x - 1] == Seq::<FileModel>::empty());
                        }
                    }
                } else {
                    assert(after == before);
                }
                assert forall|x: int, i: int|
                    after.has(x) && 0 <= i < after.files[x - 1].len() implies exists|k: int|
                    0 <= k < records.len() && records[k].kind == Kind::Document && (
                    #[trigger] records[k]).id == (#[trigger] after.files[x - 1][i]).id by {
                    assert(before.files[x - 1][i] == after.files[x - 1][i]);
                    let k = choose|k: int|
                        0 <= k < front.len() && front[k].kind == Kind::Document && (
                        #[trigger] front[k]).id == before.files[x - 1][i].id;
                    assert(records[k] == front[k]);
                }
                assert forall|x: int, i: int, y: int, j: int|
                    after.has(x) && 0 <= i < after.files[x - 1].len() && after.has(y) && 0 <= j
                        < after.files[y - 1].len() && (x != y || i != j) implies (
                #[trigger] after.files[x - 1][i]).id != (#[trigger] after.files[y - 1][j]).id by {
                    assert(before.files[x - 1][i] == after.files[x - 1][i]);
                    assert(before.files[y - 1][j] == after.files[y - 1][j]);
                }
            },
        }
    }
}

/// A folder from which the records lead to the main root is the main root or
/// lies below it.
pub proof fn lemma_leads_home(records: Seq<RecordModel>, id: Seq<char>, steps: nat)
    requires
        all_accepted(records),
        leads_home(records, id, steps),
    ensures
        built(records).tree.find(id) is Some,
        built(records).tree.has(built(records).tree.find(id)->0),
        built(records).tree.ids[built(records).tree.find(id)->0 - 1] == id,
        built(records).tree.forest.is_above(MAIN as int, built(records).tree.find(id)->0),
    decreases steps,
{
    lemma_built_shape(records);
    let tree = built(records).tree;
    if id == main_id() {
        tree.lemma_find(id, MAIN as int);
        assert(tree.forest.is_live(MAIN as int));
        lemma_ancestors_unfold(tree.forest, MAIN as int);
    } else {
        let r = choose|r: RecordModel|
            #![trigger records.contains(r)]
            records.contains(r) && r.kind == Kind::Collection && r.id == id && leads_home(
                records,
                r.parent,
                (steps - 1) as nat,
            );
        lemma_leads_home(records, r.parent, (steps - 1) as nat);
        let link = Link { child: r.id, parent: r.parent };
        assert(gives_link(r, link));
        assert(record_shape(records).links.contains(link));
        assert(tree.shape().links.contains(link));
        let h = choose|h: int| tree.links_at(h, link);
        let up = tree.forest.parent(h)->0;
        assert(tree.forest.is_live(h));
        assert(tree.forest.is_live(up));
        tree.lemma_find(id, h);
        tree.lemma_find(r.parent, up);
        lemma_ancestors_unfold(tree.forest, h);
        let rest = tree.forest.ancestors(up);
        let k = choose|k: int| 0 <= k < rest.len() && rest[k] == MAIN as int;
        assert(tree.forest.ancestors(h)[k + 1] == MAIN as int);
    }
}

/// The main root yields every document of the records, each once: for
/// records that the library takes in without rejecting one, that name no
/// document twice, and whose documents all lie in folders that hang under the
/// main root.
pub proof fn lemma_root_yields_every_document(records: Seq<RecordModel>)
    requires
        all_accepted(records),
        distinct_documents(records),
        all_at_home(records),
    ensures
        built(records).tree.files_under(MAIN as int).no_duplicates(),
        forall|doc: Seq<char>|
            #![trigger built(records).tree.files_under(MAIN as int).contains(doc)]
            built(records).tree.files_under(MAIN as int).contains(doc) <==> exists|r: RecordModel|
                #![trigger records.contains(r)]
                records.contains(r) && r.kind == Kind::Document && r.id == doc,
{
    lemma_built_shape(records);
    lemma_built_documents(records);
    let tree = built(records).tree;
    lemma_descendant_files(tree, MAIN as int);
    assert forall|doc: Seq<char>|
        #![trigger tree.files_under(MAIN as int).contains(doc)]
        tree.files_under(MAIN as int).contains(doc) <==> exists|r: RecordModel|
            #![trigger records.contains(r)]
            records.contains(r) && r.kind == Kind::Document && r.id == doc by {
        if tree.files_under(MAIN as int).contains(doc) {
            let x = choose|x: int|
                tree.forest.is_above(MAIN as int, x) && #[trigger] tree.holds(x, doc);
            let i = choose|i: int|
                0 <= i < tree.files[x - 1].len() && (#[trigger] tree.files[x - 1][i]).id == doc;
            let k = choose|k: int|
                0 <= k < records.len() && records[k].kind == Kind::Document && (
                #[trigger] records[k]).id == tree.files[x - 1][i].id;
            assert(records.contains(records[k]));
        }
        if exists|r: RecordModel|
            #![trigger records.contains(r)]
            records.contains(r) && r.kind == Kind::Document && r.id == doc {
            let r = choose|r: RecordModel|
                #![trigger records.contains(r)]
                records.contains(r) && r.kind == Kind::Document && r.id == doc;
            let steps = choose|steps: nat| #[trigger] leads_home(records, r.parent, steps);
            lemma_leads_home(records, r.parent, steps);
            let filed = Filed { folder: r.parent, id: r.id, name: r.name };
            assert(gives_file(r, filed));
            assert(record_shape(records).files.contains(filed));
            assert(tree.shape().files.contains(filed));
            let (x, i) = choose|x: int, i: int| tree.filed_at(x, i, filed);
            tree.lemma_find(r.parent, x);
            assert(tree.files[x - 1][i].id == doc);
            assert(tree.forest.is_above(MAIN as int, x) && tree.holds(x, doc));
        }
    }
}

/// More depth than lies below a folder changes no listing.
pub proof fn lemma_render_saturated(
    tree: TreeModel,
    handle: int,
    indent: nat,
    less: nat,
    more: nat,
)
    requires
        tree.wf(),
        tree.has(handle),
        less <= more,
        less + tree.forest.ancestors(handle).len() >= tree.size() + 1,
    ensures
        tree.render(handle, indent, less) == tree.render(handle, indent, more),
    decreases less, 0nat,
{
    assert(tree.forest.is_live(handle));
    lemma_kids_deeper(tree.forest, handle, less);
    lemma_render_all_saturated(
        tree,
        tree.forest.kids(handle),
        indent + 1,
        (less - 1) as nat,
        (more - 1) as nat,
    );
}

/// More depth than lies below the folders changes no row of listings.
pub proof fn lemma_render_all_saturated(
    tree: TreeModel,
    handles: Seq<int>,
    indent: nat,
    less: nat,
    more: nat,
)
    requires
        tree.wf(),
        less <= more,
        reaches_all(tree.forest, handles, less),
    ensures
        tree.render_all(handles, indent, less) == tree.render_all(handles, indent, more),
    decreases less, handles.len() + 1,
{
    if handles.len() > 0 {
        let front = handles.drop_last();
        assert(reaches_all(tree.forest, front, less)) by {
            assert forall|i: int| 0 <= i < front.len() implies tree.forest.is_live(
                #[trigger] front[i],
            ) && less + tree.forest.ancestors(front[i]).len() >= tree.forest.size() + 1 by {
                assert(front[i] == handles[i]);
            }
        }
        lemma_render_all_saturated(tree, front, indent, less, more);
        assert(tree.forest.is_live(handles[handles.len() - 1]));
        lemma_render_saturated(tree, handles.last(), indent, less, more);
    }
}

/// The listing of a folder is whole: it shows all that lies below the
/// folder, however deep, and a listing to any greater depth is the same.
pub proof fn lemma_listing_whole(tree: TreeModel, handle: int, indent: nat, depth: nat)
    requires
        tree.wf(),
        tree.has(handle),
        depth >= tree.size(),
    ensures
        tree.render(handle, indent, depth) == tree.listing(handle, indent),
{
    assert(tree.forest.is_live(handle));
    lemma_ancestors_unfold(tree.forest, handle);
    lemma_render_saturated(tree, handle, indent, tree.size(), depth);
}

} // verus!

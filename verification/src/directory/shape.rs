//! The shape of a tree: what it says in terms of identifiers alone, whatever
//! handles its folders got and in whatever order children and documents
//! stand.
use crate::directory::forest::{lemma_chain_shape, lemma_with_child_wf, lemma_with_node_wf};
use crate::directory::library::{LibraryModel, RecordModel};
use crate::directory::metadata::Kind;
use crate::directory::{main_id, trash_id, FileModel, TreeModel, MAIN, TRASH};
use vstd::prelude::*;

verus! {

/// That one folder hangs under another.
pub ghost struct Link {
    pub child: Seq<char>,
    pub parent: Seq<char>,
}

/// That a folder shows a name.
pub ghost struct Shown {
    pub id: Seq<char>,
    pub name: Seq<char>,
}

/// That a document lies in a folder.
pub ghost struct Filed {
    pub folder: Seq<char>,
    pub id: Seq<char>,
    pub name: Seq<char>,
}

/// What a tree says: which folders there are, which hangs under which, what
/// names they show and which documents lie in them.
#[verifier::ext_equal]
pub ghost struct Shape {
    pub folders: Set<Seq<char>>,
    pub links: Set<Link>,
    pub names: Set<Shown>,
    pub files: Set<Filed>,
}

impl TreeModel {
    /// Whether folder `h` bears out `link`.
    pub open spec fn links_at(self, h: int, link: Link) -> bool {
        self.has(h) && self.forest.parent(h) is Some && link == (Link {
            child: self.ids[h - 1],
            parent: self.ids[self.forest.parent(h)->0 - 1],
        })
    }

    /// Whether folder `h` bears out `shown`.
    pub open spec fn shown_at(self, h: int, shown: Shown) -> bool {
        self.has(h) && self.names[h - 1] == Some(shown.name) && self.ids[h - 1] == shown.id
    }

    /// Whether document `i` of folder `h` bears out `filed`.
    pub open spec fn filed_at(self, h: int, i: int, filed: Filed) -> bool {
        self.has(h) && 0 <= i < self.files[h - 1].len() && filed == (Filed {
            folder: self.ids[h - 1],
            id: self.files[h - 1][i].id,
            name: self.files[h - 1][i].name,
        })
    }

    /// What the tree says.
    pub open spec fn shape(self) -> Shape {
        Shape {
            folders: Set::new(|id: Seq<char>| self.ids.contains(id)),
            links: Set::new(|link: Link| exists|h: int| self.links_at(h, link)),
            names: Set::new(|shown: Shown| exists|h: int| self.shown_at(h, shown)),
            files: Set::new(|filed: Filed| exists|h: int, i: int| self.filed_at(h, i, filed)),
        }
    }
}

/// The initial tree is well-formed.
pub proof fn lemma_initial_wf()
    ensures
        TreeModel::initial().wf(),
{
    reveal_strlit("trash");
    reveal_strlit("");
    let tree = TreeModel::initial();
    assert(trash_id().len() == 5);
    assert(main_id().len() == 0);
    assert(tree.forest.ranked_by(seq![0nat, 0nat]));
    assert(tree.forest.kids(1) == Seq::<int>::empty());
    assert(tree.forest.kids(2) == Seq::<int>::empty());
    assert forall|h: int| #![trigger tree.forest.kids(h)] tree.forest.is_live(h) implies tree.forest.kids(
        h,
    ).no_duplicates() by {
        assert(h == 1 || h == 2);
    }
    assert forall|h: int, i: int|
        #![trigger tree.forest.kids(h)[i]]
        tree.forest.is_live(h) && 0 <= i < tree.forest.kids(h).len() implies tree.forest.is_live(
        tree.forest.kids(h)[i],
    ) && tree.forest.parent(tree.forest.kids(h)[i]) == Some(h) by {
        assert(h == 1 || h == 2);
    }
}

/// Making sure that a folder is there keeps a tree well-formed and leaves
/// the folders that were there as they were. A folder that had to be made
/// has no name, no parent, no children and no documents.
pub proof fn lemma_ensured(tree: TreeModel, id: Seq<char>)
    requires
        tree.wf(),
    ensures
        tree.ensured(id).wf(),
        tree.ensured(id).find(id) is Some,
        tree.ensured(id).has(tree.ensured(id).find(id)->0),
        tree.ensured(id).ids[tree.ensured(id).find(id)->0 - 1] == id,
        tree.ensured(id).size() >= tree.size(),
        forall|h: int|
            #![trigger tree.ensured(id).has(h)]
            tree.has(h) ==> tree.ensured(id).has(h) && tree.ensured(id).ids[h - 1] == tree.ids[h
                - 1] && tree.ensured(id).names[h - 1] == tree.names[h - 1] && tree.ensured(
                id,
            ).files[h - 1] == tree.files[h - 1] && tree.ensured(id).forest.parent(h)
                == tree.forest.parent(h) && tree.ensured(id).forest.kids(h) == tree.forest.kids(h),
        forall|h: int|
            #![trigger tree.ensured(id).has(h)]
            tree.ensured(id).has(h) && !tree.has(h) ==> tree.ensured(id).ids[h - 1] == id
                && !tree.ids.contains(id) && tree.ensured(id).names[h - 1] is None && tree.ensured(
                id,
            ).files[h - 1] == Seq::<FileModel>::empty() && tree.ensured(id).forest.parent(h) is None
                && tree.ensured(id).forest.kids(h) == Seq::<int>::empty(),
        forall|other: Seq<char>|
            #![trigger tree.ensured(id).ids.contains(other)]
            tree.ensured(id).ids.contains(other) <==> tree.ids.contains(other) || other == id,
{
    let after = tree.ensured(id);
    if tree.ids.contains(id) {
        let at = tree.ids.index_of(id);
        assert(tree.ids[at] == id);
    } else {
        lemma_with_node_wf(tree.forest);
        let fresh = tree.forest.next();
        assert(after.ids[fresh - 1] == id);
        assert(after.ids.no_duplicates());
        after.lemma_find(id, fresh);
        assert forall|h: int|
            1 <= h <= after.ids.len() && after.names[h - 1] is None implies (
        #[trigger] after.forest.parent(h)) is None by {
            if h < fresh {
                assert(after.forest.parent(h) == tree.forest.parent(h));
                assert(after.names[h - 1] == tree.names[h - 1]);
            }
        }
        assert(after.forest.parent(TRASH as int) == tree.forest.parent(TRASH as int));
        assert(after.forest.parent(MAIN as int) == tree.forest.parent(MAIN as int));
        assert forall|other: Seq<char>|
            #![trigger after.ids.contains(other)]
            after.ids.contains(other) <==> tree.ids.contains(other) || other == id by {
            if tree.ids.contains(other) {
                let k = choose|k: int| 0 <= k < tree.ids.len() && tree.ids[k] == other;
                assert(after.ids[k] == other);
            }
            if after.ids.contains(other) {
                let k = choose|k: int| 0 <= k < after.ids.len() && after.ids[k] == other;
                if k < tree.ids.len() {
                    assert(tree.ids[k] == other);
                }
            }
        }
    }
}

/// Putting a document into a folder keeps a tree well-formed.
pub proof fn lemma_with_file_wf(tree: TreeModel, id: Seq<char>, parent: Seq<char>, name: Seq<char>)
    requires
        tree.wf(),
    ensures
        tree.with_file(id, parent, name).wf(),
{
    lemma_ensured(tree, parent);
}

/// Hanging a folder that the tree does not refuse keeps the tree well-formed.
pub proof fn lemma_with_folder_wf(
    tree: TreeModel,
    id: Seq<char>,
    parent: Seq<char>,
    name: Seq<char>,
)
    requires
        tree.wf(),
        tree.folder_refusal(id, parent) is None,
    ensures
        tree.with_folder(id, parent, name).wf(),
        !tree.ensured(id).ensured(parent).forest.is_above(
            tree.ensured(id).ensured(parent).find(id)->0,
            tree.ensured(id).ensured(parent).find(parent)->0,
        ),
        tree.ensured(id).ensured(parent).names[tree.ensured(id).ensured(parent).find(id)->0 - 1]
            is None,
        tree.ensured(id).ensured(parent).find(id) != tree.ensured(id).ensured(parent).find(parent),
{
    lemma_ensured(tree, id);
    let first = tree.ensured(id);
    lemma_ensured(first, parent);
    let both = first.ensured(parent);
    let child = both.find(id)->0;
    let above = both.find(parent)->0;
    let c1 = first.find(id)->0;
    assert(first.has(c1));
    assert(both.has(c1) && both.ids[c1 - 1] == id);
    both.lemma_find(id, c1);
    assert(child == c1);
    assert(child != above);
    // The folder has no name yet, and so no parent.
    if tree.ids.contains(id) {
        let c0 = tree.find(id)->0;
        assert(tree.ids[c0 - 1] == id);
        assert(tree.has(c0));
        assert(first.has(c0));
        first.lemma_find(id, c0);
        assert(tree.names[c0 - 1] is None);
    } else {
        assert(first.has(c1) && !tree.has(c1));
    }
    assert(both.names[child - 1] is None);
    assert(both.forest.parent(child) is None);
    lemma_chain_shape(both.forest, above, both.forest.size());
    assert(!both.forest.is_above(child, above)) by {
        if !tree.ids.contains(id) {
            // made just now: no children, so above nothing
            assert(first.has(c1) && !tree.has(c1));
            assert(both.forest.kids(child) == Seq::<int>::empty());
            let chain = both.forest.ancestors(above);
            if chain.contains(child) {
                let k = choose|k: int| 0 <= k < chain.len() && chain[k] == child;
                assert(k >= 1);
                assert(both.forest.kids(chain[k]).len() > 0);
            }
        } else if !first.ids.contains(parent) {
            // made just now: no parent, so nothing above it
            assert(both.has(above) && !first.has(above));
            assert(both.forest.ancestors(above) == seq![above]);
        } else {
            assert(both == tree);
        }
    }
    lemma_with_child_wf(both.forest, above, child);
    let after = tree.with_folder(id, parent, name);
    assert forall|h: int| 1 <= h <= after.ids.len() && after.names[h - 1] is None implies (
    #[trigger] after.forest.parent(h)) is None by {
        assert(h != child);
        assert(after.forest.parent(h) == both.forest.parent(h));
        assert(after.names[h - 1] == both.names[h - 1]);
    }
    assert(child > 2) by {
        if child <= 2 {
            assert(both.names[0] is Some && both.names[1] is Some);
        }
    }
}

/// Whether the record speaks of the folder `id`: as the folder it describes
/// or as the folder that its item lies in.
pub open spec fn mentions(record: RecordModel, id: Seq<char>) -> bool {
    record.parent == id || (record.kind == Kind::Collection && record.id == id)
}

/// Whether the record says that one folder hangs under another.
pub open spec fn gives_link(record: RecordModel, link: Link) -> bool {
    record.kind == Kind::Collection && link == (Link { child: record.id, parent: record.parent })
}

/// Whether the record says that a folder shows a name.
pub open spec fn gives_name(record: RecordModel, shown: Shown) -> bool {
    record.kind == Kind::Collection && shown == (Shown { id: record.id, name: record.name })
}

/// Whether the record says that a document lies in a folder.
pub open spec fn gives_file(record: RecordModel, filed: Filed) -> bool {
    record.kind == Kind::Document && filed == (Filed {
        folder: record.parent,
        id: record.id,
        name: record.name,
    })
}

/// What the records say, in whatever order they stand: the two roots are
/// there with their names, and every record adds what it says.
pub open spec fn record_shape(records: Seq<RecordModel>) -> Shape {
    Shape {
        folders: Set::new(
            |id: Seq<char>|
                id == trash_id() || id == main_id() || exists|r: RecordModel|
                    records.contains(r) && #[trigger] mentions(r, id),
        ),
        links: Set::new(
            |link: Link| exists|r: RecordModel| records.contains(r) && #[trigger] gives_link(r, link),
        ),
        names: Set::new(
            |shown: Shown|
                shown == (Shown { id: trash_id(), name: trash_id() }) || shown == (Shown {
                    id: main_id(),
                    name: main_id(),
                }) || exists|r: RecordModel| records.contains(r) && #[trigger] gives_name(r, shown),
        ),
        files: Set::new(
            |filed: Filed|
                exists|r: RecordModel| records.contains(r) && #[trigger] gives_file(r, filed),
        ),
    }
}

impl Shape {
    /// The shape with what one more record says.
    pub open spec fn plus(self, record: RecordModel) -> Shape {
        match record.kind {
            Kind::Document => Shape {
                folders: self.folders.insert(record.parent),
                links: self.links,
                names: self.names,
                files: self.files.insert(
                    Filed { folder: record.parent, id: record.id, name: record.name },
                ),
            },
            Kind::Collection => Shape {
                folders: self.folders.insert(record.id).insert(record.parent),
                links: self.links.insert(Link { child: record.id, parent: record.parent }),
                names: self.names.insert(Shown { id: record.id, name: record.name }),
                files: self.files,
            },
        }
    }
}

/// Records in another order say the same.
pub proof fn lemma_record_shape_unordered(first: Seq<RecordModel>, second: Seq<RecordModel>)
    requires
        first.to_multiset() == second.to_multiset(),
    ensures
        record_shape(first) == record_shape(second),
{
    first.to_multiset_ensures();
    second.to_multiset_ensures();
    assert forall|r: RecordModel| first.contains(r) <==> second.contains(r) by {
        assert(first.contains(r) <==> first.to_multiset().count(r) > 0);
        assert(second.contains(r) <==> second.to_multiset().count(r) > 0);
    }
    let a = record_shape(first);
    let b = record_shape(second);
    assert(a.folders =~= b.folders);
    assert(a.links =~= b.links);
    assert(a.names =~= b.names);
    assert(a.files =~= b.files);
}

/// One more record says what the records before it said, and what it says
/// itself.
pub proof fn lemma_record_shape_push(records: Seq<RecordModel>, record: RecordModel)
    ensures
        record_shape(records.push(record)) == record_shape(records).plus(record),
{
    let longer = records.push(record);
    assert forall|r: RecordModel| longer.contains(r) <==> records.contains(r) || r == record by {
        if records.contains(r) {
            let i = choose|i: int| 0 <= i < records.len() && records[i] == r;
            assert(longer[i] == r);
        }
        if longer.contains(r) {
            let i = choose|i: int| 0 <= i < longer.len() && longer[i] == r;
            if i < records.len() {
                assert(records[i] == r);
            }
        }
        assert(longer[records.len() as int] == record);
    }
    let a = record_shape(longer);
    let b = record_shape(records).plus(record);
    assert forall|id: Seq<char>| a.folders.contains(id) <==> b.folders.contains(id) by {
        if exists|r: RecordModel| longer.contains(r) && #[trigger] mentions(r, id) {
            let r = choose|r: RecordModel| longer.contains(r) && #[trigger] mentions(r, id);
            if r != record {
                assert(records.contains(r) && mentions(r, id));
            }
        }
        if exists|r: RecordModel| records.contains(r) && #[trigger] mentions(r, id) {
            let r = choose|r: RecordModel| records.contains(r) && #[trigger] mentions(r, id);
            assert(longer.contains(r) && mentions(r, id));
        }
        if mentions(record, id) {
            assert(longer.contains(record) && mentions(record, id));
        }
    }
    assert(a.folders =~= b.folders);
    assert forall|link: Link| a.links.contains(link) <==> b.links.contains(link) by {
        if exists|r: RecordModel| longer.contains(r) && #[trigger] gives_link(r, link) {
            let r = choose|r: RecordModel| longer.contains(r) && #[trigger] gives_link(r, link);
            if r != record {
                assert(records.contains(r) && gives_link(r, link));
            }
        }
        if exists|r: RecordModel| records.contains(r) && #[trigger] gives_link(r, link) {
            let r = choose|r: RecordModel| records.contains(r) && #[trigger] gives_link(r, link);
            assert(longer.contains(r) && gives_link(r, link));
        }
        if gives_link(record, link) {
            assert(longer.contains(record) && gives_link(record, link));
        }
    }
    assert(a.links =~= b.links);
    assert forall|shown: Shown| a.names.contains(shown) <==> b.names.contains(shown) by {
        if exists|r: RecordModel| longer.contains(r) && #[trigger] gives_name(r, shown) {
            let r = choose|r: RecordModel| longer.contains(r) && #[trigger] gives_name(r, shown);
            if r != record {
                assert(records.contains(r) && gives_name(r, shown));
            }
        }
        if exists|r: RecordModel| records.contains(r) && #[trigger] gives_name(r, shown) {
            let r = choose|r: RecordModel| records.contains(r) && #[trigger] gives_name(r, shown);
            assert(longer.contains(r) && gives_name(r, shown));
        }
        if gives_name(record, shown) {
            assert(longer.contains(record) && gives_name(record, shown));
        }
    }
    assert(a.names =~= b.names);
    assert forall|filed: Filed| a.files.contains(filed) <==> b.files.contains(filed) by {
        if exists|r: RecordModel| longer.contains(r) && #[trigger] gives_file(r, filed) {
            let r = choose|r: RecordModel| longer.contains(r) && #[trigger] gives_file(r, filed);
            if r != record {
                assert(records.contains(r) && gives_file(r, filed));
            }
        }
        if exists|r: RecordModel| records.contains(r) && #[trigger] gives_file(r, filed) {
            let r = choose|r: RecordModel| records.contains(r) && #[trigger] gives_file(r, filed);
            assert(longer.contains(r) && gives_file(r, filed));
        }
        if gives_file(record, filed) {
            assert(longer.contains(record) && gives_file(record, filed));
        }
    }
    assert(a.files =~= b.files);
}

/// No records say what the tree of the two roots says.
pub proof fn lemma_initial_shape()
    ensures
        TreeModel::initial().shape() == record_shape(Seq::<RecordModel>::empty()),
{
    let tree = TreeModel::initial();
    let a = tree.shape();
    let b = record_shape(Seq::<RecordModel>::empty());
    assert forall|id: Seq<char>| a.folders.contains(id) <==> b.folders.contains(id) by {
        if tree.ids.contains(id) {
            let k = choose|k: int| 0 <= k < tree.ids.len() && tree.ids[k] == id;
            assert(k == 0 || k == 1);
        }
        assert(tree.ids[0] == trash_id());
        assert(tree.ids[1] == main_id());
    }
    assert(a.folders =~= b.folders);
    assert forall|link: Link| a.links.contains(link) <==> b.links.contains(link) by {
        if exists|h: int| tree.links_at(h, link) {
            let h = choose|h: int| tree.links_at(h, link);
            assert(h == 1 || h == 2);
        }
    }
    assert(a.links =~= b.links);
    assert forall|shown: Shown| a.names.contains(shown) <==> b.names.contains(shown) by {
        if exists|h: int| tree.shown_at(h, shown) {
            let h = choose|h: int| tree.shown_at(h, shown);
            assert(h == 1 || h == 2);
        }
        if shown == (Shown { id: trash_id(), name: trash_id() }) {
            assert(tree.shown_at(1, shown));
        }
        if shown == (Shown { id: main_id(), name: main_id() }) {
            assert(tree.shown_at(2, shown));
        }
    }
    assert(a.names =~= b.names);
    assert forall|filed: Filed| a.files.contains(filed) <==> b.files.contains(filed) by {
        if exists|h: int, i: int| tree.filed_at(h, i, filed) {
            let (h, i) = choose|h: int, i: int| tree.filed_at(h, i, filed);
            assert(h == 1 || h == 2);
        }
    }
    assert(a.files =~= b.files);
}

/// Making sure that a folder is there adds the folder to what a tree says,
/// and nothing else.
pub proof fn lemma_ensured_shape(tree: TreeModel, id: Seq<char>)
    requires
        tree.wf(),
    ensures
        tree.ensured(id).shape() == (Shape {
            folders: tree.shape().folders.insert(id),
            links: tree.shape().links,
            names: tree.shape().names,
            files: tree.shape().files,
        }),
{
    lemma_ensured(tree, id);
    let after = tree.ensured(id);
    let a = after.shape();
    let b = tree.shape();
    assert(a.folders =~= b.folders.insert(id));
    assert forall|link: Link| a.links.contains(link) <==> b.links.contains(link) by {
        if exists|h: int| after.links_at(h, link) {
            let h = choose|h: int| after.links_at(h, link);
            assert(after.has(h));
            assert(tree.has(h));
            assert(tree.forest.is_live(tree.forest.parent(h)->0));
            assert(after.has(tree.forest.parent(h)->0));
            assert(tree.links_at(h, link));
        }
        if exists|h: int| tree.links_at(h, link) {
            let h = choose|h: int| tree.links_at(h, link);
            assert(after.has(h));
            assert(tree.forest.is_live(tree.forest.parent(h)->0));
            assert(after.has(tree.forest.parent(h)->0));
            assert(after.links_at(h, link));
        }
    }
    assert(a.links =~= b.links);
    assert forall|shown: Shown| a.names.contains(shown) <==> b.names.contains(shown) by {
        if exists|h: int| after.shown_at(h, shown) {
            let h = choose|h: int| after.shown_at(h, shown);
            assert(after.has(h));
            assert(tree.shown_at(h, shown));
        }
        if exists|h: int| tree.shown_at(h, shown) {
            let h = choose|h: int| tree.shown_at(h, shown);
            assert(after.has(h));
            assert(after.shown_at(h, shown));
        }
    }
    assert(a.names =~= b.names);
    assert forall|filed: Filed| a.files.contains(filed) <==> b.files.contains(filed) by {
        if exists|h: int, i: int| after.filed_at(h, i, filed) {
            let (h, i) = choose|h: int, i: int| after.filed_at(h, i, filed);
            assert(after.has(h));
            assert(tree.filed_at(h, i, filed));
        }
        if exists|h: int, i: int| tree.filed_at(h, i, filed) {
            let (h, i) = choose|h: int, i: int| tree.filed_at(h, i, filed);
            assert(after.has(h));
            assert(after.filed_at(h, i, filed));
        }
    }
    assert(a.files =~= b.files);
}

/// Putting a document into a folder adds to what a tree says what the
/// document's record says.
pub proof fn lemma_with_file_shape(
    tree: TreeModel,
    id: Seq<char>,
    parent: Seq<char>,
    name: Seq<char>,
)
    requires
        tree.wf(),
    ensures
        tree.with_file(id, parent, name).shape() == tree.shape().plus(
            RecordModel { id, parent, name, kind: Kind::Document },
        ),
{
    lemma_ensured(tree, parent);
    lemma_ensured_shape(tree, parent);
    let mid = tree.ensured(parent);
    let folder = mid.find(parent)->0;
    let after = tree.with_file(id, parent, name);
    let a = after.shape();
    let m = mid.shape();
    let added = Filed { folder: parent, id, name };
    assert(a.folders =~= m.folders);
    assert forall|link: Link| a.links.contains(link) <==> m.links.contains(link) by {
        if exists|h: int| after.links_at(h, link) {
            let h = choose|h: int| after.links_at(h, link);
            assert(mid.links_at(h, link));
        }
        if exists|h: int| mid.links_at(h, link) {
            let h = choose|h: int| mid.links_at(h, link);
            assert(after.links_at(h, link));
        }
    }
    assert(a.links =~= m.links);
    assert forall|shown: Shown| a.names.contains(shown) <==> m.names.contains(shown) by {
        if exists|h: int| after.shown_at(h, shown) {
            let h = choose|h: int| after.shown_at(h, shown);
            assert(mid.shown_at(h, shown));
        }
        if exists|h: int| mid.shown_at(h, shown) {
            let h = choose|h: int| mid.shown_at(h, shown);
            assert(after.shown_at(h, shown));
        }
    }
    assert(a.names =~= m.names);
    assert forall|filed: Filed| a.files.contains(filed) <==> m.files.insert(added).contains(
        filed,
    ) by {
        if exists|h: int, i: int| after.filed_at(h, i, filed) {
            let (h, i) = choose|h: int, i: int| after.filed_at(h, i, filed);
            if h == folder && i == mid.files[folder - 1].len() {
                assert(filed == added);
            } else {
                assert(mid.filed_at(h, i, filed));
            }
        }
        if exists|h: int, i: int| mid.filed_at(h, i, filed) {
            let (h, i) = choose|h: int, i: int| mid.filed_at(h, i, filed);
            assert(after.filed_at(h, i, filed));
        }
        if filed == added {
            assert(after.filed_at(folder, mid.files[folder - 1].len() as int, filed));
        }
    }
    assert(a.files =~= m.files.insert(added));
}

/// Hanging a folder that the tree does not refuse adds to what the tree says
/// what the folder's record says.
pub proof fn lemma_with_folder_shape(
    tree: TreeModel,
    id: Seq<char>,
    parent: Seq<char>,
    name: Seq<char>,
)
    requires
        tree.wf(),
        tree.folder_refusal(id, parent) is None,
    ensures
        tree.with_folder(id, parent, name).shape() == tree.shape().plus(
            RecordModel { id, parent, name, kind: Kind::Collection },
        ),
{
    lemma_ensured(tree, id);
    lemma_ensured_shape(tree, id);
    let first = tree.ensured(id);
    lemma_ensured(first, parent);
    lemma_ensured_shape(first, parent);
    lemma_with_folder_wf(tree, id, parent, name);
    let mid = first.ensured(parent);
    let child = mid.find(id)->0;
    let above = mid.find(parent)->0;
    assert(mid.ids.contains(id));
    assert(mid.ids[mid.ids.index_of(id)] == id);
    assert(mid.has(child) && mid.ids[child - 1] == id);
    assert(mid.has(above) && mid.ids[above - 1] == parent);
    assert(mid.forest.parent(child) is None);
    let after = tree.with_folder(id, parent, name);
    let a = after.shape();
    let m = mid.shape();
    let link_added = Link { child: id, parent };
    let name_added = Shown { id, name };
    assert(a.folders =~= m.folders);
    assert forall|link: Link| a.links.contains(link) <==> m.links.insert(link_added).contains(
        link,
    ) by {
        if exists|h: int| after.links_at(h, link) {
            let h = choose|h: int| after.links_at(h, link);
            if h == child {
                assert(link == link_added);
            } else {
                assert(after.forest.parent(h) == mid.forest.parent(h));
                assert(mid.links_at(h, link));
            }
        }
        if exists|h: int| mid.links_at(h, link) {
            let h = choose|h: int| mid.links_at(h, link);
            assert(h != child);
            assert(after.forest.parent(h) == mid.forest.parent(h));
            assert(after.links_at(h, link));
        }
        if link == link_added {
            assert(after.forest.parent(child) == Some(above));
            assert(after.links_at(child, link));
        }
    }
    assert(a.links =~= m.links.insert(link_added));
    assert forall|shown: Shown| a.names.contains(shown) <==> m.names.insert(name_added).contains(
        shown,
    ) by {
        if exists|h: int| after.shown_at(h, shown) {
            let h = choose|h: int| after.shown_at(h, shown);
            if h == child {
                assert(shown == name_added);
            } else {
                assert(mid.shown_at(h, shown));
            }
        }
        if exists|h: int| mid.shown_at(h, shown) {
            let h = choose|h: int| mid.shown_at(h, shown);
            assert(h != child);
            assert(after.shown_at(h, shown));
        }
        if shown == name_added {
            assert(after.shown_at(child, shown));
        }
    }
    assert(a.names =~= m.names.insert(name_added));
    assert forall|filed: Filed| a.files.contains(filed) <==> m.files.contains(filed) by {
        if exists|h: int, i: int| after.filed_at(h, i, filed) {
            let (h, i) = choose|h: int, i: int| after.filed_at(h, i, filed);
            assert(mid.filed_at(h, i, filed));
        }
        if exists|h: int, i: int| mid.filed_at(h, i, filed) {
            let (h, i) = choose|h: int, i: int| mid.filed_at(h, i, filed);
            assert(after.filed_at(h, i, filed));
        }
    }
    assert(a.files =~= m.files);
}

/// The library after `records`.
pub open spec fn built(records: Seq<RecordModel>) -> LibraryModel {
    LibraryModel::start().with_records(records)
}

/// Whether the library took every one of `records` into its tree.
pub open spec fn all_accepted(records: Seq<RecordModel>) -> bool {
    built(records).rejected.len() == 0
}

/// Taking a record in keeps the tree well-formed, and what was rejected
/// stays rejected.
pub proof fn lemma_with_record(library: LibraryModel, record: RecordModel)
    requires
        library.tree.wf(),
    ensures
        library.with_record(record).tree.wf(),
        library.with_record(record).rejected.len() >= library.rejected.len(),
        library.with_record(record).rejected.len() == library.rejected.len() ==> library.with_record(
            record,
        ).tree.shape() == library.tree.shape().plus(record),
{
    match record.kind {
        Kind::Document => {
            lemma_with_file_wf(library.tree, record.id, record.parent, record.name);
            lemma_with_file_shape(library.tree, record.id, record.parent, record.name);
        },
        Kind::Collection => {
            if library.tree.folder_refusal(record.id, record.parent) is None {
                lemma_with_folder_wf(library.tree, record.id, record.parent, record.name);
                lemma_with_folder_shape(library.tree, record.id, record.parent, record.name);
            }
        },
    }
}

/// A library that took every record into its tree says what the records
/// say.
pub proof fn lemma_built_shape(records: Seq<RecordModel>)
    ensures
        built(records).tree.wf(),
        all_accepted(records) ==> built(records).tree.shape() == record_shape(records),
        records.len() > 0 ==> built(records).rejected.len() >= built(
            records.drop_last(),
        ).rejected.len(),
    decreases records.len(),
{
    if records.len() == 0 {
        lemma_initial_wf();
        lemma_initial_shape();
    } else {
        let front = records.drop_last();
        lemma_built_shape(front);
        lemma_with_record(built(front), records.last());
        lemma_record_shape_push(front, records.last());
        assert(front.push(records.last()) =~= records);
    }
}

/// A folder hangs under one folder and shows one name: no two links of a tree
/// have the same child, and no folder is shown under two names.
pub proof fn lemma_one_parent(tree: TreeModel, first: Link, second: Link)
    requires
        tree.wf(),
        tree.shape().links.contains(first),
        tree.shape().links.contains(second),
        first.child == second.child,
    ensures
        first == second,
{
    let h = choose|h: int| tree.links_at(h, first);
    let k = choose|k: int| tree.links_at(k, second);
    assert(tree.ids[h - 1] == tree.ids[k - 1]);
}

/// Where a folder hangs it stays: a record that is taken in changes no link
/// of the tree, it can only add one.
pub proof fn lemma_links_stay(library: LibraryModel, record: RecordModel, link: Link)
    requires
        library.tree.wf(),
        library.tree.shape().links.contains(link),
    ensures
        library.with_record(record).tree.shape().links.contains(link),
{
    lemma_with_record(library, record);
}

} // verus!

//! The folder tree of the tablet's library: folders and documents addressed by
//! their identifiers, built from records that may arrive in any order.
pub mod acceptance;
pub mod arena;
pub mod library;
pub mod descent;
pub mod forest;
pub mod laws;
pub mod metadata;
pub mod shape;

use crate::directory::arena::{checked_append, forest_of, new_arena, new_node};
use crate::directory::forest::{
    lemma_chain_shape, lemma_empty_wf, lemma_with_child_wf, lemma_with_node_wf, Forest,
};
use indextree::Arena;
use crate::directory::arena::{ancestors, children, descendants, handles};
use crate::directory::forest::{lemma_chain_live, lemma_walk_live};
use crate::text::{dictionary, sort, split, split_spec, views};
use vstd::prelude::*;
use vstd::std_specs::convert::FromSpecImpl;
use vstd::string::StringExecFns;

verus! {

/// The identifier under which the tablet stores a document or a folder.
#[derive(Eq, PartialEq, Hash, Debug, Clone)]
pub struct Uuid(String);

impl View for Uuid {
    type V = Seq<char>;

    closed spec fn view(&self) -> Seq<char> {
        self.0@
    }
}

impl From<&str> for Uuid {
    fn from(s: &str) -> (id: Uuid)
        ensures
            id@ == s@,
    {
        Uuid(s.to_owned())
    }
}

impl FromSpecImpl<&str> for Uuid {
    open spec fn obeys_from_spec() -> bool {
        false
    }

    open spec fn from_spec(s: &str) -> Uuid {
        arbitrary()
    }
}

impl Uuid {
    /// The identifier written as `id`.
    pub fn new(id: String) -> (uuid: Uuid)
        ensures
            uuid@ == id@,
    {
        Uuid(id)
    }

    /// The identifier as text.
    pub fn as_str(&self) -> (s: &str)
        ensures
            s@ == self@,
    {
        self.0.as_str()
    }

    /// The identifier as a string of its own.
    pub fn to_string(&self) -> (s: String)
        ensures
            s@ == self@,
    {
        self.0.clone()
    }

    /// A second copy of the identifier.
    pub fn duplicate(&self) -> (copy: Uuid)
        ensures
            copy@ == self@,
    {
        Uuid(self.0.clone())
    }

    /// Whether both are the same identifier.
    pub fn same(&self, other: &Uuid) -> (r: bool)
        ensures
            r == (self@ == other@),
    {
        self.0 == other.0
    }
}

/// What a tree knows of one document: its identifier and the name it shows.
pub ghost struct FileModel {
    pub id: Seq<char>,
    pub name: Seq<char>,
}

/// A document in a folder.
pub struct File {
    uuid: Uuid,
    name: String,
}

impl View for File {
    type V = FileModel;

    closed spec fn view(&self) -> FileModel {
        FileModel { id: self.uuid@, name: self.name@ }
    }
}

impl File {
    /// The document `uuid`, shown as `name`.
    pub fn new(uuid: Uuid, name: String) -> (file: File)
        ensures
            file@ == (FileModel { id: uuid@, name: name@ }),
    {
        File { uuid, name }
    }

    /// The document's identifier.
    pub fn uuid(&self) -> (uuid: &Uuid)
        ensures
            uuid@ == self@.id,
    {
        &self.uuid
    }

    /// The name the document shows.
    pub fn name(&self) -> (name: &str)
        ensures
            name@ == self@.name,
    {
        self.name.as_str()
    }

    /// The document as it is listed: by its name.
    pub fn to_string(&self) -> (s: String)
        ensures
            s@ == self@.name,
    {
        self.name.clone()
    }
}

/// A folder of one tree.
#[derive(Clone, Copy, Debug, PartialEq, Eq, Structural)]
pub struct NodeRef {
    handle: usize,
}

impl View for NodeRef {
    type V = int;

    closed spec fn view(&self) -> int {
        self.handle as int
    }
}

/// Why a tree refused a request.
#[derive(Clone, Copy, Debug, PartialEq, Eq, Structural)]
pub enum TreeError {
    /// The folder is not one of this tree.
    UnknownNode,
    /// A folder was named as its own parent.
    OwnParent,
    /// The folder has been added before, or is one of the two roots.
    Duplicate,
    /// The folder lies above the one that was to become its parent.
    Cycle,
    /// The folder, or one above it, has no name yet.
    Unnamed,
}

/// The identifier of the main root, under which the library hangs.
pub open spec fn main_id() -> Seq<char> {
    ""@
}

/// The identifier of the trash.
pub open spec fn trash_id() -> Seq<char> {
    "trash"@
}

/// The handle of the trash.
pub const TRASH: usize = 1;

/// The handle of the main root.
pub const MAIN: usize = 2;

/// The mathematical content of a tree. Folder `h` has the identifier
/// `ids[h - 1]`, the name `names[h - 1]` and the documents `files[h - 1]`; its
/// place among the folders is in `forest`.
pub ghost struct TreeModel {
    pub forest: Forest,
    pub ids: Seq<Seq<char>>,
    pub names: Seq<Option<Seq<char>>>,
    pub files: Seq<Seq<FileModel>>,
}

impl TreeModel {
    /// The tree that holds the two roots and nothing else.
    pub open spec fn initial() -> TreeModel {
        TreeModel {
            forest: Forest {
                parents: seq![None, None],
                children: seq![Some(Seq::empty()), Some(Seq::empty())],
            },
            ids: seq![trash_id(), main_id()],
            names: seq![Some(trash_id()), Some(main_id())],
            files: seq![Seq::empty(), Seq::empty()],
        }
    }

    /// The number of folders, the roots included.
    pub open spec fn size(self) -> nat {
        self.ids.len()
    }

    /// Whether `handle` is a folder of this tree.
    pub open spec fn has(self, handle: int) -> bool {
        1 <= handle <= self.ids.len()
    }

    /// Well-formed: the links form a forest over exactly the folders, no
    /// identifier names two folders, the two roots are in their places, and a
    /// folder without a name hangs under no other folder.
    pub open spec fn wf(self) -> bool {
        &&& self.forest.wf()
        &&& self.forest.size() == self.ids.len()
        &&& self.names.len() == self.ids.len()
        &&& self.files.len() == self.ids.len()
        &&& self.ids.no_duplicates()
        &&& self.ids.len() >= 2
        &&& self.ids[0] == trash_id()
        &&& self.ids[1] == main_id()
        &&& self.names[0] == Some(trash_id())
        &&& self.names[1] == Some(main_id())
        &&& self.forest.parent(TRASH as int) is None
        &&& self.forest.parent(MAIN as int) is None
        &&& forall|h: int|
            1 <= h <= self.ids.len() && self.names[h - 1] is None ==> (
            #[trigger] self.forest.parent(h)) is None
    }

    /// The folder with the identifier `id`, if there is one.
    pub open spec fn find(self, id: Seq<char>) -> Option<int> {
        if self.ids.contains(id) {
            Some(self.ids.index_of(id) + 1)
        } else {
            None
        }
    }

    /// In a tree without doubled identifiers, the folder whose identifier is
    /// `id` is the one that `find` gives.
    pub proof fn lemma_find(self, id: Seq<char>, handle: int)
        requires
            self.ids.no_duplicates(),
            self.has(handle),
            self.ids[handle - 1] == id,
        ensures
            self.find(id) == Some(handle),
    {
        assert(self.ids.contains(id));
        let found = self.ids.index_of(id);
        assert(self.ids[found] == id);
    }

    /// The tree with one more folder `id`, without name, parent, children or
    /// documents.
    pub open spec fn with_placeholder(self, id: Seq<char>) -> TreeModel {
        TreeModel {
            forest: self.forest.with_node(self.forest.next()),
            ids: self.ids.push(id),
            names: self.names.push(None),
            files: self.files.push(Seq::empty()),
        }
    }

    /// The tree in which `id` names a folder: this tree if it does already.
    pub open spec fn ensured(self, id: Seq<char>) -> TreeModel {
        if self.ids.contains(id) {
            self
        } else {
            self.with_placeholder(id)
        }
    }

    /// The tree after the document `id`, shown as `name`, was put last into the
    /// folder `parent`.
    pub open spec fn with_file(self, id: Seq<char>, parent: Seq<char>, name: Seq<char>) -> TreeModel {
        let tree = self.ensured(parent);
        let folder = tree.find(parent)->0;
        TreeModel {
            forest: tree.forest,
            ids: tree.ids,
            names: tree.names,
            files: tree.files.update(
                folder - 1,
                tree.files[folder - 1].push(FileModel { id, name }),
            ),
        }
    }

    /// Why the folder `id` cannot be hung under `parent`, if it cannot.
    pub open spec fn folder_refusal(self, id: Seq<char>, parent: Seq<char>) -> Option<TreeError> {
        if id == parent {
            Some(TreeError::OwnParent)
        } else if self.find(id) is Some && self.names[self.find(id)->0 - 1] is Some {
            Some(TreeError::Duplicate)
        } else if self.find(id) is Some && self.find(parent) is Some && self.forest.ancestors(
            self.find(parent)->0,
        ).contains(self.find(id)->0) {
            Some(TreeError::Cycle)
        } else {
            None
        }
    }

    /// The tree after the folder `id`, shown as `name`, was hung last under the
    /// folder `parent`.
    pub open spec fn with_folder(self, id: Seq<char>, parent: Seq<char>, name: Seq<char>) -> TreeModel {
        let tree = self.ensured(id).ensured(parent);
        let child = tree.find(id)->0;
        let above = tree.find(parent)->0;
        TreeModel {
            forest: tree.forest.with_child(above, child),
            ids: tree.ids,
            names: tree.names.update(child - 1, Some(name)),
            files: tree.files,
        }
    }
}

/// `n` blanks.
pub open spec fn spaces(n: nat) -> Seq<char> {
    Seq::new(n, |i: int| ' ')
}

/// The line that shows a folder `indent` levels below the one that a listing
/// starts at.
pub open spec fn folder_line(indent: nat, name: Seq<char>) -> Seq<char> {
    if indent == 0 {
        name + "\n"@
    } else {
        spaces(4 * indent) + "|-- "@ + name + "\n"@
    }
}

/// The line that shows a document of a folder `indent` levels down.
pub open spec fn file_line(indent: nat, name: Seq<char>) -> Seq<char> {
    spaces(4 * indent) + "    |-- "@ + name + "\n"@
}

/// The lines that show the documents `names` in the order given.
pub open spec fn file_lines(indent: nat, names: Seq<Seq<char>>) -> Seq<char>
    decreases names.len(),
{
    if names.len() == 0 {
        Seq::empty()
    } else {
        file_lines(indent, names.drop_last()) + file_line(indent, names.last())
    }
}

/// The parts of a path between its slashes; the empty path has none.
pub open spec fn segments(path: Seq<char>) -> Seq<Seq<char>> {
    if path.len() == 0 {
        Seq::empty()
    } else {
        split_spec(path, '/')
    }
}

impl TreeModel {
    /// The first of `handles` whose folder is shown as `name`.
    pub open spec fn first_named(self, handles: Seq<int>, name: Seq<char>) -> Option<int>
        decreases handles.len(),
    {
        if handles.len() == 0 {
            None
        } else if self.names[handles[0] - 1] == Some(name) {
            Some(handles[0])
        } else {
            self.first_named(handles.drop_first(), name)
        }
    }

    /// The first child of `handle` that is shown as `name`. Where two children
    /// show the same name the later one cannot be reached.
    pub open spec fn child_named(self, handle: int, name: Seq<char>) -> Option<int> {
        self.first_named(self.forest.kids(handle), name)
    }

    /// The folder reached from `start` by going down through children named
    /// by `names`, one after the other.
    pub open spec fn descend(self, start: int, names: Seq<Seq<char>>) -> Option<int>
        decreases names.len(),
    {
        if names.len() == 0 {
            Some(start)
        } else {
            match self.descend(start, names.drop_last()) {
                Some(handle) => self.child_named(handle, names.last()),
                None => None,
            }
        }
    }

    /// The folder that `path` leads to from the main root.
    pub open spec fn resolve(self, path: Seq<char>) -> Option<int> {
        self.descend(MAIN as int, segments(path))
    }

    /// The identifiers of the documents that lie directly in `handles`, folder
    /// after folder, each folder's documents in the order they were added.
    pub open spec fn files_of(self, handles: Seq<int>) -> Seq<Seq<char>>
        decreases handles.len(),
    {
        if handles.len() == 0 {
            Seq::empty()
        } else {
            self.files_of(handles.drop_last()) + self.files[handles.last() - 1].map_values(
                |file: FileModel| file.id,
            )
        }
    }

    /// The identifiers of the documents in `handle` and in every folder below
    /// it, the folders taken in pre-order.
    pub open spec fn files_under(self, handle: int) -> Seq<Seq<char>> {
        self.files_of(self.forest.descendants(handle))
    }

    /// The names of the documents that lie directly in `handle`, in
    /// dictionary order.
    pub open spec fn sorted_file_names(self, handle: int) -> Seq<Seq<char>> {
        self.files[handle - 1].map_values(|file: FileModel| file.name).sort_by(dictionary())
    }

    /// The listing of `handle` and what lies below it down to depth `fuel`:
    /// the folder's line, its documents by name, then each child's listing,
    /// one level further in.
    pub open spec fn render(self, handle: int, indent: nat, fuel: nat) -> Seq<char>
        decreases fuel, 0nat,
    {
        if fuel == 0 || !self.has(handle) {
            Seq::empty()
        } else {
            folder_line(indent, self.names[handle - 1]->0) + file_lines(
                indent,
                self.sorted_file_names(handle),
            ) + self.render_all(self.forest.kids(handle), indent + 1, (fuel - 1) as nat)
        }
    }

    /// The listings of `handles`, one after the other.
    pub open spec fn render_all(self, handles: Seq<int>, indent: nat, fuel: nat) -> Seq<char>
        decreases fuel, handles.len() + 1,
    {
        if handles.len() == 0 {
            Seq::empty()
        } else {
            self.render_all(handles.drop_last(), indent, fuel) + self.render(
                handles.last(),
                indent,
                fuel,
            )
        }
    }

    /// The whole listing of `handle`. No path down is longer than the tree
    /// has folders.
    pub open spec fn listing(self, handle: int, indent: nat) -> Seq<char> {
        self.render(handle, indent, self.size())
    }

    /// The names of `handles`, in that order.
    pub open spec fn names_of(self, handles: Seq<int>) -> Seq<Seq<char>> {
        Seq::new(handles.len(), |i: int| self.names[handles[i] - 1]->0)
    }

    /// Whether each of `handles` has a name.
    pub open spec fn all_named(self, handles: Seq<int>) -> bool {
        forall|i: int| 0 <= i < handles.len() ==> (#[trigger] self.names[handles[i] - 1]) is Some
    }

    /// Whether `handle` can be listed, and why not if it cannot.
    pub open spec fn listable(self, handle: int) -> Result<(), TreeError> {
        if !self.has(handle) {
            Err(TreeError::UnknownNode)
        } else if self.names[handle - 1] is None {
            Err(TreeError::Unnamed)
        } else {
            Ok(())
        }
    }

    /// Once a path has led nowhere, going on leads nowhere.
    pub proof fn lemma_descend_stuck(self, start: int, names: Seq<Seq<char>>, k: int)
        requires
            0 <= k <= names.len(),
            self.descend(start, names.take(k)) is None,
        ensures
            self.descend(start, names) is None,
        decreases names.len() - k,
    {
        if k < names.len() {
            assert(names.take(k + 1).drop_last() == names.take(k));
            self.lemma_descend_stuck(start, names, k + 1);
        } else {
            assert(names.take(k) == names);
        }
    }
}

/// The identifiers of a list.
pub open spec fn id_views(list: Seq<Uuid>) -> Seq<Seq<char>> {
    Seq::new(list.len(), |i: int| list[i]@)
}

/// The names of a list, where they are set.
pub open spec fn name_views(list: Seq<Option<String>>) -> Seq<Option<Seq<char>>> {
    Seq::new(
        list.len(),
        |i: int|
            match list[i] {
                Some(name) => Some(name@),
                None => None,
            },
    )
}

/// The documents of a list.
pub open spec fn file_views(list: Seq<File>) -> Seq<FileModel> {
    Seq::new(list.len(), |i: int| list[i]@)
}

/// The documents of a list of lists.
pub open spec fn file_list_views(lists: Seq<Vec<File>>) -> Seq<Seq<FileModel>> {
    Seq::new(lists.len(), |i: int| file_views(lists[i]@))
}

/// The folders of the library with their documents.
pub struct Tree {
    arena: Arena<()>,
    ids: Vec<Uuid>,
    names: Vec<Option<String>>,
    files: Vec<Vec<File>>,
}

impl View for Tree {
    type V = TreeModel;

    closed spec fn view(&self) -> TreeModel {
        TreeModel {
            forest: forest_of(self.arena),
            ids: id_views(self.ids@),
            names: name_views(self.names@),
            files: file_list_views(self.files@),
        }
    }
}

impl Tree {
    /// Whether the tree is well-formed. Every tree that this module hands out
    /// is.
    pub open spec fn wf(&self) -> bool {
        self@.wf()
    }

    /// The tree with the trash and the main root and nothing else.
    pub fn new() -> (tree: Tree)
        ensures
            tree.wf(),
            tree@ == TreeModel::initial(),
    {
        let mut arena = new_arena();
        proof {
            lemma_empty_wf();
            assert(forest_of(arena) == Forest::empty());
            lemma_with_node_wf(forest_of(arena));
        }
        let trash = new_node(&mut arena);
        proof {
            lemma_with_node_wf(forest_of(arena));
        }
        let main = new_node(&mut arena);
        let mut ids: Vec<Uuid> = Vec::new();
        ids.push(Uuid("trash".to_owned()));
        ids.push(Uuid("".to_owned()));
        let mut names: Vec<Option<String>> = Vec::new();
        names.push(Some("trash".to_owned()));
        names.push(Some("".to_owned()));
        let mut files: Vec<Vec<File>> = Vec::new();
        files.push(Vec::new());
        files.push(Vec::new());
        let tree = Tree { arena, ids, names, files };
        proof {
            reveal_strlit("trash");
            reveal_strlit("");
            let model = tree@;
            assert(model.forest.parents =~= TreeModel::initial().forest.parents);
            assert(model.forest.children =~= TreeModel::initial().forest.children);
            assert(model.ids =~= TreeModel::initial().ids);
            assert(model.names =~= TreeModel::initial().names);
            assert(model.files =~= TreeModel::initial().files) by {
                assert(file_views(tree.files@[0]@) =~= Seq::<FileModel>::empty());
                assert(file_views(tree.files@[1]@) =~= Seq::<FileModel>::empty());
            }
            assert(trash_id().len() == 5);
            assert(main_id().len() == 0);
        }
        tree
    }

    /// The folder with the identifier `uuid`, if the tree has one.
    pub fn find(&self, uuid: &Uuid) -> (found: Option<NodeRef>)
        requires
            self.wf(),
        ensures
            found is Some == self@.find(uuid@) is Some,
            found matches Some(node) ==> self@.find(uuid@) == Some(node@),
    {
        match self.handle_of(uuid) {
            Some(handle) => Some(NodeRef { handle }),
            None => None,
        }
    }

    fn handle_of(&self, uuid: &Uuid) -> (found: Option<usize>)
        requires
            self.wf(),
        ensures
            found is Some == self@.find(uuid@) is Some,
            found matches Some(handle) ==> (self@.find(uuid@) == Some(handle as int)
                && self@.has(handle as int)),
    {
        let mut i: usize = 0;
        while i < self.ids.len()
            invariant
                self.wf(),
                i <= self.ids.len(),
                forall|k: int| 0 <= k < i ==> self@.ids[k] != uuid@,
            decreases self.ids.len() - i,
        {
            if self.ids[i].same(uuid) {
                proof {
                    self@.lemma_find(uuid@, i + 1);
                }
                return Some(i + 1);
            }
            i += 1;
        }
        None
    }

    /// The handle of the folder `uuid`, which is made if the tree has none.
    fn ensure(&mut self, uuid: &Uuid) -> (handle: usize)
        requires
            old(self).wf(),
        ensures
            final(self).wf(),
            final(self)@ == old(self)@.ensured(uuid@),
            final(self)@.find(uuid@) == Some(handle as int),
            final(self)@.has(handle as int),
            !old(self)@.ids.contains(uuid@) ==> handle == old(self)@.size() + 1,
    {
        match self.handle_of(uuid) {
            Some(handle) => handle,
            None => {
                proof {
                    lemma_with_node_wf(self@.forest);
                }
                let handle = new_node(&mut self.arena);
                assert(handle == old(self)@.size() + 1) by {
                    if handle <= old(self)@.size() {
                        assert(old(self)@.forest.is_live(handle as int));
                    }
                }
                self.ids.push(uuid.duplicate());
                self.names.push(None);
                self.files.push(Vec::new());
                proof {
                    let before = old(self)@;
                    let after = self@;
                    let wanted = before.with_placeholder(uuid@);
                    assert(after.forest == wanted.forest);
                    assert(after.ids =~= wanted.ids);
                    assert(after.names =~= wanted.names);
                    assert(after.files =~= wanted.files) by {
                        assert(file_views(self.files@[handle - 1]@) =~= Seq::<FileModel>::empty());
                    }
                    assert(after.ids[handle - 1] == uuid@);
                    assert(after.ids.no_duplicates());
                    after.lemma_find(uuid@, handle as int);
                    assert(after.forest.parent(TRASH as int) == before.forest.parent(TRASH as int));
                    assert(after.forest.parent(MAIN as int) == before.forest.parent(MAIN as int));
                    assert forall|h: int|
                        1 <= h <= after.ids.len() && after.names[h - 1] is None implies (
                    #[trigger] after.forest.parent(h)) is None by {
                        if h < handle {
                            assert(after.forest.parent(h) == before.forest.parent(h));
                            assert(after.names[h - 1] == before.names[h - 1]);
                        }
                    }
                }
                handle
            },
        }
    }

    /// Puts the document `uuid`, shown as `name`, last into the folder
    /// `parent_uuid`. A folder that the tree has not heard of yet is made
    /// first, without a name and under no other folder.
    pub fn add_file(&mut self, uuid: Uuid, parent_uuid: Uuid, name: String)
        requires
            old(self).wf(),
        ensures
            final(self).wf(),
            final(self)@ == old(self)@.with_file(uuid@, parent_uuid@, name@),
    {
        let folder = self.ensure(&parent_uuid);
        let ghost tree = self@;
        let file = File { uuid, name };
        self.files[folder - 1].push(file);
        proof {
            let wanted = old(self)@.with_file(uuid@, parent_uuid@, name@);
            assert(self@.files =~= wanted.files) by {
                assert(file_views(self.files@[folder - 1]@) =~= tree.files[folder - 1].push(file@));
            }
            assert(self@.forest == tree.forest);
            assert(self@.ids == tree.ids);
            assert(self@.names == tree.names);
        }
    }

    /// Hangs the folder `uuid`, shown as `name`, last under the folder
    /// `parent_uuid`. Either folder is made first if the tree has not heard of
    /// it yet. A folder hangs where it was first hung: a second request for
    /// it, one for a root, and one that would close a circle are refused and
    /// change nothing.
    pub fn add_folder(&mut self, uuid: Uuid, parent_uuid: Uuid, name: String) -> (r: Result<
        (),
        TreeError,
    >)
        requires
            old(self).wf(),
        ensures
            final(self).wf(),
            match old(self)@.folder_refusal(uuid@, parent_uuid@) {
                Some(why) => r == Err::<(), TreeError>(why) && final(self)@ == old(self)@,
                None => r is Ok && final(self)@ == old(self)@.with_folder(
                    uuid@,
                    parent_uuid@,
                    name@,
                ),
            },
    {
        if uuid.same(&parent_uuid) {
            return Err(TreeError::OwnParent);
        }
        match self.handle_of(&uuid) {
            Some(known) => {
                if self.names[known - 1].is_some() {
                    return Err(TreeError::Duplicate);
                }
            },
            None => {},
        }
        let child = self.ensure(&uuid);
        let ghost first = self@;
        let above = self.ensure(&parent_uuid);
        let ghost tree = self@;
        proof {
            assert(tree.ids[child - 1] == uuid@) by {
                assert(first.ids[child - 1] == uuid@);
            }
            tree.lemma_find(uuid@, child as int);
            assert(child != above);
            assert(tree.names[child - 1] is None);
            assert(tree.forest.parent(child as int) is None);
            lemma_chain_shape(tree.forest, above as int, tree.forest.size());
            if !old(self)@.ids.contains(uuid@) {
                // A folder made just now has no children, so it lies above nothing.
                assert(tree.forest.kids(child as int) == Seq::<int>::empty());
            }
            if !first.ids.contains(parent_uuid@) {
                // A folder made just now has no parent, so nothing lies above it.
                assert(tree.forest.ancestors(above as int) == seq![above as int]);
            }
        }
        match checked_append(&mut self.arena, above, child) {
            Ok(()) => {
                self.names.set(child - 1, Some(name));
                proof {
                    lemma_with_child_wf(tree.forest, above as int, child as int);
                    let wanted = old(self)@.with_folder(uuid@, parent_uuid@, name@);
                    assert(self@.forest == wanted.forest);
                    assert(self@.ids == wanted.ids);
                    assert(self@.names =~= wanted.names);
                    assert(self@.files == wanted.files);
                    assert forall|h: int|
                        1 <= h <= self@.ids.len() && self@.names[h - 1] is None implies (
                    #[trigger] self@.forest.parent(h)) is None by {
                        assert(h != child);
                        assert(self@.forest.parent(h) == tree.forest.parent(h));
                        assert(self@.names[h - 1] == tree.names[h - 1]);
                    }
                }
                Ok(())
            },
            Err(_) => {
                Err(TreeError::Cycle)
            },
        }
    }

    /// The folder with the identifier `uuid`, which the tree must have.
    pub fn root(&self, uuid: Uuid) -> (node: NodeRef)
        requires
            self.wf(),
            self@.ids.contains(uuid@),
        ensures
            self@.find(uuid@) == Some(node@),
            self@.has(node@),
    {
        match self.handle_of(&uuid) {
            Some(handle) => NodeRef { handle },
            None => NodeRef { handle: MAIN },
        }
    }

    /// The name that `node` shows, if it is a folder of this tree and has one.
    pub fn name_of(&self, node: NodeRef) -> (name: Option<String>)
        requires
            self.wf(),
        ensures
            match name {
                Some(name) => self@.has(node@) && self@.names[node@ - 1] == Some(name@),
                None => !self@.has(node@) || self@.names[node@ - 1] is None,
            },
    {
        if node.handle < 1 || node.handle > self.names.len() {
            return None;
        }
        match &self.names[node.handle - 1] {
            Some(name) => Some(name.clone()),
            None => None,
        }
    }

    /// How many folders the tree has, the two roots included.
    pub fn len(&self) -> (n: usize)
        requires
            self.wf(),
        ensures
            n == self@.size(),
    {
        self.ids.len()
    }

    /// The main root, under which the library hangs.
    pub fn main_root(&self) -> (node: NodeRef)
        ensures
            node@ == MAIN,
    {
        NodeRef { handle: MAIN }
    }

    /// The trash.
    pub fn trash_root(&self) -> (node: NodeRef)
        ensures
            node@ == TRASH,
    {
        NodeRef { handle: TRASH }
    }

    /// The first child of `node` that is shown as `name`.
    fn child_named(&self, node: usize, name: &str) -> (found: Option<usize>)
        requires
            self.wf(),
            self@.has(node as int),
        ensures
            found is Some == self@.child_named(node as int, name@) is Some,
            found matches Some(child) ==> (self@.child_named(node as int, name@) == Some(
                child as int,
            ) && self@.has(child as int)),
    {
        let wanted = name.to_owned();
        let kids = children(&self.arena, node);
        let ghost all = handles(kids@);
        assert(self@.forest.is_live(node as int));
        assert(all == self@.forest.kids(node as int));
        let mut i: usize = 0;
        assert(all.skip(0) == all);
        while i < kids.len()
            invariant
                self.wf(),
                self@.has(node as int),
                i <= kids.len(),
                all == handles(kids@),
                all == self@.forest.kids(node as int),
                wanted@ == name@,
                self@.first_named(all, name@) == self@.first_named(all.skip(i as int), name@),
            decreases kids.len() - i,
        {
            let kid = kids[i];
            proof {
                assert(all.skip(i as int)[0] == kid);
                assert(all.skip(i as int).drop_first() == all.skip(i + 1));
                assert(self@.forest.kids(node as int)[i as int] == kid);
                assert(self@.forest.is_live(kid as int));
            }
            let same = match &self.names[kid - 1] {
                Some(shown) => *shown == wanted,
                None => false,
            };
            if same {
                return Some(kid);
            }
            i += 1;
        }
        None
    }

    /// The folder that `path` leads to from the main root: the empty path to
    /// the root itself, any other through one child for each part between
    /// slashes. A path that leads nowhere comes back as the error.
    pub fn node_for(&self, path: &str) -> (r: Result<NodeRef, String>)
        requires
            self.wf(),
        ensures
            match self@.resolve(path@) {
                Some(handle) => r matches Ok(node) && node@ == handle && self@.has(handle),
                None => r matches Err(missing) && missing@ == path@,
            },
    {
        let mut node: usize = MAIN;
        if path.is_empty() {
            return Ok(NodeRef { handle: node });
        }
        let parts = split(path, '/');
        let ghost names = views(parts@);
        let mut i: usize = 0;
        assert(names.take(0) == Seq::<Seq<char>>::empty());
        while i < parts.len()
            invariant
                self.wf(),
                i <= parts.len(),
                names == views(parts@),
                names == segments(path@),
                self@.has(node as int),
                self@.descend(MAIN as int, names.take(i as int)) == Some(node as int),
            decreases parts.len() - i,
        {
            proof {
                assert(names.take(i + 1).drop_last() == names.take(i as int));
                assert(names.take(i + 1).last() == parts[i as int]@);
            }
            match self.child_named(node, parts[i].as_str()) {
                Some(child) => {
                    node = child;
                },
                None => {
                    proof {
                        self@.lemma_descend_stuck(MAIN as int, names, i + 1);
                    }
                    return Err(path.to_owned());
                },
            }
            i += 1;
        }
        assert(names.take(i as int) == names);
        Ok(NodeRef { handle: node })
    }

    /// The identifiers of the documents in `subroot` and in every folder
    /// below it.
    pub fn descendant_files(&self, subroot: NodeRef) -> (r: Result<Vec<Uuid>, TreeError>)
        requires
            self.wf(),
        ensures
            self@.has(subroot@) ==> (r matches Ok(list) && id_views(list@) == self@.files_under(
                subroot@,
            )),
            !self@.has(subroot@) ==> r == Err::<Vec<Uuid>, TreeError>(TreeError::UnknownNode),
    {
        if subroot.handle < 1 || subroot.handle > self.ids.len() {
            return Err(TreeError::UnknownNode);
        }
        assert(self@.forest.is_live(subroot@));
        let folders = descendants(&self.arena, subroot.handle);
        let ghost all = handles(folders@);
        proof {
            lemma_walk_live(self@.forest, subroot@, self@.forest.size());
        }
        let mut list: Vec<Uuid> = Vec::new();
        let mut i: usize = 0;
        assert(all.take(0) == Seq::<int>::empty());
        assert(id_views(list@) == Seq::<Seq<char>>::empty());
        while i < folders.len()
            invariant
                self.wf(),
                i <= folders.len(),
                all == handles(folders@),
                forall|k: int| 0 <= k < all.len() ==> self@.forest.is_live(#[trigger] all[k]),
                id_views(list@) == self@.files_of(all.take(i as int)),
            decreases folders.len() - i,
        {
            let folder = folders[i];
            proof {
                assert(all.take(i + 1).drop_last() == all.take(i as int));
                assert(all.take(i + 1).last() == folder);
                assert(self@.forest.is_live(all[i as int]));
            }
            let files = &self.files[folder - 1];
            let ghost before = id_views(list@);
            let ghost ids = self@.files[folder - 1].map_values(|file: FileModel| file.id);
            let mut j: usize = 0;
            while j < files.len()
                invariant
                    j <= files.len(),
                    file_views(files@) == self@.files[folder - 1],
                    ids == self@.files[folder - 1].map_values(|file: FileModel| file.id),
                    id_views(list@) == before + ids.take(j as int),
                decreases files.len() - j,
            {
                let id = files[j].uuid.duplicate();
                proof {
                    assert(file_views(files@)[j as int] == files[j as int]@);
                    assert(ids.take(j + 1) == ids.take(j as int).push(id@));
                    assert(id_views(list@.push(id)) == id_views(list@).push(id@));
                }
                list.push(id);
                j += 1;
            }
            assert(ids.take(j as int) == ids);
            i += 1;
        }
        assert(all.take(i as int) == all);
        Ok(list)
    }

    /// The names of the documents that lie directly in `node`, in dictionary
    /// order.
    fn sorted_names(&self, node: usize) -> (names: Vec<String>)
        requires
            self.wf(),
            self@.has(node as int),
        ensures
            views(names@) == self@.sorted_file_names(node as int),
    {
        let files = &self.files[node - 1];
        let mut names: Vec<String> = Vec::new();
        let ghost wanted = self@.files[node - 1].map_values(|file: FileModel| file.name);
        let mut i: usize = 0;
        assert(views(names@) == wanted.take(0));
        while i < files.len()
            invariant
                i <= files.len(),
                file_views(files@) == self@.files[node - 1],
                wanted == self@.files[node - 1].map_values(|file: FileModel| file.name),
                views(names@) == wanted.take(i as int),
            decreases files.len() - i,
        {
            let name = files[i].name.clone();
            proof {
                assert(file_views(files@)[i as int] == files[i as int]@);
                assert(wanted.take(i + 1) == wanted.take(i as int).push(name@));
                assert(views(names@.push(name)) == views(names@).push(name@));
            }
            names.push(name);
            i += 1;
        }
        assert(wanted.take(i as int) == wanted);
        sort(&names)
    }

    /// Writes the listing of `node` down to depth `fuel` behind `out`, with
    /// `pad` as the blanks that stand before the lines of `node`.
    fn print_below(
        &self,
        node: usize,
        pad: &str,
        fuel: usize,
        out: &mut String,
        Ghost(indent): Ghost<nat>,
    )
        requires
            self.wf(),
            self@.has(node as int),
            self@.names[node - 1] is Some,
            pad@ == spaces(4 * indent),
        ensures
            final(out)@ == old(out)@ + self@.render(node as int, indent, fuel as nat),
        decreases fuel,
    {
        if fuel == 0 {
            return ;
        }
        let ghost start = out@;
        match &self.names[node - 1] {
            Some(name) => {
                if pad.is_empty() {
                    out.append(name.as_str());
                    out.append("\n");
                    assert(indent == 0) by {
                        assert(spaces(4 * indent).len() == 4 * indent);
                    }
                } else {
                    out.append(pad);
                    out.append("|-- ");
                    out.append(name.as_str());
                    out.append("\n");
                    assert(indent != 0) by {
                        assert(spaces(0).len() == 0);
                    }
                }
            },
            None => {},
        }
        assert(out@ == start + folder_line(indent, self@.names[node - 1]->0));
        let names = self.sorted_names(node);
        let ghost shown = views(names@);
        let mut i: usize = 0;
        assert(shown.take(0) == Seq::<Seq<char>>::empty());
        while i < names.len()
            invariant
                i <= names.len(),
                shown == views(names@),
                pad@ == spaces(4 * indent),
                out@ == start + folder_line(indent, self@.names[node - 1]->0) + file_lines(
                    indent,
                    shown.take(i as int),
                ),
            decreases names.len() - i,
        {
            proof {
                assert(shown.take(i + 1).drop_last() == shown.take(i as int));
                assert(shown.take(i + 1).last() == names[i as int]@);
            }
            out.append(pad);
            out.append("    |-- ");
            out.append(names[i].as_str());
            out.append("\n");
            i += 1;
        }
        assert(shown.take(i as int) == shown);
        let ghost head = out@;
        let kids = children(&self.arena, node);
        let ghost all = handles(kids@);
        assert(self@.forest.is_live(node as int));
        let mut deeper = String::from_str(pad);
        deeper.append("    ");
        assert(deeper@ == spaces(4 * (indent + 1))) by {
            reveal_strlit("    ");
            assert(deeper@ =~= spaces(4 * (indent + 1)));
        }
        let mut k: usize = 0;
        assert(all.take(0) == Seq::<int>::empty());
        while k < kids.len()
            invariant
                self.wf(),
                self@.has(node as int),
                k <= kids.len(),
                fuel > 0,
                all == handles(kids@),
                all == self@.forest.kids(node as int),
                deeper@ == spaces(4 * (indent + 1)),
                out@ == head + self@.render_all(all.take(k as int), indent + 1, (fuel - 1) as nat),
            decreases kids.len() - k,
        {
            let kid = kids[k];
            proof {
                assert(all.take(k + 1).drop_last() == all.take(k as int));
                assert(all.take(k + 1).last() == kid);
                assert(self@.forest.kids(node as int)[k as int] == kid);
                assert(self@.forest.is_live(kid as int));
                assert(self@.forest.parent(kid as int) is Some);
            }
            self.print_below(kid, deeper.as_str(), fuel - 1, out, Ghost(indent + 1));
            k += 1;
        }
        assert(all.take(k as int) == all);
    }

    /// Writes the listing of `node` behind `out`, as that of a folder `indent`
    /// levels down: the folder's name, its documents by name, then its
    /// folders in the same way, each level four blanks further in.
    pub fn print_recurse(&self, node: NodeRef, indent: usize, out: &mut String) -> (r: Result<
        (),
        TreeError,
    >)
        requires
            self.wf(),
        ensures
            r == self@.listable(node@),
            r is Ok ==> final(out)@ == old(out)@ + self@.listing(node@, indent as nat),
            r is Err ==> final(out)@ == old(out)@,
    {
        if node.handle < 1 || node.handle > self.ids.len() {
            return Err(TreeError::UnknownNode);
        }
        if self.names[node.handle - 1].is_none() {
            return Err(TreeError::Unnamed);
        }
        let mut pad = String::new();
        let mut i: usize = 0;
        assert(pad@ =~= spaces(0));
        while i < indent
            invariant
                i <= indent,
                pad@ == spaces(4 * (i as nat)),
            decreases indent - i,
        {
            pad.append("    ");
            proof {
                reveal_strlit("    ");
                assert(pad@ =~= spaces(4 * ((i + 1) as nat)));
            }
            i += 1;
        }
        self.print_below(node.handle, pad.as_str(), self.ids.len(), out, Ghost(indent as nat));
        Ok(())
    }

    /// The listing of the whole library, from the main root.
    pub fn to_string(&self) -> (text: String)
        requires
            self.wf(),
        ensures
            text@ == self@.listing(MAIN as int, 0),
    {
        let mut text = String::new();
        proof {
            reveal_strlit("");
            assert(""@ =~= spaces(0));
        }
        self.print_below(MAIN, "", self.ids.len(), &mut text, Ghost(0));
        text
    }

    /// The names of `node` and of the folders above it, nearest first.
    pub fn path(&self, node: NodeRef) -> (r: Result<Vec<String>, TreeError>)
        requires
            self.wf(),
        ensures
            r is Ok <==> self@.has(node@) && self@.all_named(self@.forest.ancestors(node@)),
            r matches Ok(names) ==> views(names@) == self@.names_of(
                self@.forest.ancestors(node@),
            ),
            r matches Err(why) ==> why == (if self@.has(node@) {
                TreeError::Unnamed
            } else {
                TreeError::UnknownNode
            }),
    {
        if node.handle < 1 || node.handle > self.ids.len() {
            return Err(TreeError::UnknownNode);
        }
        assert(self@.forest.is_live(node@));
        let above = ancestors(&self.arena, node.handle);
        let ghost all = handles(above@);
        proof {
            lemma_chain_live(self@.forest, node@, self@.forest.size());
        }
        let mut names: Vec<String> = Vec::new();
        let mut i: usize = 0;
        while i < above.len()
            invariant
                self.wf(),
                i <= above.len(),
                all == handles(above@),
                all == self@.forest.ancestors(node@),
                forall|k: int| 0 <= k < all.len() ==> self@.forest.is_live(#[trigger] all[k]),
                self@.all_named(all.take(i as int)),
                views(names@) == self@.names_of(all.take(i as int)),
            decreases above.len() - i,
        {
            let folder = above[i];
            assert(self@.forest.is_live(all[i as int]));
            match &self.names[folder - 1] {
                Some(name) => {
                    let name = name.clone();
                    proof {
                        let longer = self@.names_of(all.take(i + 1));
                        assert(self@.names[folder - 1] == Some(name@));
                        assert(views(names@).len() == self@.names_of(all.take(i as int)).len());
                        assert(names@.len() == i);
                        assert forall|k: int| 0 <= k < longer.len() implies views(
                            names@.push(name),
                        )[k] == #[trigger] longer[k] by {
                            if k < i {
                                assert(views(names@)[k] == self@.names_of(all.take(i as int))[k]);
                                assert(all.take(i + 1)[k] == all.take(i as int)[k]);
                            } else {
                                assert(all.take(i + 1)[k] == folder);
                                assert(views(names@.push(name))[k] == name@);
                            }
                        }
                        assert(views(names@.push(name)) =~= longer);
                        assert forall|k: int| 0 <= k < all.take(i + 1).len() implies (
                        #[trigger] self@.names[all.take(i + 1)[k] - 1]) is Some by {
                            if k < i {
                                assert(all.take(i + 1)[k] == all.take(i as int)[k]);
                            }
                        }
                    }
                    names.push(name);
                },
                None => {
                    assert(self@.names[all[i as int] - 1] is None);
                    return Err(TreeError::Unnamed);
                },
            }
            i += 1;
        }
        assert(all.take(i as int) == all);
        Ok(names)
    }

    /// The part of the tree that hangs at `node`.
    pub fn subtree(&self, node: NodeRef) -> (r: Result<SubTree<'_>, TreeError>)
        requires
            self.wf(),
        ensures
            r is Ok <==> self@.has(node@) && self@.all_named(self@.forest.ancestors(node@)),
            r matches Ok(part) ==> part.wf() && part.tree()@ == self@ && part.root()@ == node@
                && part.path_names() == self@.names_of(self@.forest.ancestors(node@)),
            r matches Err(why) ==> why == (if self@.has(node@) {
                TreeError::Unnamed
            } else {
                TreeError::UnknownNode
            }),
    {
        match self.path(node) {
            Ok(path) => {
                proof {
                    lemma_chain_shape(self@.forest, node@, self@.forest.size());
                    assert(self@.forest.ancestors(node@)[0] == node@);
                    assert(self@.names[self@.forest.ancestors(node@)[0] - 1] is Some);
                }
                Ok(SubTree { tree: self, path, root: node })
            },
            Err(why) => Err(why),
        }
    }
}

/// A folder of a tree together with what hangs below it.
pub struct SubTree<'a> {
    tree: &'a Tree,
    /// The names of the folder and of the folders above it, nearest first.
    pub path: Vec<String>,
    root: NodeRef,
}

impl<'a> SubTree<'a> {
    /// The tree that this is a part of.
    pub closed spec fn tree(&self) -> Tree {
        *self.tree
    }

    /// The folder at which this part hangs.
    pub closed spec fn root(&self) -> NodeRef {
        self.root
    }

    /// What `path` holds.
    pub closed spec fn path_names(&self) -> Seq<Seq<char>> {
        views(self.path@)
    }

    /// Well-formed: a named folder of a well-formed tree.
    pub open spec fn wf(&self) -> bool {
        &&& self.tree().wf()
        &&& self.tree()@.has(self.root()@)
        &&& self.tree()@.names[self.root()@ - 1] is Some
    }

    /// The names of the folder and of the folders above it, nearest first.
    pub fn into_path(self) -> (names: Vec<String>)
        ensures
            views(names@) == self.path_names(),
    {
        self.path
    }

    /// The listing of this part of the tree, its folder at the left margin.
    pub fn to_string(&self) -> (text: String)
        requires
            self.wf(),
        ensures
            text@ == self.tree()@.listing(self.root()@, 0),
    {
        let mut text = String::new();
        proof {
            reveal_strlit("");
            assert(""@ =~= spaces(0));
        }
        self.tree.print_below(self.root.handle, "", self.tree.ids.len(), &mut text, Ghost(0));
        text
    }
}

} // verus!

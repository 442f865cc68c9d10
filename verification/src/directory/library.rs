//! From the tablet's records to the folder tree.
use crate::directory::metadata::{
    extract_field, field_readable, field_value, is_folder, kind_named, kind_of, name, parent,
    text_view, try_extract_field, Kind,
};
use crate::directory::{Tree, TreeError, TreeModel, Uuid};
use vstd::prelude::*;

verus! {

/// What one record says: which item it describes, where the item lies, what
/// it shows as its name and of which kind it is.
pub ghost struct RecordModel {
    pub id: Seq<char>,
    pub parent: Seq<char>,
    pub name: Seq<char>,
    pub kind: Kind,
}

/// One record of the tablet, read.
pub struct ItemRecord {
    pub id: Uuid,
    pub parent: Uuid,
    pub name: String,
    pub kind: Kind,
}

impl View for ItemRecord {
    type V = RecordModel;

    open spec fn view(&self) -> RecordModel {
        RecordModel { id: self.id@, parent: self.parent@, name: self.name@, kind: self.kind }
    }
}

/// Why a record did not make it into the tree.
#[derive(Clone, Copy, Debug, PartialEq, Eq, Structural)]
pub enum RecordError {
    /// The fields of the record could not be looked for.
    Unreadable,
    /// The record does not say where the item lies.
    NoParent,
    /// The record does not say what the item shows as its name.
    NoName,
    /// The record does not say of which kind the item is.
    NoType,
    /// The record names a kind that is neither document nor folder.
    UnknownType,
    /// The record names a folder as its own parent.
    OwnParent,
    /// The folder has been added before, or is one of the two roots.
    Duplicate,
    /// The folder lies above the one that the record names as its parent.
    Cycle,
}

/// The reason for which a tree refused a folder, as the reason for which the
/// folder's record was rejected.
pub open spec fn refusal(why: TreeError) -> RecordError {
    match why {
        TreeError::OwnParent => RecordError::OwnParent,
        TreeError::Cycle => RecordError::Cycle,
        _ => RecordError::Duplicate,
    }
}

/// The record of the item `id` with the three fields as they were found.
pub open spec fn record_made(
    id: Seq<char>,
    parent: Option<Seq<char>>,
    name: Option<Seq<char>>,
    doc_type: Option<Seq<char>>,
) -> Result<RecordModel, RecordError> {
    if parent is None {
        Err(RecordError::NoParent)
    } else if name is None {
        Err(RecordError::NoName)
    } else if doc_type is None {
        Err(RecordError::NoType)
    } else if kind_named(doc_type->0) is None {
        Err(RecordError::UnknownType)
    } else {
        Ok(RecordModel { id, parent: parent->0, name: name->0, kind: kind_named(doc_type->0)->0 })
    }
}

/// What came of reading a record.
pub open spec fn record_view(r: Result<ItemRecord, RecordError>) -> Result<
    RecordModel,
    RecordError,
> {
    match r {
        Ok(record) => Ok(record@),
        Err(why) => Err(why),
    }
}

/// Puts a record together from the three fields as they were found in its
/// text. The first field that is missing, in the order parent, name, kind,
/// decides the error.
pub fn record_from(
    id: Uuid,
    parent: Option<&str>,
    name: Option<&str>,
    doc_type: Option<&str>,
) -> (r: Result<ItemRecord, RecordError>)
    ensures
        record_view(r) == record_made(id@, text_view(parent), text_view(name), text_view(doc_type)),
{
    let parent = match parent {
        Some(parent) => Uuid::from(parent),
        None => {
            return Err(RecordError::NoParent);
        },
    };
    let name = match name {
        Some(name) => name.to_owned(),
        None => {
            return Err(RecordError::NoName);
        },
    };
    let doc_type = match doc_type {
        Some(doc_type) => doc_type,
        None => {
            return Err(RecordError::NoType);
        },
    };
    match kind_of(doc_type) {
        Some(kind) => Ok(ItemRecord { id, parent, name, kind }),
        None => Err(RecordError::UnknownType),
    }
}

/// What the text of the record of `id` says.
pub open spec fn record_of(id: Seq<char>, text: Seq<char>) -> Result<RecordModel, RecordError> {
    if !field_readable("parent"@) || !field_readable("visibleName"@) || !field_readable("type"@) {
        Err(RecordError::Unreadable)
    } else {
        record_made(
            id,
            field_value(text, "parent"@),
            field_value(text, "visibleName"@),
            field_value(text, "type"@),
        )
    }
}

/// Reads the record of the item `id` from its text.
pub fn parse_record(id: Uuid, metadata: &str) -> (r: Result<ItemRecord, RecordError>)
    ensures
        record_view(r) == record_of(id@, metadata@),
{
    if try_extract_field(metadata, "parent").is_err() {
        return Err(RecordError::Unreadable);
    }
    if try_extract_field(metadata, "visibleName").is_err() {
        return Err(RecordError::Unreadable);
    }
    if try_extract_field(metadata, "type").is_err() {
        return Err(RecordError::Unreadable);
    }
    let parent = match parent(metadata) {
        Some(parent) => Uuid::from(parent),
        None => {
            return Err(RecordError::NoParent);
        },
    };
    let name = match name(metadata) {
        Some(name) => name.to_owned(),
        None => {
            return Err(RecordError::NoName);
        },
    };
    match extract_field(metadata, "type") {
        Some(doc_type) => {
            if kind_of(doc_type).is_none() {
                return Err(RecordError::UnknownType);
            }
        },
        None => {
            return Err(RecordError::NoType);
        },
    }
    let kind = if is_folder(metadata) {
        Kind::Collection
    } else {
        Kind::Document
    };
    Ok(ItemRecord { id, parent, name, kind })
}

/// One line of the index of names.
pub ghost struct IndexModel {
    pub name: Seq<char>,
    pub id: Seq<char>,
}

/// Under which identifier an item of a given name is found.
pub struct IndexEntry {
    pub name: String,
    pub uuid: Uuid,
}

impl View for IndexEntry {
    type V = IndexModel;

    open spec fn view(&self) -> IndexModel {
        IndexModel { name: self.name@, id: self.uuid@ }
    }
}

/// A record that did not make it into the tree.
pub struct Rejected {
    pub id: Uuid,
    pub why: RecordError,
}

/// A rejected record: the item and the reason.
pub ghost struct RejectedModel {
    pub id: Seq<char>,
    pub why: RecordError,
}

impl View for Rejected {
    type V = RejectedModel;

    open spec fn view(&self) -> RejectedModel {
        RejectedModel { id: self.id@, why: self.why }
    }
}

/// The names of an index.
pub open spec fn index_names(index: Seq<IndexModel>) -> Seq<Seq<char>> {
    index.map_values(|line: IndexModel| line.name)
}

/// The index in which `name` leads to `id`: in the place where the name stood
/// before, or else at the end.
pub open spec fn index_put(index: Seq<IndexModel>, name: Seq<char>, id: Seq<char>) -> Seq<
    IndexModel,
> {
    if index_names(index).contains(name) {
        index.update(index_names(index).index_of(name), IndexModel { name, id })
    } else {
        index.push(IndexModel { name, id })
    }
}

/// What a build has made of the records it has seen.
pub ghost struct LibraryModel {
    pub tree: TreeModel,
    pub index: Seq<IndexModel>,
    pub rejected: Seq<RejectedModel>,
}

impl LibraryModel {
    /// Before any record: the tree of the two roots, nothing indexed and
    /// nothing rejected.
    pub open spec fn start() -> LibraryModel {
        LibraryModel { tree: TreeModel::initial(), index: Seq::empty(), rejected: Seq::empty() }
    }

    /// Well-formed: the tree is, and no name stands twice in the index.
    pub open spec fn wf(self) -> bool {
        self.tree.wf() && index_names(self.index).no_duplicates()
    }

    /// With one more record rejected.
    pub open spec fn with_rejected(self, id: Seq<char>, why: RecordError) -> LibraryModel {
        LibraryModel {
            tree: self.tree,
            index: self.index,
            rejected: self.rejected.push(RejectedModel { id, why }),
        }
    }

    /// After one more record: a document is put into its folder, a folder is
    /// hung under its parent unless the tree refuses it, and what went into the
    /// tree is indexed by its name.
    pub open spec fn with_record(self, record: RecordModel) -> LibraryModel {
        match record.kind {
            Kind::Document => LibraryModel {
                tree: self.tree.with_file(record.id, record.parent, record.name),
                index: index_put(self.index, record.name, record.id),
                rejected: self.rejected,
            },
            Kind::Collection => match self.tree.folder_refusal(record.id, record.parent) {
                Some(why) => self.with_rejected(record.id, refusal(why)),
                None => LibraryModel {
                    tree: self.tree.with_folder(record.id, record.parent, record.name),
                    index: index_put(self.index, record.name, record.id),
                    rejected: self.rejected,
                },
            },
        }
    }

    /// After the records `records`, one after the other.
    pub open spec fn with_records(self, records: Seq<RecordModel>) -> LibraryModel
        decreases records.len(),
    {
        if records.len() == 0 {
            self
        } else {
            self.with_records(records.drop_last()).with_record(records.last())
        }
    }

    /// After one more record given as text: a text that cannot be read is
    /// rejected.
    pub open spec fn with_text(self, id: Seq<char>, text: Seq<char>) -> LibraryModel {
        match record_of(id, text) {
            Ok(record) => self.with_record(record),
            Err(why) => self.with_rejected(id, why),
        }
    }

    /// After the records `files` given as text, one after the other.
    pub open spec fn with_texts(self, files: Seq<FileText>) -> LibraryModel
        decreases files.len(),
    {
        if files.len() == 0 {
            self
        } else {
            self.with_texts(files.drop_last()).with_text(files.last().stem, files.last().text)
        }
    }
}

/// The text of one record and the name of its file without the ending, which
/// is the item's identifier.
pub ghost struct FileText {
    pub stem: Seq<char>,
    pub text: Seq<char>,
}

/// One record as it lies on the tablet.
pub struct MetadataFile {
    pub stem: String,
    pub text: String,
}

impl View for MetadataFile {
    type V = FileText;

    open spec fn view(&self) -> FileText {
        FileText { stem: self.stem@, text: self.text@ }
    }
}

/// The records of a list.
pub open spec fn record_views(list: Seq<ItemRecord>) -> Seq<RecordModel> {
    Seq::new(list.len(), |i: int| list[i]@)
}

/// The texts of a list.
pub open spec fn text_views(list: Seq<MetadataFile>) -> Seq<FileText> {
    Seq::new(list.len(), |i: int| list[i]@)
}

/// The lines of an index.
pub open spec fn index_views(list: Seq<IndexEntry>) -> Seq<IndexModel> {
    Seq::new(list.len(), |i: int| list[i]@)
}

/// The rejected records of a list.
pub open spec fn rejected_views(list: Seq<Rejected>) -> Seq<RejectedModel> {
    Seq::new(list.len(), |i: int| list[i]@)
}

/// The tree of the library, the index of the names in it, and the records
/// that did not make it into the tree.
pub struct Library {
    pub tree: Tree,
    pub index: Vec<IndexEntry>,
    pub rejected: Vec<Rejected>,
}

impl View for Library {
    type V = LibraryModel;

    open spec fn view(&self) -> LibraryModel {
        LibraryModel {
            tree: self.tree@,
            index: index_views(self.index@),
            rejected: rejected_views(self.rejected@),
        }
    }
}

impl Library {
    /// The library before any record.
    pub fn new() -> (library: Library)
        ensures
            library@.wf(),
            library@ == LibraryModel::start(),
    {
        let library = Library { tree: Tree::new(), index: Vec::new(), rejected: Vec::new() };
        assert(library@.index =~= Seq::<IndexModel>::empty());
        assert(library@.rejected =~= Seq::<RejectedModel>::empty());
        assert(index_names(library@.index) =~= Seq::<Seq<char>>::empty());
        library
    }

    /// Makes `name` lead to `uuid` in the index.
    fn put(&mut self, name: &str, uuid: &Uuid)
        requires
            old(self)@.wf(),
        ensures
            final(self)@.tree == old(self)@.tree,
            final(self).tree == old(self).tree,
            final(self)@.rejected == old(self)@.rejected,
            final(self)@.index == index_put(old(self)@.index, name@, uuid@),
            index_names(final(self)@.index).no_duplicates(),
    {
        let wanted = name.to_owned();
        let ghost names = index_names(self@.index);
        let mut i: usize = 0;
        while i < self.index.len()
            invariant
                i <= self.index.len(),
                *self == *old(self),
                names == index_names(self@.index),
                names.no_duplicates(),
                wanted@ == name@,
                forall|k: int| 0 <= k < i ==> names[k] != name@,
            decreases self.index.len() - i,
        {
            if self.index[i].name == wanted {
                proof {
                    assert(names[i as int] == name@);
                    assert(names.contains(name@));
                    let at = names.index_of(name@);
                    assert(names[at] == name@);
                    assert(at == i);
                }
                self.index.set(i, IndexEntry { name: wanted, uuid: uuid.duplicate() });
                proof {
                    let after = index_names(self@.index);
                    assert(self@.index =~= index_put(old(self)@.index, name@, uuid@));
                    assert(after =~= names);
                    assert(self@.rejected =~= old(self)@.rejected);
                }
                return ;
            }
            i += 1;
        }
        self.index.push(IndexEntry { name: wanted, uuid: uuid.duplicate() });
        proof {
            let after = index_names(self@.index);
            assert(!names.contains(name@));
            assert(self@.index =~= index_put(old(self)@.index, name@, uuid@));
            assert(after =~= names.push(name@));
            assert(self@.rejected =~= old(self)@.rejected);
        }
    }

    /// Notes that the record of `id` was rejected.
    fn reject(&mut self, id: Uuid, why: RecordError)
        ensures
            final(self)@ == old(self)@.with_rejected(id@, why),
            final(self).tree == old(self).tree,
    {
        self.rejected.push(Rejected { id, why });
        assert(self@.rejected =~= old(self)@.rejected.push(RejectedModel { id: id@, why }));
        assert(self@.index =~= old(self)@.index);
    }

    /// Takes one more record into the library.
    pub fn add(&mut self, record: ItemRecord)
        requires
            old(self)@.wf(),
        ensures
            final(self)@.wf(),
            final(self)@ == old(self)@.with_record(record@),
    {
        let ItemRecord { id, parent, name, kind } = record;
        match kind {
            Kind::Document => {
                self.put(name.as_str(), &id);
                self.tree.add_file(id, parent, name);
            },
            Kind::Collection => {
                let shown = name.clone();
                let copy = id.duplicate();
                match self.tree.add_folder(id, parent, name) {
                    Ok(()) => {
                        self.put(shown.as_str(), &copy);
                    },
                    Err(why) => {
                        let why = match why {
                            TreeError::OwnParent => RecordError::OwnParent,
                            TreeError::Cycle => RecordError::Cycle,
                            _ => RecordError::Duplicate,
                        };
                        self.reject(copy, why);
                    },
                }
            },
        }
    }
}

/// Builds the library from records that were read before, in any order.
pub fn build(records: Vec<ItemRecord>) -> (library: Library)
    ensures
        library@.wf(),
        library@ == LibraryModel::start().with_records(record_views(records@)),
{
    let mut library = Library::new();
    let ghost all = record_views(records@);
    assert(all.take(0) == Seq::<RecordModel>::empty());
    for record in iter: records
        invariant
            iter.seq() == records@,
            all == record_views(records@),
            library@.wf(),
            library@ == LibraryModel::start().with_records(all.take(iter.index() as int)),
    {
        proof {
            let i = iter.index() as int;
            assert(all.take(i + 1).drop_last() == all.take(i));
            assert(all.take(i + 1).last() == record@);
        }
        library.add(record);
    }
    assert(all.take(all.len() as int) == all);
    library
}

/// Builds the library from the records as they lie on the tablet. A record
/// that cannot be read, or that the tree refuses, is set aside with the
/// reason; the others are not held up by it.
pub fn map(files: Vec<MetadataFile>) -> (library: Library)
    ensures
        library@.wf(),
        library@ == LibraryModel::start().with_texts(text_views(files@)),
{
    let mut library = Library::new();
    let ghost all = text_views(files@);
    assert(all.take(0) == Seq::<FileText>::empty());
    for file in iter: files
        invariant
            iter.seq() == files@,
            all == text_views(files@),
            library@.wf(),
            library@ == LibraryModel::start().with_texts(all.take(iter.index() as int)),
    {
        proof {
            let i = iter.index() as int;
            assert(all.take(i + 1).drop_last() == all.take(i));
            assert(all.take(i + 1).last() == file@);
        }
        let MetadataFile { stem, text } = file;
        let id = Uuid::new(stem);
        let copy = id.duplicate();
        match parse_record(id, text.as_str()) {
            Ok(record) => {
                library.add(record);
            },
            Err(why) => {
                library.reject(copy, why);
            },
        }
    }
    assert(all.take(all.len() as int) == all);
    library
}

} // verus!

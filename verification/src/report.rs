//! The report that tells the reader of the tablet what was locked: its
//! content, and the records that make the tablet show it.
use crate::directory::{NodeRef, Tree, TreeError, TreeModel};
use crate::text::{decimal, to_decimal, views};
use crate::util::time::{Clock, Time};
use vstd::prelude::*;
use vstd::string::StringExecFns;

verus! {

/// The identifier under which the report is stored. It never changes, so
/// that a new report takes the place of the old one.
pub open spec fn report_id() -> Seq<char> {
    "64a3befb-b815-47e8-bf74-996bb6a76a5d"@
}

/// The identifier under which the report is stored.
pub fn report_uuid() -> (id: String)
    ensures
        id@ == report_id(),
{
    "64a3befb-b815-47e8-bf74-996bb6a76a5d".to_owned()
}

/// The number `n` in digits, with a minus sign in front if it is negative.
pub open spec fn signed(n: int) -> Seq<char> {
    if n < 0 {
        "-"@ + decimal((-n) as nat)
    } else {
        decimal(n as nat)
    }
}

/// The record that makes the tablet show the report as a document named
/// `Locked Books` at the top of the library, last changed at `unix_ts`
/// seconds after the beginning of 1970.
pub open spec fn metadata_text(unix_ts: int) -> Seq<char> {
    "{\n    \"deleted\": false,\n    \"lastModified\": \""@ + signed(unix_ts)
        + "000\",\n    \"metadatamodified\": false,\n    \"modified\": false,\n    \"parent\": \"\",\n    \"pinned\": false,\n    \"synced\": true,\n    \"type\": \"DocumentType\",\n    \"version\": 1,\n    \"visibleName\": \"Locked Books\"\n}"@
}

/// Writes the record that makes the tablet show the report.
pub fn metadata(unix_ts: i64) -> (text: String)
    ensures
        text@ == metadata_text(unix_ts as int),
{
    let mut text = String::from_str("{\n    \"deleted\": false,\n    \"lastModified\": \"");
    if unix_ts < 0 {
        let size: u64 = (-(unix_ts + 1)) as u64 + 1;
        text.append("-");
        text.append(to_decimal(size).as_str());
    } else {
        text.append(to_decimal(unix_ts as u64).as_str());
    }
    text.append(
        "000\",\n    \"metadatamodified\": false,\n    \"modified\": false,\n    \"parent\": \"\",\n    \"pinned\": false,\n    \"synced\": true,\n    \"type\": \"DocumentType\",\n    \"version\": 1,\n    \"visibleName\": \"Locked Books\"\n}",
    );
    proof {
        assert(text@ =~= metadata_text(unix_ts as int));
    }
    text
}

/// The record that tells the tablet how to show the report: as a document of
/// `pages` pages, upright and unscaled.
pub open spec fn content_text(pages: nat) -> Seq<char> {
    "{\n    \"extraMetadata\": {    \n    },\n    \"fileType\": \"pdf\",\n    \"fontName\": \"\",\n    \"lastOpenedPage\": 0,\n    \"lineHeight\": -1,\n    \"margins\": 100,\n    \"orientation\": \"portrait\",\n    \"pageCount\": "@
        + decimal(pages)
        + ",\n    \"pages\": [\n    ],\n    \"textScale\": 1,\n    \"transform\": {\n        \"m11\": 1,\n        \"m12\": 0,\n        \"m13\": 0,\n        \"m21\": 0,\n        \"m22\": 1,\n        \"m23\": 0,\n        \"m31\": 0,\n        \"m32\": 0,\n        \"m33\": 1\n    }\n}"@
}

/// Writes the record that tells the tablet how to show the report.
pub fn content(pages: usize) -> (text: String)
    ensures
        text@ == content_text(pages as nat),
{
    let mut text = String::from_str(
        "{\n    \"extraMetadata\": {    \n    },\n    \"fileType\": \"pdf\",\n    \"fontName\": \"\",\n    \"lastOpenedPage\": 0,\n    \"lineHeight\": -1,\n    \"margins\": 100,\n    \"orientation\": \"portrait\",\n    \"pageCount\": ",
    );
    text.append(to_decimal(pages as u64).as_str());
    text.append(
        ",\n    \"pages\": [\n    ],\n    \"textScale\": 1,\n    \"transform\": {\n        \"m11\": 1,\n        \"m12\": 0,\n        \"m13\": 0,\n        \"m21\": 0,\n        \"m22\": 1,\n        \"m23\": 0,\n        \"m31\": 0,\n        \"m32\": 0,\n        \"m33\": 1\n    }\n}",
    );
    text
}

/// One piece of the report, from top to bottom.
pub enum Block {
    /// The title of the report.
    Title(String),
    /// A heading.
    Header(String),
    /// A smaller heading.
    Subheader(String),
    /// The heading of a locked folder: the names of the folder and of those
    /// above it, nearest first.
    Path(Vec<String>),
    /// Running text, line by line.
    Text(String),
    /// Empty space of so many millimetres.
    Space(u32),
    /// A line across the page.
    Rule,
}

/// One piece of the report.
pub ghost enum BlockModel {
    Title(Seq<char>),
    Header(Seq<char>),
    Subheader(Seq<char>),
    Path(Seq<Seq<char>>),
    Text(Seq<char>),
    Space(nat),
    Rule,
}

impl View for Block {
    type V = BlockModel;

    open spec fn view(&self) -> BlockModel {
        match *self {
            Block::Title(text) => BlockModel::Title(text@),
            Block::Header(text) => BlockModel::Header(text@),
            Block::Subheader(text) => BlockModel::Subheader(text@),
            Block::Path(names) => BlockModel::Path(views(names@)),
            Block::Text(text) => BlockModel::Text(text@),
            Block::Space(mm) => BlockModel::Space(mm as nat),
            Block::Rule => BlockModel::Rule,
        }
    }
}

/// What the pieces of a list are.
pub open spec fn block_views(list: Seq<Block>) -> Seq<BlockModel> {
    Seq::new(list.len(), |i: int| list[i]@)
}

/// A number below a hundred in two digits.
pub open spec fn two_digits(n: nat) -> Seq<char> {
    if n < 10 {
        "0"@ + decimal(n)
    } else {
        decimal(n)
    }
}

/// The warning that stands above the paths that were not found.
pub open spec fn missing_note() -> Seq<char> {
    "Could not find these paths, if they where not deleted since book-safe was installed\n there is a bug in book safe. Please report it at github.com/dvdsk/book-safe"@
}

/// The pieces that tell which paths were not found: none if all were.
pub open spec fn missing_blocks(missing: Seq<Seq<char>>) -> Seq<BlockModel> {
    if missing.len() == 0 {
        Seq::empty()
    } else {
        seq![BlockModel::Header("Missing paths:"@), BlockModel::Text(missing_note())] + Seq::new(
            missing.len(),
            |i: int| BlockModel::Subheader("- "@ + missing[i]),
        )
    }
}

/// The pieces that show one locked folder.
pub open spec fn root_blocks(tree: TreeModel, root: int) -> Seq<BlockModel> {
    seq![
        BlockModel::Space(8),
        BlockModel::Path(tree.names_of(tree.forest.ancestors(root))),
        BlockModel::Text(tree.listing(root, 0)),
    ]
}

/// The pieces that show the locked folders, one after the other.
pub open spec fn roots_blocks(tree: TreeModel, roots: Seq<int>) -> Seq<BlockModel>
    decreases roots.len(),
{
    if roots.len() == 0 {
        Seq::empty()
    } else {
        roots_blocks(tree, roots.drop_last()) + root_blocks(tree, roots.last())
    }
}

/// Whether every one of `roots` can be shown: it is a folder of the tree, and
/// it and the folders above it have names.
pub open spec fn showable(tree: TreeModel, roots: Seq<int>) -> bool {
    forall|i: int|
        0 <= i < roots.len() ==> tree.has(#[trigger] roots[i]) && tree.all_named(
            tree.forest.ancestors(roots[i]),
        )
}

/// The report from top to bottom: the title, the paths that were not found,
/// when the folders will be unlocked, and the locked folders with all that
/// is in them.
pub open spec fn report_blocks(
    tree: TreeModel,
    roots: Seq<int>,
    missing: Seq<Seq<char>>,
    unlock: Clock,
) -> Seq<BlockModel> {
    seq![BlockModel::Title("Folders are locked"@)] + missing_blocks(missing) + seq![
        BlockModel::Space(10),
        BlockModel::Header(
            "Will unlock at: "@ + decimal(unlock.hour) + ":"@ + two_digits(unlock.minute),
        ),
        BlockModel::Rule,
        BlockModel::Space(8),
        BlockModel::Header("Locked files:"@),
    ] + roots_blocks(tree, roots)
}

/// What the handles of a list are.
pub open spec fn node_views(list: Seq<NodeRef>) -> Seq<int> {
    Seq::new(list.len(), |i: int| list[i]@)
}

/// Puts the report together. A folder among `roots` that cannot be shown is
/// the error.
pub fn build(tree: &Tree, roots: Vec<NodeRef>, missing: Vec<String>, unlock: Time) -> (r: Result<
    Vec<Block>,
    TreeError,
>)
    requires
        tree.wf(),
    ensures
        r is Ok <==> showable(tree@, node_views(roots@)),
        r matches Ok(blocks) ==> block_views(blocks@) == report_blocks(
            tree@,
            node_views(roots@),
            views(missing@),
            unlock@,
        ),
{
    let mut blocks: Vec<Block> = Vec::new();
    blocks.push(Block::Title("Folders are locked".to_owned()));
    let ghost lost = views(missing@);
    if missing.len() > 0 {
        blocks.push(Block::Header("Missing paths:".to_owned()));
        blocks.push(
            Block::Text(
                "Could not find these paths, if they where not deleted since book-safe was installed\n there is a bug in book safe. Please report it at github.com/dvdsk/book-safe".to_owned(),
            ),
        );
        let mut i: usize = 0;
        while i < missing.len()
            invariant
                i <= missing.len(),
                lost == views(missing@),
                blocks.len() == 3 + i,
                blocks[0]@ == BlockModel::Title("Folders are locked"@),
                blocks[1]@ == BlockModel::Header("Missing paths:"@),
                blocks[2]@ == BlockModel::Text(missing_note()),
                forall|k: int|
                    0 <= k < i ==> (#[trigger] blocks[3 + k])@ == BlockModel::Subheader(
                        "- "@ + lost[k],
                    ),
            decreases missing.len() - i,
        {
            let mut line = String::from_str("- ");
            line.append(missing[i].as_str());
            blocks.push(Block::Subheader(line));
            i += 1;
        }
    }
    let ghost head = block_views(blocks@);
    proof {
        let wanted = seq![BlockModel::Title("Folders are locked"@)] + missing_blocks(lost);
        assert(head.len() == wanted.len());
        assert forall|j: int| 0 <= j < head.len() implies head[j] == wanted[j] by {
            if j >= 3 {
                assert(blocks[3 + (j - 3)]@ == BlockModel::Subheader("- "@ + lost[j - 3]));
            }
        }
        assert(head =~= wanted);
    }
    blocks.push(Block::Space(10));
    let mut line = String::from_str("Will unlock at: ");
    line.append(to_decimal(unlock.hour() as u64).as_str());
    line.append(":");
    if unlock.minute() < 10 {
        line.append("0");
    }
    line.append(to_decimal(unlock.minute() as u64).as_str());
    assert(line@ =~= "Will unlock at: "@ + decimal(unlock@.hour) + ":"@ + two_digits(
        unlock@.minute,
    ));
    blocks.push(Block::Header(line));
    blocks.push(Block::Rule);
    blocks.push(Block::Space(8));
    blocks.push(Block::Header("Locked files:".to_owned()));
    let ghost top = block_views(blocks@);
    let ghost all = node_views(roots@);
    assert(top =~= report_blocks(tree@, Seq::<int>::empty(), lost, unlock@));
    let mut i: usize = 0;
    assert(all.take(0) == Seq::<int>::empty());
    assert(top + roots_blocks(tree@, all.take(0)) =~= top);
    while i < roots.len()
        invariant
            tree.wf(),
            i <= roots.len(),
            all == node_views(roots@),
            showable(tree@, all.take(i as int)),
            block_views(blocks@) == top + roots_blocks(tree@, all.take(i as int)),
        decreases roots.len() - i,
    {
        proof {
            assert(all.take(i + 1).drop_last() == all.take(i as int));
            assert(all.take(i + 1).last() == roots[i as int]@);
        }
        let part = match tree.subtree(roots[i]) {
            Ok(part) => part,
            Err(why) => {
                assert(!showable(tree@, all)) by {
                    assert(all[i as int] == roots[i as int]@);
                }
                return Err(why);
            },
        };
        let text = part.to_string();
        let ghost before = block_views(blocks@);
        blocks.push(Block::Space(8));
        blocks.push(Block::Path(part.into_path()));
        blocks.push(Block::Text(text));
        proof {
            assert(block_views(blocks@) =~= before + root_blocks(tree@, roots[i as int]@));
            assert(top + (roots_blocks(tree@, all.take(i as int)) + root_blocks(
                tree@,
                roots[i as int]@,
            )) =~= (top + roots_blocks(tree@, all.take(i as int))) + root_blocks(
                tree@,
                roots[i as int]@,
            ));
            assert forall|k: int| 0 <= k < all.take(i + 1).len() implies tree@.has(
                #[trigger] all.take(i + 1)[k],
            ) && tree@.all_named(tree@.forest.ancestors(all.take(i + 1)[k])) by {
                if k < i {
                    assert(all.take(i + 1)[k] == all.take(i as int)[k]);
                }
            }
        }
        i += 1;
    }
    assert(all.take(i as int) == all);
    assert(top + roots_blocks(tree@, all) =~= report_blocks(tree@, all, lost, unlock@));
    Ok(blocks)
}

/// One of the small files that stand beside the report: its ending and what
/// it holds.
pub struct Companion {
    pub ending: String,
    pub text: String,
}

/// One of the small files that stand beside the report.
pub ghost struct CompanionModel {
    pub ending: Seq<char>,
    pub text: Seq<char>,
}

impl View for Companion {
    type V = CompanionModel;

    open spec fn view(&self) -> CompanionModel {
        CompanionModel { ending: self.ending@, text: self.text@ }
    }
}

/// What is stored with a report besides the report itself.
pub struct Stored {
    /// The files to write, in this order.
    pub files: Vec<Companion>,
    /// The endings of the directories to make, in this order.
    pub dirs: Vec<String>,
}

/// The endings of the directories that the tablet expects beside a document.
pub open spec fn dir_endings() -> Seq<Seq<char>> {
    seq![""@, "cache"@, "highlights"@, "thumbnails"@, "textconversion"@]
}

/// The endings of the files that make up the stored report.
pub open spec fn file_endings() -> Seq<Seq<char>> {
    seq!["content"@, "metadata"@, "pagedata"@, "pdf"@]
}

/// What the companions of a list are.
pub open spec fn companion_views(list: Seq<Companion>) -> Seq<CompanionModel> {
    Seq::new(list.len(), |i: int| list[i]@)
}

/// The directories that the tablet expects beside a document, by their
/// endings.
fn directories() -> (dirs: Vec<String>)
    ensures
        views(dirs@) == dir_endings(),
{
    let mut dirs: Vec<String> = Vec::new();
    dirs.push("".to_owned());
    dirs.push("cache".to_owned());
    dirs.push("highlights".to_owned());
    dirs.push("thumbnails".to_owned());
    dirs.push("textconversion".to_owned());
    assert(views(dirs@) =~= dir_endings());
    dirs
}

/// What to store with a report of `pages` pages, made at `unix_ts` seconds
/// after the beginning of 1970: the three records beside the report, and the
/// directories.
pub fn save(pages: usize, unix_ts: i64) -> (stored: Stored)
    ensures
        companion_views(stored.files@) == seq![
            CompanionModel { ending: "content"@, text: content_text(pages as nat) },
            CompanionModel { ending: "metadata"@, text: metadata_text(unix_ts as int) },
            CompanionModel { ending: "pagedata"@, text: ""@ },
        ],
        views(stored.dirs@) == dir_endings(),
{
    let mut files: Vec<Companion> = Vec::new();
    files.push(Companion { ending: "content".to_owned(), text: content(pages) });
    files.push(Companion { ending: "metadata".to_owned(), text: metadata(unix_ts) });
    files.push(Companion { ending: "pagedata".to_owned(), text: "".to_owned() });
    let stored = Stored { files, dirs: directories() };
    assert(companion_views(stored.files@) =~= seq![
        CompanionModel { ending: "content"@, text: content_text(pages as nat) },
        CompanionModel { ending: "metadata"@, text: metadata_text(unix_ts as int) },
        CompanionModel { ending: "pagedata"@, text: ""@ },
    ]);
    stored
}

/// What to take away when a report is removed.
pub struct Removal {
    /// The directory whose absence says that there is no report to remove.
    pub marker: String,
    /// The endings of the files to remove, in this order.
    pub files: Vec<String>,
    /// The endings of the directories to remove, in this order.
    pub dirs: Vec<String>,
}

/// What to take away when a report is removed: every file of it, then every
/// directory. The directory that is removed last tells whether there is a
/// report at all.
pub fn remove() -> (removal: Removal)
    ensures
        removal.marker@ == dir_endings().last(),
        views(removal.files@) == file_endings(),
        views(removal.dirs@) == dir_endings(),
{
    let mut files: Vec<String> = Vec::new();
    files.push("content".to_owned());
    files.push("metadata".to_owned());
    files.push("pagedata".to_owned());
    files.push("pdf".to_owned());
    let removal = Removal { marker: "textconversion".to_owned(), files, dirs: directories() };
    assert(views(removal.files@) =~= file_endings());
    removal
}

} // verus!

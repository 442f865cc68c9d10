use book_safe::directory::library::{
    build, parse_record, record_from, ItemRecord, MetadataFile, RecordError,
};
use book_safe::directory::metadata::{
    extract_field, is_folder, kind_of, name, parent, try_extract_field, Kind,
};
use book_safe::directory::{Tree, TreeError, Uuid};

#[test]
fn extract_parent_id() {
    let metadata = r###"
{
    "deleted": false,
    "lastModified": "1633603894527",
    "lastOpened": "1572004477560",
    "lastOpenedPage": 1,
    "metadatamodified": false,
    "modified": false,
    "parent": "95318cc7-f844-416f-963a-cf277c83f10c",
    "pinned": false,
    "synced": true,
    "type": "DocumentType",
    "version": 1,
    "visibleName": "Paper selection"
}
"###;

    assert_eq!(
        Some("95318cc7-f844-416f-963a-cf277c83f10c"),
        parent(metadata)
    )
}

#[test]
fn extract_parent_id_with_spaces() {
    let metadata = r#"{"visibleName":"CMS","type":"CollectionType","parent":"0b7d1978-dc97-4433-8e31-ad6ff7fe1cf7","lastModified":"1654958754102943861","lastOpened":"","version":0,"pinned":false,"synced":true,"modified":false,"deleted":false,"metadatamodified":false}"#;
    assert_eq!(
        Some("0b7d1978-dc97-4433-8e31-ad6ff7fe1cf7"),
        parent(metadata)
    )
}

#[test]
fn extract_visiblename_ending_with_lineend() {
    let metadata = r#"{
    "deleted": false,
    "lastModified": "1643992474183",
    "lastOpened": "1643992259259",
    "lastOpenedPage": 0,
    "metadatamodified": false,
    "modified": false,
    "parent": "3055805b-54c9-4950-9492-ff97ee603764",
    "pinned": false,
    "synced": true,
    "type": "DocumentType",
    "version": 2,
    "visibleName": "Book recs"
}
"#;
    assert_eq!(Some("Book recs"), name(metadata));
}

#[test]
fn extract_type_with_spaces() {
    let metadata = "{\n    \"deleted\": false,\n    \"lastModified\": \"1643992474183\",\n    \"lastOpened\": \"1643992259259\",\n    \"lastOpenedPage\": 0,\n    \"metadatamodified\": false,\n    \"modified\": false,\n    \"parent\": \"3055805b-54c9-4950-9492-ff97ee603764\",\n    \"pinned\": false,\n    \"synced\": true,\n    \"type\": \"DocumentType\",\n    \"version\": 2,\n    \"visibleName\": \"Book recs\"\n}\n";
    assert!(!is_folder(metadata));
}

#[test]
fn extract_visiblename_ending_with_bracket() {
    let metadata = r#"{"deleted":false,"lastModified":"1673176298000","lastOpened":"","lastOpenedPage":0,"metadatamodified":false,"modified":false,"parent":"816d93cc-1b07-442b-b16c-9a941a3f647c","pinned":false,"synced":false,"type":"CollectionType","version":0,"visibleName":"Missing semester"}"#;
    assert_eq!(Some("Missing semester"), name(metadata));
}

fn test_tree() -> Tree {
    let node_parent_pairs = [
        ("a0", ""),
        ("b1", "B0"),
        ("B1", "B0"),
        ("b0", ""),
        ("a2", "A1"),
        ("A1", "A0"),
        ("a1", "A0"),
        ("A0", ""),
        ("B0", ""),
    ];

    let mut tree = Tree::new();
    for (name, parent) in node_parent_pairs {
        if name.chars().next().unwrap().is_uppercase() {
            tree.add_folder(name.into(), Uuid::from(parent), name.into())
                .unwrap();
        } else {
            tree.add_file(name.into(), Uuid::from(parent), name.to_owned());
        }
    }
    tree
}

#[test]
fn tree() {
    // folders in CAPS, files normal chars
    // ROOT
    // |-- a0
    // |-- b0
    // |-- A0
    // |   |-- a1
    // |   |-- A1
    // |       |-- a2
    // |-- B0
    // |   |-- b1
    // |   |-- B1

    let tree = test_tree();

    let root_node = tree.root(Uuid::from(""));
    let root_name = tree.name_of(root_node).unwrap();
    assert_eq!("", root_name);

    let print = tree.to_string();
    let correct = r###"
    |-- a0
    |-- b0
    |-- A0
        |-- a1
        |-- A1
            |-- a2
    |-- B0
        |-- b1
        |-- B1
"###;
    assert_eq!(print, correct);
}

#[test]
fn children() {
    let tree = test_tree();
    let node = tree.node_for("A0").unwrap();
    let files = tree.descendant_files(node).unwrap();
    assert_eq!(files, vec!("a1".into(), "a2".into()));
}

#[test]
fn root_children() {
    let tree = test_tree();
    let node = tree.node_for("").unwrap();
    let files = tree.descendant_files(node).unwrap();
    assert_eq!(
        files,
        vec!(
            "a0".into(),
            "b0".into(),
            "a1".into(),
            "a2".into(),
            "b1".into()
        )
    );
}

#[test]
fn unquoted_field_is_not_extracted() {
    let metadata = "{\"pinned\": false,\n\"version\": 2\n}";
    assert_eq!(None, extract_field(metadata, "pinned"));
    assert_eq!(None, extract_field(metadata, "version"));
    assert_eq!(None, extract_field(metadata, "parent"));
}

#[test]
fn empty_parent_is_the_main_root() {
    let metadata = "{\"parent\": \"\",\n\"type\": \"CollectionType\"}";
    assert_eq!(Some(""), parent(metadata));
    assert!(is_folder(metadata));
}

#[test]
fn field_name_that_is_no_pattern_is_refused() {
    assert!(try_extract_field("{\"a(\": \"x\"}", "a(").is_err());
    assert_eq!(Ok(Some("x")), try_extract_field("{\"a\": \"x\"}", "a"));
}

#[test]
fn kinds_by_name() {
    assert_eq!(Some(Kind::Document), kind_of("DocumentType"));
    assert_eq!(Some(Kind::Collection), kind_of("CollectionType"));
    assert_eq!(None, kind_of("collectiontype"));
    assert_eq!(None, kind_of(""));
}

#[test]
fn record_errors_in_order_of_fields() {
    let id = || Uuid::from("x");
    assert_eq!(
        RecordError::NoParent,
        record_from(id(), None, None, None).err().unwrap()
    );
    assert_eq!(
        RecordError::NoName,
        record_from(id(), Some("p"), None, None).err().unwrap()
    );
    assert_eq!(
        RecordError::NoType,
        record_from(id(), Some("p"), Some("n"), None).err().unwrap()
    );
    assert_eq!(
        RecordError::UnknownType,
        record_from(id(), Some("p"), Some("n"), Some("Folder"))
            .err()
            .unwrap()
    );
    let record = record_from(id(), Some("p"), Some("n"), Some("CollectionType")).unwrap();
    assert_eq!(record.id, Uuid::from("x"));
    assert_eq!(record.parent, Uuid::from("p"));
    assert_eq!(record.name, "n");
    assert_eq!(record.kind, Kind::Collection);
}

#[test]
fn parse_record_reads_all_three_fields() {
    let text = "{\"parent\": \"abc\", \"type\": \"DocumentType\", \"visibleName\": \"Notes\"}";
    let record = parse_record(Uuid::from("id-1"), text).unwrap();
    assert_eq!(record.parent, Uuid::from("abc"));
    assert_eq!(record.name, "Notes");
    assert_eq!(record.kind, Kind::Document);

    let without_name = "{\"parent\": \"abc\", \"type\": \"DocumentType\"}";
    assert_eq!(
        RecordError::NoName,
        parse_record(Uuid::from("id-1"), without_name).err().unwrap()
    );
    let odd = "{\"parent\": \"abc\", \"type\": \"Other\", \"visibleName\": \"Notes\"}";
    assert_eq!(
        RecordError::UnknownType,
        parse_record(Uuid::from("id-1"), odd).err().unwrap()
    );
}

#[test]
fn new_tree_has_two_roots() {
    let tree = Tree::new();
    assert_eq!(2, tree.len());
    assert_eq!(tree.main_root(), tree.root(Uuid::from("")));
    assert_eq!(tree.trash_root(), tree.root(Uuid::from("trash")));
    assert_eq!(Some("trash".to_owned()), tree.name_of(tree.trash_root()));
    assert_eq!(tree.to_string(), "\n");
    assert!(tree.find(&Uuid::from("nothing")).is_none());
}

#[test]
fn node_for_takes_the_first_of_two_equal_names() {
    let mut tree = Tree::new();
    tree.add_folder("one".into(), "".into(), "Same".to_owned())
        .unwrap();
    tree.add_folder("two".into(), "".into(), "Same".to_owned())
        .unwrap();
    let found = tree.node_for("Same").unwrap();
    assert_eq!(found, tree.root(Uuid::from("one")));
}

#[test]
fn node_for_reports_the_whole_path() {
    let tree = test_tree();
    assert_eq!(Err("A0/nope".to_owned()), tree.node_for("A0/nope"));
    assert_eq!(Err("A0/".to_owned()), tree.node_for("A0/"));
    assert_eq!(Err("a1".to_owned()), tree.node_for("a1"));
    let nested = tree.node_for("A0/A1").unwrap();
    assert_eq!(nested, tree.root(Uuid::from("A1")));
}

#[test]
fn folders_are_hung_once() {
    let mut tree = Tree::new();
    assert_eq!(
        Err(TreeError::OwnParent),
        tree.add_folder("a".into(), "a".into(), "A".to_owned())
    );
    assert_eq!(2, tree.len());
    tree.add_folder("a".into(), "".into(), "A".to_owned())
        .unwrap();
    assert_eq!(
        Err(TreeError::Duplicate),
        tree.add_folder("a".into(), "trash".into(), "A".to_owned())
    );
    assert_eq!(
        Err(TreeError::Duplicate),
        tree.add_folder("".into(), "a".into(), "root".to_owned())
    );
    assert_eq!(tree.to_string(), "\n    |-- A\n");
}

#[test]
fn circles_are_refused() {
    let mut tree = Tree::new();
    tree.add_folder("b".into(), "a".into(), "B".to_owned())
        .unwrap();
    tree.add_folder("c".into(), "b".into(), "C".to_owned())
        .unwrap();
    assert_eq!(
        Err(TreeError::Cycle),
        tree.add_folder("a".into(), "c".into(), "A".to_owned())
    );
    // the refused folder can still be hung elsewhere
    tree.add_folder("a".into(), "".into(), "A".to_owned())
        .unwrap();
    assert_eq!(tree.to_string(), "\n    |-- A\n        |-- B\n            |-- C\n");
}

#[test]
fn unknown_and_unnamed_folders() {
    let mut tree = Tree::new();
    tree.add_file("doc".into(), "later".into(), "Doc".to_owned());
    let placeholder = tree.find(&Uuid::from("later")).unwrap();
    let mut out = String::new();
    assert_eq!(
        Err(TreeError::Unnamed),
        tree.print_recurse(placeholder, 0, &mut out)
    );
    assert_eq!(Err(TreeError::Unnamed), tree.path(placeholder).map(|_| ()));
    assert_eq!(out, "");
    assert_eq!(
        vec![Uuid::from("doc")],
        tree.descendant_files(placeholder).unwrap()
    );

    let other = Tree::new();
    assert_eq!(
        Err(TreeError::UnknownNode),
        other.descendant_files(placeholder)
    );
    assert_eq!(
        Err(TreeError::UnknownNode),
        other.print_recurse(placeholder, 0, &mut out)
    );
}

#[test]
fn listing_with_indent_and_sorted_files() {
    let mut tree = Tree::new();
    tree.add_folder("f".into(), "".into(), "Folder".to_owned())
        .unwrap();
    tree.add_file("1".into(), "f".into(), "zebra".to_owned());
    tree.add_file("2".into(), "f".into(), "Apple".to_owned());
    tree.add_file("3".into(), "f".into(), "apple".to_owned());
    let folder = tree.node_for("Folder").unwrap();
    let mut out = String::from(">");
    tree.print_recurse(folder, 1, &mut out).unwrap();
    assert_eq!(
        out,
        ">    |-- Folder\n        |-- Apple\n        |-- apple\n        |-- zebra\n"
    );
    let part = tree.subtree(folder).unwrap();
    assert_eq!(part.path, vec!["Folder".to_owned(), "".to_owned()]);
    assert_eq!(
        part.to_string(),
        "Folder\n    |-- Apple\n    |-- apple\n    |-- zebra\n"
    );
}

fn record(id: &str, parent: &str, name: &str, kind: Kind) -> ItemRecord {
    ItemRecord {
        id: Uuid::from(id),
        parent: Uuid::from(parent),
        name: name.to_owned(),
        kind,
    }
}

fn sample_records() -> Vec<ItemRecord> {
    vec![
        record("d1", "", "Top", Kind::Document),
        record("f1", "", "Books", Kind::Collection),
        record("f2", "f1", "Stories", Kind::Collection),
        record("d2", "f1", "Novel", Kind::Document),
        record("d3", "f2", "Tale", Kind::Document),
        record("d4", "f2", "Fable", Kind::Document),
        record("f3", "f2", "Old", Kind::Collection),
        record("d5", "f3", "Saga", Kind::Document),
    ]
}

fn shape(tree: &Tree) -> Vec<(String, Vec<String>)> {
    let mut shape = Vec::new();
    for path in ["", "Books", "Books/Stories", "Books/Stories/Old"] {
        let node = tree.node_for(path).unwrap();
        let mut files: Vec<String> = tree
            .descendant_files(node)
            .unwrap()
            .iter()
            .map(|id| id.to_string())
            .collect();
        files.sort();
        shape.push((path.to_owned(), files));
    }
    shape
}

#[test]
fn build_does_not_depend_on_the_order_of_records() {
    let forward = build(sample_records());
    let mut turned = sample_records();
    turned.reverse();
    let backward = build(turned);
    let mut mixed = sample_records();
    mixed.swap(0, 6);
    mixed.swap(1, 7);
    mixed.swap(2, 4);
    let shuffled = build(mixed);
    assert!(forward.rejected.is_empty());
    assert!(backward.rejected.is_empty());
    assert!(shuffled.rejected.is_empty());
    assert_eq!(shape(&forward.tree), shape(&backward.tree));
    assert_eq!(shape(&forward.tree), shape(&shuffled.tree));
    assert_eq!(forward.tree.len(), backward.tree.len());
}

#[test]
fn root_holds_every_document_once() {
    let library = build(sample_records());
    let root = library.tree.main_root();
    let mut files: Vec<String> = library
        .tree
        .descendant_files(root)
        .unwrap()
        .iter()
        .map(|id| id.to_string())
        .collect();
    files.sort();
    assert_eq!(files, vec!["d1", "d2", "d3", "d4", "d5"]);
}

#[test]
fn map_sets_bad_records_aside() {
    let files = vec![
        MetadataFile {
            stem: "f1".to_owned(),
            text: "{\"parent\": \"\", \"type\": \"CollectionType\", \"visibleName\": \"Books\"}"
                .to_owned(),
        },
        MetadataFile {
            stem: "broken".to_owned(),
            text: "{\"type\": \"DocumentType\", \"visibleName\": \"Lost\"}".to_owned(),
        },
        MetadataFile {
            stem: "d1".to_owned(),
            text: "{\"parent\": \"f1\", \"type\": \"DocumentType\", \"visibleName\": \"Novel\"}"
                .to_owned(),
        },
        MetadataFile {
            stem: "f1".to_owned(),
            text: "{\"parent\": \"trash\", \"type\": \"CollectionType\", \"visibleName\": \"Again\"}"
                .to_owned(),
        },
    ];
    let library = book_safe::directory::library::map(files);
    assert_eq!(library.tree.to_string(), "\n    |-- Books\n        |-- Novel\n");
    assert_eq!(2, library.rejected.len());
    assert_eq!(library.rejected[0].id, Uuid::from("broken"));
    assert_eq!(library.rejected[0].why, RecordError::NoParent);
    assert_eq!(library.rejected[1].id, Uuid::from("f1"));
    assert_eq!(library.rejected[1].why, RecordError::Duplicate);
    let names: Vec<&str> = library.index.iter().map(|e| e.name.as_str()).collect();
    assert_eq!(names, vec!["Books", "Novel"]);
}

#[test]
fn index_keeps_the_last_item_of_a_name() {
    let library = build(vec![
        record("d1", "", "Same", Kind::Document),
        record("d2", "", "Other", Kind::Document),
        record("d3", "", "Same", Kind::Document),
    ]);
    assert_eq!(2, library.index.len());
    assert_eq!(library.index[0].name, "Same");
    assert_eq!(library.index[0].uuid, Uuid::from("d3"));
    assert_eq!(library.index[1].uuid, Uuid::from("d2"));
}

#[test]
fn build_sets_refused_folders_aside() {
    let library = build(vec![
        record("a", "a", "Own", Kind::Collection),
        record("b", "c", "B", Kind::Collection),
        record("c", "b", "C", Kind::Collection),
        record("trash", "", "Bin", Kind::Collection),
        record("d", "b", "Doc", Kind::Document),
    ]);
    let why: Vec<(String, RecordError)> = library
        .rejected
        .iter()
        .map(|r| (r.id.to_string(), r.why))
        .collect();
    assert_eq!(
        why,
        vec![
            ("a".to_owned(), RecordError::OwnParent),
            ("c".to_owned(), RecordError::Cycle),
            ("trash".to_owned(), RecordError::Duplicate),
        ]
    );
    // what was refused is nowhere in the tree, the rest is
    let b = library.tree.find(&Uuid::from("b")).unwrap();
    assert_eq!(
        vec![Uuid::from("d")],
        library.tree.descendant_files(b).unwrap()
    );
    assert_eq!(library.tree.to_string(), "\n");
    let names: Vec<&str> = library.index.iter().map(|e| e.name.as_str()).collect();
    assert_eq!(names, vec!["B", "Doc"]);
}

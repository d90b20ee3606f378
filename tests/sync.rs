use mkv_edit::codec::{format_to_hashmap, hashmap_to_format};
use mkv_edit::field::{display_order, Field};
use mkv_edit::record::Record;
use mkv_edit::session::{
    apply_edit, editable_text, header_edit_args, info_value, initial_record, remove_empty, tag_fields,
};
use mkv_edit::tags::{extract, merge, SimpleTag, TagChild, TagElement, TagNode, TagTree, TreeError};

fn rec_of(pairs: &[(Field, &str)]) -> Record {
    let mut r = Record::new();
    for (f, v) in pairs {
        r.set(*f, v.to_string());
    }
    r
}

fn value(r: &Record, f: Field) -> Option<String> {
    r.get(f).cloned()
}

fn all_fields() -> Vec<Field> {
    (0..10).map(Field::from_index).collect()
}

fn same_record(a: &Record, b: &Record) -> bool {
    all_fields().into_iter().all(|f| value(a, f) == value(b, f))
}

fn simple(name: &str, value: Option<&str>, origin: usize) -> TagChild {
    TagChild::Simple(SimpleTag {
        name: Some(name.to_string()),
        value: value.map(|v| v.to_string()),
        origin: Some(origin),
    })
}

fn entry(children: Vec<TagChild>, origin: usize) -> TagNode {
    TagNode::Tag(TagElement { targets: Some(false), children, origin: Some(origin) })
}

fn track_tag(origin: usize) -> TagNode {
    TagNode::Tag(TagElement { targets: Some(true), children: vec![TagChild::Other(99)], origin: Some(origin) })
}

fn simple_pairs(e: &TagElement) -> Vec<(String, Option<String>)> {
    e.children
        .iter()
        .filter_map(|c| match c {
            TagChild::Simple(s) => Some((s.name.clone().unwrap_or_default(), s.value.clone())),
            TagChild::Other(_) => None,
        })
        .collect()
}

fn first_tag(t: &TagTree) -> &TagElement {
    match &t.nodes[0] {
        TagNode::Tag(e) => e,
        TagNode::Other(_) => panic!("first node is not a tag"),
    }
}

#[test]
fn unrecognized_header_is_dropped() {
    let (r, unknown) = format_to_hashmap("(-------BOGUS-------)\nx\n(-------ARTIST-------)\nPink Floyd\n");
    assert_eq!(value(&r, Field::Artist), Some("Pink Floyd".to_string()));
    for f in all_fields() {
        if f != Field::Artist {
            assert_eq!(value(&r, f), None);
        }
    }
    assert_eq!(unknown, vec!["BOGUS".to_string()]);
}

#[test]
fn end_to_end_edit() {
    let shown = rec_of(&[(Field::Title, "Echoes"), (Field::Artist, "Pink Floyd"), (Field::Comment, "")]);
    let text = hashmap_to_format(&shown, &display_order());
    assert!(text.contains("(-------COMMENT-------)\n\n"));
    let edited = text
        .replace("(-------COMMENT-------)\n\n", "")
        .replace("Echoes", "New Title");
    let (mut r, unknown) = format_to_hashmap(&edited);
    assert!(unknown.is_empty());
    remove_empty(&mut r);
    assert_eq!(value(&r, Field::Title), Some("New Title".to_string()));
    assert_eq!(value(&r, Field::Artist), Some("Pink Floyd".to_string()));
    assert_eq!(value(&r, Field::Comment), None);
    assert_eq!(header_edit_args(&r), vec!["-s".to_string(), "title=New Title".to_string()]);
    let tags = tag_fields(&r);
    assert_eq!(value(&tags, Field::Title), None);
    let mut tree = TagTree {
        nodes: vec![entry(vec![TagChild::Other(1), simple("COMMENT", Some("old"), 2), simple("ARTIST", Some("Floyd"), 3)], 0)],
    };
    assert_eq!(merge(&mut tree, &tags), Ok(()));
    assert_eq!(tree.nodes.len(), 1);
    let e = first_tag(&tree);
    assert_eq!(simple_pairs(e), vec![("ARTIST".to_string(), Some("Pink Floyd".to_string()))]);
    match &e.children[1] {
        TagChild::Simple(s) => assert_eq!(s.origin, Some(3)),
        TagChild::Other(_) => panic!("expected the updated pair"),
    }
}

#[test]
fn encode_layout() {
    let r = rec_of(&[(Field::Artist, "A"), (Field::Date, "1971")]);
    let order = vec![Field::Title, Field::Artist];
    assert_eq!(
        hashmap_to_format(&r, &order),
        "(-------title-------)\n\n(-------ARTIST-------)\nA\n(-------DATE-------)\n1971\n"
    );
}

#[test]
fn round_trip_recovers_record() {
    let r = rec_of(&[
        (Field::Title, "Echoes"),
        (Field::Artist, "Pink Floyd"),
        (Field::Description, "line one\n\nline three"),
        (Field::TotalParts, "2"),
    ]);
    let (mut back, unknown) = format_to_hashmap(&hashmap_to_format(&r, &display_order()));
    assert!(unknown.is_empty());
    remove_empty(&mut back);
    assert!(same_record(&back, &r));
}

#[test]
fn permuted_order_decodes_alike() {
    let r = rec_of(&[(Field::Title, "T"), (Field::Album, "Meddle"), (Field::Synopsis, "s")]);
    let mut order = display_order();
    let (a, _) = format_to_hashmap(&hashmap_to_format(&r, &order));
    order.reverse();
    let (b, _) = format_to_hashmap(&hashmap_to_format(&r, &order));
    assert!(same_record(&a, &b));
    assert_eq!(value(&a, Field::Comment), Some(String::new()));
}

#[test]
fn decode_trims_and_flushes_last_field() {
    let (r, _) = format_to_hashmap("file.mkv\n(-------ALBUM-------)\n  Meddle \t\n\n(-------DATE-------)\n1971");
    assert_eq!(value(&r, Field::Album), Some("Meddle".to_string()));
    assert_eq!(value(&r, Field::Date), Some("1971".to_string()));
    assert_eq!(value(&r, Field::Title), None);
}

#[test]
fn decode_empty_text() {
    let (r, unknown) = format_to_hashmap("");
    assert!(same_record(&r, &Record::new()));
    assert!(unknown.is_empty());
}

#[test]
fn decode_later_block_wins() {
    let (r, _) = format_to_hashmap("(-------PURL-------)\na\n(-------PURL-------)\nb\n");
    assert_eq!(value(&r, Field::Purl), Some("b".to_string()));
}

#[test]
fn header_line_must_be_whole_line() {
    let (r, _) = format_to_hashmap("(-------title-------)\nx (-------ARTIST-------)\n");
    assert_eq!(value(&r, Field::Title), Some("x (-------ARTIST-------)".to_string()));
    assert_eq!(value(&r, Field::Artist), None);
}

#[test]
fn merge_is_idempotent() {
    let rec = rec_of(&[(Field::Artist, "B"), (Field::Album, "C")]);
    let mut tree = TagTree { nodes: vec![track_tag(0), entry(vec![simple("ARTIST", Some("A"), 2)], 1)] };
    merge(&mut tree, &rec).unwrap();
    let once: Vec<_> = simple_pairs(first_tag(&tree));
    let n = tree.nodes.len();
    merge(&mut tree, &rec).unwrap();
    assert_eq!(simple_pairs(first_tag(&tree)), once);
    assert_eq!(tree.nodes.len(), n);
    assert_eq!(
        once,
        vec![("ARTIST".to_string(), Some("B".to_string())), ("ALBUM".to_string(), Some("C".to_string()))]
    );
}

#[test]
fn merge_deletes_pair_and_empty_entry() {
    let mut tree = TagTree {
        nodes: vec![entry(vec![TagChild::Other(5), simple("COMMENT", Some("c"), 6)], 0), track_tag(1)],
    };
    merge(&mut tree, &Record::new()).unwrap();
    assert_eq!(tree.nodes.len(), 1);
    match &tree.nodes[0] {
        TagNode::Tag(e) => assert_eq!(e.origin, Some(1)),
        TagNode::Other(_) => panic!("expected the track tag"),
    }
}

#[test]
fn merge_moves_entry_to_front() {
    let rec = rec_of(&[(Field::Date, "1971")]);
    let mut tree = TagTree {
        nodes: vec![track_tag(0), TagNode::Other(7), entry(vec![simple("DATE", Some("x"), 3)], 2), track_tag(4)],
    };
    merge(&mut tree, &rec).unwrap();
    let origins: Vec<Option<usize>> = tree
        .nodes
        .iter()
        .map(|n| match n {
            TagNode::Tag(e) => e.origin,
            TagNode::Other(h) => Some(100 + h),
        })
        .collect();
    assert_eq!(origins, vec![Some(2), Some(0), Some(107), Some(4)]);
}

#[test]
fn merge_creates_entry_when_absent() {
    let rec = rec_of(&[(Field::Title, "ignored"), (Field::Comment, "hi"), (Field::Artist, "A")]);
    let mut tree = TagTree { nodes: vec![track_tag(0)] };
    merge(&mut tree, &rec).unwrap();
    assert_eq!(tree.nodes.len(), 2);
    let e = first_tag(&tree);
    assert_eq!(e.origin, None);
    assert_eq!(e.targets, Some(false));
    assert_eq!(
        simple_pairs(e),
        vec![("COMMENT".to_string(), Some("hi".to_string())), ("ARTIST".to_string(), Some("A".to_string()))]
    );
}

#[test]
fn merge_without_fields_adds_nothing() {
    let mut tree = TagTree { nodes: vec![track_tag(0)] };
    merge(&mut tree, &Record::new()).unwrap();
    assert_eq!(tree.nodes.len(), 1);
}

#[test]
fn merge_missing_targets() {
    let mut tree = TagTree {
        nodes: vec![TagNode::Tag(TagElement { targets: None, children: vec![], origin: Some(0) })],
    };
    assert_eq!(merge(&mut tree, &Record::new()), Err(TreeError::MissingTargets));
    assert_eq!(tree.nodes.len(), 1);
}

#[test]
fn merge_missing_string() {
    let rec = rec_of(&[(Field::Artist, "A")]);
    let mut tree = TagTree { nodes: vec![entry(vec![simple("ARTIST", None, 1)], 0)] };
    assert_eq!(merge(&mut tree, &rec), Err(TreeError::MissingString));
    let mut tree2 = TagTree { nodes: vec![entry(vec![simple("ARTIST", None, 1)], 0)] };
    assert_eq!(merge(&mut tree2, &Record::new()), Ok(()));
    assert!(tree2.nodes.is_empty());
}

#[test]
fn extract_reads_first_entry() {
    let tree = TagTree {
        nodes: vec![
            track_tag(0),
            entry(vec![simple("ARTIST", Some("A"), 2), simple("title", Some("no"), 3), simple("X", Some("y"), 4)], 1),
            entry(vec![simple("ALBUM", Some("other"), 6)], 5),
        ],
    };
    let r = extract(&tree).unwrap();
    assert_eq!(value(&r, Field::Artist), Some("A".to_string()));
    assert_eq!(value(&r, Field::Album), Some(String::new()));
    assert_eq!(value(&r, Field::Title), None);
}

#[test]
fn extract_without_entry_gives_blank_fields() {
    let r = extract(&TagTree { nodes: vec![] }).unwrap();
    assert_eq!(value(&r, Field::Comment), Some(String::new()));
    assert_eq!(value(&r, Field::TotalParts), Some(String::new()));
    assert_eq!(value(&r, Field::Title), None);
    let bad = TagTree { nodes: vec![TagNode::Tag(TagElement { targets: None, children: vec![], origin: None })] };
    assert!(matches!(extract(&bad), Err(TreeError::MissingTargets)));
}

#[test]
fn session_text_and_record() {
    let tree = TagTree { nodes: vec![entry(vec![simple("ALBUM", Some("Meddle"), 1)], 0)] };
    let r = initial_record("Echoes".to_string(), &tree).unwrap();
    assert_eq!(value(&r, Field::Title), Some("Echoes".to_string()));
    let text = editable_text("a.mkv", &r);
    assert!(text.starts_with("a.mkv\n(-------title-------)\nEchoes\n(-------ARTIST-------)\n\n(-------ALBUM-------)\nMeddle\n"));
    let (back, _) = format_to_hashmap(&text);
    assert_eq!(value(&back, Field::Album), Some("Meddle".to_string()));
    assert_eq!(value(&back, Field::Date), Some(String::new()));
}

#[test]
fn header_args_delete_title() {
    assert_eq!(header_edit_args(&Record::new()), vec!["-d".to_string(), "title".to_string()]);
}

#[test]
fn info_value_strips_prefix() {
    assert_eq!(info_value("| + Title: Echoes", 11), "Echoes");
    assert_eq!(info_value("short", 11), "");
}

#[test]
fn field_names_round_trip() {
    for f in all_fields() {
        let cs: Vec<char> = f.name().chars().collect();
        assert_eq!(Field::from_name(&cs), Some(f));
    }
    assert_eq!(Field::from_name(&['T', 'I', 'T', 'L', 'E']), None);
}

#[test]
fn apply_edit_end_to_end() {
    let text = "movie.mkv\n(-------title-------)\nNew Title\n(-------ARTIST-------)\nPink Floyd\n(-------ALBUM-------)\n\n(-------BOGUS-------)\nx\n";
    let mut tree = TagTree {
        nodes: vec![track_tag(0), entry(vec![TagChild::Other(1), simple("COMMENT", Some("c"), 2), simple("ARTIST", Some("Floyd"), 3)], 4)],
    };
    let (args, unknown) = apply_edit(text, &mut tree).unwrap();
    assert_eq!(args, vec!["-s".to_string(), "title=New Title".to_string()]);
    assert_eq!(unknown, vec!["BOGUS".to_string()]);
    assert_eq!(tree.nodes.len(), 2);
    let e = first_tag(&tree);
    assert_eq!(e.origin, Some(4));
    assert_eq!(simple_pairs(e), vec![("ARTIST".to_string(), Some("Pink Floyd".to_string()))]);
}

#[test]
fn apply_edit_error_leaves_tree() {
    let mut tree = TagTree { nodes: vec![entry(vec![simple("ARTIST", None, 1)], 0)] };
    let r = apply_edit("(-------ARTIST-------)\nX\n", &mut tree);
    assert_eq!(r, Err(TreeError::MissingString));
    assert_eq!(tree.nodes.len(), 1);
}

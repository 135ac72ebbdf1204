use pickem::document::{Document, Entry};
use pickem::parser::{
    attr_getter, build_data, child_or_violator, children, list_of_pairs_into_pair_of_lists,
    load_documents, node_to_tree, parse, parse_document, uncurried_node_to_tree, NodeType,
    ParseError, Violation,
};
use pickem::tree::Tree;

const RAW: &str = "
foo:
  .chord: chord
  .desc: desc
bar:
  barjr:
    .chord: jr
  violation1: whoops
  other_violation: 
    - i
    - am
    - a
    - violation
";

fn get_test_yml() -> Vec<Document> {
    load_documents(RAW).unwrap()
}

fn text(s: &str) -> Document {
    Document::Text(String::from(s))
}

fn entry(key: &str, value: Document) -> Entry {
    Entry { key: text(key), value }
}

fn pairs(violations: &Vec<Violation>) -> Vec<(String, String)> {
    let mut all: Vec<(String, String)> =
        violations.iter().map(|v| (v.parent_name.clone(), v.child_name.clone())).collect();
    all.sort();
    all
}

#[test]
fn test_attr_getter_returns_default_value_if_empty() {
    let yml = &get_test_yml()[0];
    let foo = yml.get("foo").unwrap();
    assert_eq!(attr_getter(foo, ".chord", "foo"), "chord");
    assert_eq!(attr_getter(foo, ".value", "foo"), "foo");
}

#[test]
fn get_violators_return_violations() {
    let yml = &get_test_yml()[0];
    let bar = yml.get("bar").unwrap();
    let kinds = children("bar", bar);
    let violators: Vec<&Violation> = kinds
        .iter()
        .filter_map(|k| match k {
            NodeType::Violator(v) => Some(v),
            _ => None,
        })
        .collect();
    assert_eq!(violators.len(), 2);
    assert_eq!(violators[0].parent_name, "bar");
    assert_eq!(violators[0].child_name, "violation1");
    assert_eq!(
        violators[0].message,
        "key `violation1` is not a reserved attribute and cannot take a string value"
    );
    assert_eq!(violators[1].parent_name, "bar");
    assert_eq!(violators[1].child_name, "other_violation");
    assert_eq!(
        violators[1].message,
        "value of every node must be a mapping, aside from the three reserved attribute keys"
    );
}

#[test]
fn get_children_returns_children() {
    let docs = get_test_yml();
    let kinds = children("root", &docs[0]);
    assert_eq!(kinds.len(), 2);
    match &kinds[0] {
        NodeType::Child((name, node)) => {
            assert_eq!(*name, "foo");
            assert!(matches!(node, Document::Mapping(_)));
        }
        _ => panic!("foo is a child"),
    }
    assert!(matches!(&kinds[1], NodeType::Child((name, _)) if *name == "bar"));
    let foo = docs[0].get("foo").unwrap();
    let kinds = children("foo", foo);
    assert_eq!(kinds.len(), 2);
    assert!(matches!(&kinds[0], NodeType::Value(v) if v == "chord"));
    assert!(matches!(&kinds[1], NodeType::Value(v) if v == "desc"));
}

#[test]
fn node_to_tree_converts() {
    let docs = get_test_yml();
    let (tree, violations) = node_to_tree("root", &docs[0]);
    assert_eq!(tree.data().name, "root");
    assert_eq!(tree.data().chord, "root");
    assert_eq!(tree.data().value, "root");
    assert_eq!(tree.data().desc, "root");
    match &tree {
        Tree::Node(_, kids) => {
            assert_eq!(kids.len(), 2);
            assert!(kids[0].is_leaf());
            assert_eq!(kids[0].data().name, "foo");
            assert_eq!(kids[0].data().chord, "chord");
            assert_eq!(kids[0].data().desc, "desc");
            assert_eq!(kids[0].data().value, "foo");
            assert!(!kids[1].is_leaf());
            assert_eq!(kids[1].data().name, "bar");
            let barjr = kids[1].transition("jr").unwrap();
            assert!(barjr.is_leaf());
            assert_eq!(barjr.data().name, "barjr");
            assert_eq!(kids[1].children().len(), 1);
        }
        Tree::Leaf(_) => panic!("root has children"),
    }
    assert_eq!(
        pairs(&violations),
        vec![
            (String::from("bar"), String::from("other_violation")),
            (String::from("bar"), String::from("violation1")),
        ]
    );
}

#[test]
fn parse_builds_the_tree_under_root() {
    let (tree, violations) = parse(RAW).unwrap();
    assert_eq!(tree.data().name, "root");
    assert_eq!(tree.children().len(), 2);
    assert_eq!(tree.transition("chord").unwrap().data().name, "foo");
    assert_eq!(tree.transition("bar").unwrap().transition("jr").unwrap().data().name, "barjr");
    assert_eq!(violations.len(), 2);
}

#[test]
fn parse_keeps_the_order_of_the_document() {
    let (tree, violations) = parse("b: {}\na: {}\nc: {}\n").unwrap();
    let names: Vec<&str> =
        tree.children().nodes().iter().map(|t| t.data().name.as_str()).collect();
    assert_eq!(names, vec!["b", "a", "c"]);
    assert!(violations.is_empty());
}

#[test]
fn parse_rejects_malformed_text() {
    match parse("a: [1, 2") {
        Err(ParseError::Syntax(message)) => assert!(!message.is_empty()),
        other => panic!("{:?}", other.map(|_| ())),
    }
    assert!(matches!(load_documents("a: [1, 2"), Err(ParseError::Syntax(_))));
}

#[test]
fn parse_rejects_a_text_without_document() {
    assert!(matches!(parse(""), Err(ParseError::Empty)));
    assert_eq!(load_documents("").unwrap().len(), 0);
}

#[test]
fn parse_rejects_what_is_no_menu() {
    assert!(matches!(parse("- a\n- b\n"), Err(ParseError::Shape)));
    assert!(matches!(parse("just a string"), Err(ParseError::Shape)));
    assert!(matches!(parse("1: {}\n"), Err(ParseError::Shape)));
    assert!(matches!(parse("a:\n  2: {}\n"), Err(ParseError::Shape)));
    assert!(matches!(parse_document(&Document::Other), Err(ParseError::Shape)));
    // a mapping inside a list is never looked at
    assert!(parse("a:\n  - 2: {}\n").is_ok());
}

#[test]
fn load_documents_copies_what_the_text_holds() {
    let docs = load_documents("a:\n  .chord: x\n  b: 1\n  c: [d]\n---\nsecond\n").unwrap();
    assert_eq!(docs.len(), 2);
    match &docs[0] {
        Document::Mapping(entries) => {
            assert_eq!(entries.len(), 1);
            assert!(matches!(&entries[0].key, Document::Text(k) if k == "a"));
            match &entries[0].value {
                Document::Mapping(inner) => {
                    assert_eq!(inner.len(), 3);
                    assert!(matches!(&inner[0].key, Document::Text(k) if k == ".chord"));
                    assert!(matches!(&inner[0].value, Document::Text(v) if v == "x"));
                    assert!(matches!(&inner[1].key, Document::Text(k) if k == "b"));
                    assert!(matches!(&inner[1].value, Document::Other));
                    assert!(matches!(&inner[2].value, Document::Other));
                }
                _ => panic!("a maps to a mapping"),
            }
        }
        _ => panic!("the first document is a mapping"),
    }
    assert!(matches!(&docs[1], Document::Text(s) if s == "second"));
    assert!(docs[0].is_menu());
    assert!(!docs[1].is_menu());
}

#[test]
fn a_scalar_under_an_unreserved_key_is_a_violation_and_no_child() {
    let doc = Document::Mapping(vec![
        entry("kid", Document::Mapping(vec![entry("oops", text("scalar"))])),
        entry("stray", text("scalar")),
        entry("number", Document::Other),
        entry(".value", text("v")),
    ]);
    let (tree, violations) = node_to_tree("top", &doc);
    assert_eq!(tree.children().len(), 1);
    assert!(tree.transition("stray").is_none());
    assert!(tree.transition("number").is_none());
    assert_eq!(tree.data().value, "v");
    let found: Vec<(&str, &str)> = violations
        .iter()
        .map(|v| (v.parent_name.as_str(), v.child_name.as_str()))
        .collect();
    // those of the child come first, then those of the node itself
    assert_eq!(found, vec![("kid", "oops"), ("top", "stray"), ("top", "number")]);
}

#[test]
fn a_reserved_key_with_another_shape_is_a_violation() {
    let doc = Document::Mapping(vec![entry(".chord", Document::Other)]);
    let (tree, violations) = node_to_tree("n", &doc);
    assert!(tree.is_leaf());
    assert_eq!(tree.data().chord, "n");
    assert_eq!(violations.len(), 1);
    assert_eq!(violations[0].child_name, ".chord");
    assert_eq!(violations[0].parent_name, "n");
}

#[test]
fn child_or_violator_tells_the_three_kinds_apart() {
    let mapping = Document::Mapping(Vec::new());
    assert!(matches!(child_or_violator("p", "c", &mapping), NodeType::Child((name, _)) if name == "c"));
    assert!(matches!(child_or_violator("p", ".desc", &text("d")), NodeType::Value(v) if v == "d"));
    assert!(matches!(child_or_violator("p", ".value", &text("v")), NodeType::Value(v) if v == "v"));
    assert!(matches!(child_or_violator("p", ".chord", &text("c")), NodeType::Value(v) if v == "c"));
    match child_or_violator("p", ".other", &text("x")) {
        NodeType::Violator(v) => {
            assert_eq!(v.parent_name, "p");
            assert_eq!(v.child_name, ".other");
            assert_eq!(
                v.message,
                "key `.other` is not a reserved attribute and cannot take a string value"
            );
        }
        _ => panic!("a violation"),
    }
    assert!(matches!(child_or_violator("p", "c", &Document::Other), NodeType::Violator(_)));
}

#[test]
fn build_data_defaults_to_the_name() {
    let doc = Document::Mapping(vec![entry(".desc", text("described"))]);
    let data = build_data(&doc, "node");
    assert_eq!(data.name, "node");
    assert_eq!(data.desc, "described");
    assert_eq!(data.chord, "node");
    assert_eq!(data.value, "node");
    let data = build_data(&Document::Other, "x");
    assert_eq!(data.chord, "x");
}

#[test]
fn of_two_equal_keys_the_last_counts() {
    let doc = Document::Mapping(vec![entry(".chord", text("a")), entry(".chord", text("b"))]);
    assert_eq!(attr_getter(&doc, ".chord", "d"), "b");
    assert!(matches!(doc.get(".chord"), Some(Document::Text(s)) if s == "b"));
    assert!(doc.get(".value").is_none());
    assert!(text("t").get("t").is_none());
}

#[test]
fn uncurried_node_to_tree_is_node_to_tree() {
    let doc = Document::Mapping(vec![entry("a", Document::Mapping(Vec::new()))]);
    let (tree, violations) = uncurried_node_to_tree(("name", &doc));
    assert_eq!(tree.data().name, "name");
    assert_eq!(tree.children().len(), 1);
    assert!(violations.is_empty());
}

#[test]
fn list_of_pairs_is_split_in_order() {
    let (numbers, words) =
        list_of_pairs_into_pair_of_lists(vec![(1, "one"), (2, "two"), (3, "three")]);
    assert_eq!(numbers, vec![1, 2, 3]);
    assert_eq!(words, vec!["one", "two", "three"]);
    let (a, b) = list_of_pairs_into_pair_of_lists(Vec::<(u8, u8)>::new());
    assert!(a.is_empty() && b.is_empty());
}

use pickem::tree::{LeafData, Tree};

fn data_builder(param: String) -> LeafData {
    LeafData {
        name: param.clone(),
        desc: param.clone(),
        chord: param.clone(),
        value: param.clone(),
    }
}

fn node(name: &str, chord: &str, children: Vec<Tree>) -> Tree {
    let data = LeafData {
        name: String::from(name),
        desc: String::from(name),
        chord: String::from(chord),
        value: String::from(name),
    };
    if children.is_empty() {
        Tree::Leaf(data)
    } else {
        Tree::Node(data, children)
    }
}

#[test]
fn data_from_node_returns_data() {
    let tree = Tree::Leaf(data_builder(String::from("test")));
    let data = tree.data();
    assert_eq!(data.name, String::from("test"));
    assert_eq!(data.desc, String::from("test"));
    assert_eq!(data.chord, String::from("test"));
    assert_eq!(data.value, String::from("test"));
}

#[test]
fn children_from_node_returns_transitions() {
    let c1 = Tree::Leaf(data_builder(String::from("c1")));
    let c2 = Tree::Leaf(data_builder(String::from("c2")));
    let parent = Tree::Node(data_builder(String::from("p")), vec![c1, c2]);

    let children_map = parent.children();

    match children_map.get("c1") {
        Some(tree) => assert_eq!(tree.data().name, String::from("c1")),
        None => panic!("Map doesn't contain child!"),
    }

    match children_map.get("c2") {
        Some(tree) => assert_eq!(tree.data().name, String::from("c2")),
        None => panic!("Map doesn't contain child!"),
    }
}

#[test]
fn children_from_leaf_returns_no_transitions() {
    let leaf = Tree::Leaf(data_builder(String::from("c1")));
    let children_map = leaf.children();
    assert_eq!(children_map.len(), 0);
}

#[test]
fn data_of_a_branch_is_its_own() {
    let tree = node("p", "pp", vec![node("c", "c", vec![])]);
    assert_eq!(tree.data().name, "p");
    assert_eq!(tree.data().chord, "pp");
    assert!(!tree.is_leaf());
    assert!(node("c", "c", vec![]).is_leaf());
}

#[test]
fn empty_prefix_lists_every_child_in_menu_order() {
    let parent = node(
        "p",
        "p",
        vec![node("apple", "ap", vec![]), node("avocado", "av", vec![]), node("bean", "b", vec![])],
    );
    let all = parent.transitions_by_prefix("");
    let names: Vec<&str> = all.nodes().iter().map(|t| t.data().name.as_str()).collect();
    assert_eq!(names, vec!["apple", "avocado", "bean"]);
    assert_eq!(parent.children().len(), 3);
    assert!(!parent.children().is_empty());
}

#[test]
fn prefix_restricts_the_listing() {
    let parent = node(
        "p",
        "p",
        vec![node("apple", "ap", vec![]), node("bean", "b", vec![]), node("avocado", "av", vec![])],
    );
    let a = parent.transitions_by_prefix("a");
    let names: Vec<&str> = a.nodes().iter().map(|t| t.data().name.as_str()).collect();
    assert_eq!(names, vec!["apple", "avocado"]);
    let av = parent.transitions_by_prefix("av").into_nodes();
    assert_eq!(av.len(), 1);
    assert_eq!(av[0].data().name, "avocado");
    assert!(parent.transitions_by_prefix("avo").is_empty());
    assert!(parent.transitions_by_prefix("A").is_empty());
    assert!(parent.transitions_by_prefix("x").is_empty());
}

#[test]
fn listing_is_the_union_over_first_characters() {
    let parent = node(
        "p",
        "p",
        vec![node("apple", "ap", vec![]), node("bean", "b", vec![]), node("avocado", "av", vec![])],
    );
    let mut union: Vec<String> = Vec::new();
    for first in ["a", "b"] {
        for t in parent.transitions_by_prefix(first).nodes().iter() {
            union.push(t.data().name.clone());
        }
    }
    union.sort();
    let mut all: Vec<String> =
        parent.children().nodes().iter().map(|t| t.data().name.clone()).collect();
    all.sort();
    assert_eq!(union, all);
}

#[test]
fn of_two_siblings_with_one_chord_the_last_wins() {
    let parent = node(
        "p",
        "p",
        vec![node("first", "x", vec![]), node("other", "y", vec![]), node("second", "x", vec![])],
    );
    assert_eq!(parent.transition("x").unwrap().data().name, "second");
    let all = parent.children();
    assert_eq!(all.len(), 2);
    let names: Vec<&str> = all.nodes().iter().map(|t| t.data().name.as_str()).collect();
    assert_eq!(names, vec!["other", "second"]);
    assert_eq!(all.get("x").unwrap().data().name, "second");
}

#[test]
fn transition_is_exact() {
    let parent = node("p", "p", vec![node("n1", "n1", vec![]), node("n2", "n2", vec![])]);
    assert!(parent.transition("n").is_none());
    assert!(parent.transition("n12").is_none());
    assert!(parent.transition("").is_none());
    assert_eq!(parent.transition("n2").unwrap().data().name, "n2");
    assert!(node("leaf", "l", vec![]).transition("l").is_none());
}

#[test]
fn same_compares_content() {
    let a = node("p", "p", vec![node("c", "c", vec![])]);
    let b = node("p", "p", vec![node("c", "c", vec![])]);
    let c = node("p", "p", vec![node("c", "d", vec![])]);
    let d = node("p", "p", vec![node("c", "c", vec![]), node("e", "e", vec![])]);
    assert!(a.same(&b));
    assert!(!a.same(&c));
    assert!(!a.same(&d));
    assert!(!a.same(&node("p", "p", vec![])));
    assert!(a.data().same(b.data()));
    assert!(!a.data().same(node("p", "q", vec![]).data()));
}

#[test]
fn format_tree_lists_attributes_and_children() {
    let leaf = node("leaf", "l", vec![]);
    assert_eq!(
        Tree::format_tree(&leaf, 0),
        "leaf:\n  .chord: l\n  .desc: leaf\n  .value: leaf\n"
    );
    assert_eq!(
        Tree::format_tree(&leaf, 2),
        "  leaf:\n    .chord: l\n    .desc: leaf\n    .value: leaf\n"
    );
    let tree = node("p", "p", vec![node("a", "a", vec![]), node("b", "b", vec![])]);
    let expected = String::from("p:\n  .chord: p\n  .desc: p\n  .value: p\n")
        + "  a:\n    .chord: a\n    .desc: a\n    .value: a\n"
        + "\n"
        + "  b:\n    .chord: b\n    .desc: b\n    .value: b\n";
    assert_eq!(Tree::format_tree(&tree, 0), expected);
    assert_eq!(tree.to_string(), expected);
    let nested = node("p", "p", vec![node("a", "a", vec![node("b", "b", vec![])])]);
    let expected = String::from("p:\n  .chord: p\n  .desc: p\n  .value: p\n")
        + "  a:\n    .chord: a\n    .desc: a\n    .value: a\n"
        + "    b:\n      .chord: b\n      .desc: b\n      .value: b\n";
    assert_eq!(nested.to_string(), expected);
}

#[test]
fn indentable_data_indents_each_line() {
    let data = LeafData {
        name: String::from("n"),
        desc: String::from("d"),
        chord: String::from("c"),
        value: String::from("v"),
    };
    assert_eq!(
        Tree::indentable_data(&data, 1),
        " n:\n   .chord: c\n   .desc: d\n   .value: v\n"
    );
}

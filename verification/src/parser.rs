//! Builds a menu tree from a document and reports what it could not use.

use crate::document::{lookup, Document, DocumentView, EntryView};
use crate::yaml::{
    document_of, document_views, load_yaml, yaml_content, yaml_contents, yaml_load,
};
use crate::text::same_text;
use crate::tree::{LeafData, LeafDataView, Tree, TreeView};
use vstd::prelude::*;

verus! {

/// A fragment of a document that is neither a child node nor an attribute,
/// named by the node it stands in and by its own key.
#[derive(Debug)]
pub struct Violation {
    pub parent_name: String,
    pub child_name: String,
    pub message: String,
}

/// What a `Violation` holds.
pub struct ViolationView {
    pub parent_name: Seq<char>,
    pub child_name: Seq<char>,
    pub message: Seq<char>,
}

impl View for Violation {
    type V = ViolationView;

    open spec fn view(&self) -> ViolationView {
        ViolationView {
            parent_name: self.parent_name@,
            child_name: self.child_name@,
            message: self.message@,
        }
    }
}

/// Why a text defines no menu at all.
#[derive(Debug)]
pub enum ParseError {
    /// The text is not well-formed YAML; the scanner's message.
    Syntax(String),
    /// The text holds no document.
    Empty,
    /// The first document is no mapping, or it or a mapping under it has a
    /// key that is no string.
    Shape,
}

/// Options of the parser.
#[derive(Debug)]
pub enum Flags {
    LeafInheretValues,
}

/// A document node together with the key it stands under.
pub type NamedNode<'a> = (&'a str, &'a Document);

/// What one key of a mapping turned out to be.
pub enum NodeType<'a> {
    Violator(Violation),
    Value(String),
    Child(NamedNode<'a>),
}

/// What a `NodeType` holds.
pub enum NodeTypeView {
    Violator(ViolationView),
    Value(Seq<char>),
    Child(Seq<char>, DocumentView),
}

impl<'a> View for NodeType<'a> {
    type V = NodeTypeView;

    open spec fn view(&self) -> NodeTypeView {
        match self {
            NodeType::Violator(v) => NodeTypeView::Violator(v@),
            NodeType::Value(s) => NodeTypeView::Value(s@),
            NodeType::Child(named) => NodeTypeView::Child(named.0@, named.1@),
        }
    }
}

/// Whether `key` names an attribute of the node it stands in.
pub open spec fn reserved(key: Seq<char>) -> bool {
    key == ".value"@ || key == ".chord"@ || key == ".desc"@
}

/// The message for a key that is no attribute and maps to a string.
pub open spec fn string_value_message(key: Seq<char>) -> Seq<char> {
    "key `"@ + key + "` is not a reserved attribute and cannot take a string value"@
}

/// The message for a key that maps to neither a mapping nor a string.
pub open spec fn shape_message() -> Seq<char> {
    "value of every node must be a mapping, aside from the three reserved attribute keys"@
}

/// What the key `key` of the node `parent` is, given the node it maps to.
pub open spec fn classify(parent: Seq<char>, key: Seq<char>, value: DocumentView) -> NodeTypeView {
    match value {
        DocumentView::Mapping(_) => NodeTypeView::Child(key, value),
        DocumentView::Text(s) => if reserved(key) {
            NodeTypeView::Value(s)
        } else {
            NodeTypeView::Violator(
                ViolationView {
                    parent_name: parent,
                    child_name: key,
                    message: string_value_message(key),
                },
            )
        },
        DocumentView::Other => NodeTypeView::Violator(
            ViolationView { parent_name: parent, child_name: key, message: shape_message() },
        ),
    }
}

/// The string that `entries` give for the key `key`; `default` where the
/// key is missing or maps to something else.
pub open spec fn attr(entries: Seq<EntryView>, key: Seq<char>, default: Seq<char>) -> Seq<char> {
    match lookup(entries, key) {
        Some(DocumentView::Text(s)) => s,
        _ => default,
    }
}

/// The attributes of the node called `name` that `entries` define: each is
/// `name` unless its reserved key gives it a string.
pub open spec fn data_of(name: Seq<char>, entries: Seq<EntryView>) -> LeafDataView {
    LeafDataView {
        name,
        desc: attr(entries, ".desc"@, name),
        chord: attr(entries, ".chord"@, name),
        value: attr(entries, ".value"@, name),
    }
}

/// The tree that the node `doc` defines under the name `name`.
pub open spec fn tree_of(name: Seq<char>, doc: DocumentView) -> TreeView
    decreases doc, 0int,
{
    match doc {
        DocumentView::Mapping(entries) => {
            let kids = subtrees(entries, entries.len() as int);
            if kids.len() == 0 {
                TreeView::Leaf(data_of(name, entries))
            } else {
                TreeView::Node(data_of(name, entries), kids)
            }
        },
        _ => TreeView::Leaf(data_of(name, Seq::empty())),
    }
}

/// The trees of the child nodes among the first `n` entries, in order.
pub open spec fn subtrees(entries: Seq<EntryView>, n: int) -> Seq<TreeView>
    decreases entries, n,
{
    if n <= 0 || n > entries.len() {
        Seq::empty()
    } else {
        let entry = entries[n - 1];
        let before = subtrees(entries, n - 1);
        if entry.value is Mapping {
            before.push(tree_of(entry.key.text(), entry.value))
        } else {
            before
        }
    }
}

/// The violations that the first `n` entries of the node `name` are
/// themselves, in order.
pub open spec fn level_violations(name: Seq<char>, entries: Seq<EntryView>, n: int) -> Seq<
    ViolationView,
>
    decreases n,
{
    if n <= 0 || n > entries.len() {
        Seq::empty()
    } else {
        let entry = entries[n - 1];
        let before = level_violations(name, entries, n - 1);
        match classify(name, entry.key.text(), entry.value) {
            NodeTypeView::Violator(v) => before.push(v),
            _ => before,
        }
    }
}

/// Every violation in the node `doc` called `name`: those inside its child
/// nodes first, child by child, then its own.
pub open spec fn violations_of(name: Seq<char>, doc: DocumentView) -> Seq<ViolationView>
    decreases doc, 0int,
{
    match doc {
        DocumentView::Mapping(entries) => nested_violations(entries, entries.len() as int)
            + level_violations(name, entries, entries.len() as int),
        _ => Seq::empty(),
    }
}

/// The violations inside the child nodes among the first `n` entries.
pub open spec fn nested_violations(entries: Seq<EntryView>, n: int) -> Seq<ViolationView>
    decreases entries, n,
{
    if n <= 0 || n > entries.len() {
        Seq::empty()
    } else {
        let entry = entries[n - 1];
        let before = nested_violations(entries, n - 1);
        if entry.value is Mapping {
            before + violations_of(entry.key.text(), entry.value)
        } else {
            before
        }
    }
}

/// What a list of violations holds.
pub open spec fn views(list: Seq<Violation>) -> Seq<ViolationView> {
    Seq::new(list.len(), |i: int| list[i]@)
}

/// What the lists of `lists` hold, one after the other.
pub open spec fn flat(lists: Seq<Vec<Violation>>) -> Seq<ViolationView>
    decreases lists.len(),
{
    if lists.len() == 0 {
        Seq::empty()
    } else {
        flat(lists.drop_last()) + views(lists.last()@)
    }
}

/// Whether `key` is one of the three reserved attribute keys.
fn is_reserved(key: &str) -> (b: bool)
    ensures
        b == reserved(key@),
{
    same_text(key, ".value") || same_text(key, ".chord") || same_text(key, ".desc")
}

/// Says what the key `child_name` of the node `parent_name` is: a child
/// node, an attribute of the node, or a violation.
pub fn child_or_violator<'a>(parent_name: &'a str, child_name: &'a str, child: &'a Document) -> (kind:
    NodeType<'a>)
    ensures
        kind@ == classify(parent_name@, child_name@, child@),
        kind matches NodeType::Child(named) ==> *named.1 == *child,
{
    match child {
        Document::Mapping(_) => NodeType::Child((child_name, child)),
        Document::Text(value) => {
            if is_reserved(child_name) {
                NodeType::Value(value.clone())
            } else {
                let mut message = String::from_str("key `");
                message.append(child_name);
                message.append("` is not a reserved attribute and cannot take a string value");
                NodeType::Violator(
                    Violation {
                        parent_name: String::from_str(parent_name),
                        child_name: String::from_str(child_name),
                        message,
                    },
                )
            }
        },
        _ => NodeType::Violator(
            Violation {
                parent_name: String::from_str(parent_name),
                child_name: String::from_str(child_name),
                message: String::from_str(
                    "value of every node must be a mapping, aside from the three reserved attribute keys",
                ),
            },
        ),
    }
}

/// Splits a list of pairs into the list of first and the list of second
/// components, each in the order of the pairs.
pub fn list_of_pairs_into_pair_of_lists<T, U>(list: Vec<(T, U)>) -> (lists: (Vec<T>, Vec<U>))
    ensures
        lists.0@ == Seq::new(list@.len(), |i: int| list@[i].0),
        lists.1@ == Seq::new(list@.len(), |i: int| list@[i].1),
{
    let mut ts: Vec<T> = Vec::new();
    let mut us: Vec<U> = Vec::new();
    let ghost all = list@;
    for pair in it: list.into_iter()
        invariant
            it.seq() == all,
            ts@ == Seq::new(it.index() as nat, |i: int| all[i].0),
            us@ == Seq::new(it.index() as nat, |i: int| all[i].1),
    {
        let (t, u) = pair;
        ts.push(t);
        us.push(u);
    }
    (ts, us)
}

/// Classifies every key of the mapping `node`, in the order of its entries.
pub fn children<'a>(parent_name: &'a str, node: &'a Document) -> (kinds: Vec<NodeType<'a>>)
    requires
        node@.has_names(),
    ensures
        kinds@.len() == node@.entries().len(),
        forall|i: int|
            0 <= i < kinds@.len() ==> (#[trigger] kinds@[i])@ == classify(
                parent_name@,
                node@.entries()[i].key.text(),
                node@.entries()[i].value,
            ),
        forall|i: int|
            0 <= i < kinds@.len() ==> ((#[trigger] kinds@[i]) matches NodeType::Child(named)
                ==> *named.1 == node.spec_entries()[i].value),
{
    let mut kinds: Vec<NodeType<'a>> = Vec::new();
    match node {
        Document::Mapping(entries) => {
            let mut i: usize = 0;
            while i < entries.len()
                invariant
                    i <= entries.len(),
                    node == Document::Mapping(*entries),
                    node@.has_names(),
                    kinds@.len() == i,
                    forall|k: int|
                        0 <= k < i ==> (#[trigger] kinds@[k])@ == classify(
                            parent_name@,
                            node@.entries()[k].key.text(),
                            node@.entries()[k].value,
                        ),
                    forall|k: int|
                        0 <= k < i ==> ((#[trigger] kinds@[k]) matches NodeType::Child(named)
                            ==> *named.1 == entries@[k].value),
                decreases entries.len() - i,
            {
                let entry = &entries[i];
                assert(node@.entries()[i as int] == entry@);
                let kind = match &entry.key {
                    Document::Text(key) => child_or_violator(parent_name, key.as_str(), &entry.value),
                    _ => vstd::pervasive::unreached(),
                };
                kinds.push(kind);
                i += 1;
            }
        },
        _ => {},
    }
    kinds
}

/// The string that `node` gives for the attribute key `attr`, or `default`.
pub fn attr_getter<'a>(node: &'a Document, attr: &'a str, default: &'a str) -> (found: &'a str)
    ensures
        found@ == self::attr(node@.entries(), attr@, default@),
{
    match node.get(attr) {
        Some(Document::Text(s)) => s.as_str(),
        _ => default,
    }
}

/// The attributes of the node `node` called `name`.
pub fn build_data(node: &Document, name: &str) -> (data: LeafData)
    ensures
        data@ == data_of(name@, node@.entries()),
{
    LeafData {
        name: String::from_str(name),
        value: String::from_str(attr_getter(node, ".value", name)),
        chord: String::from_str(attr_getter(node, ".chord", name)),
        desc: String::from_str(attr_getter(node, ".desc", name)),
    }
}

/// Joins lists of violations into one, in order.
fn flatten(lists: Vec<Vec<Violation>>) -> (all: Vec<Violation>)
    ensures
        views(all@) == flat(lists@),
{
    let mut all: Vec<Violation> = Vec::new();
    let ghost given = lists@;
    assert(views(all@) =~= flat(given.take(0)));
    for list in it: lists.into_iter()
        invariant
            it.seq() == given,
            views(all@) == flat(given.take(it.index() as int)),
    {
        let mut list = list;
        let ghost before = all@;
        let ghost added = list@;
        all.append(&mut list);
        proof {
            let now = given.take(it.index() + 1);
            assert(now.drop_last() =~= given.take(it.index() as int));
            assert(now.last() == given[it.index() as int]);
            assert(views(all@) =~= views(before) + views(added));
        }
    }
    assert(given.take(given.len() as int) =~= given);
    all
}

/// `node_to_tree` on a node and its name given as one value.
pub fn uncurried_node_to_tree(named_node: NamedNode) -> (built: (Tree, Vec<Violation>))
    requires
        named_node.1@.is_menu(),
    ensures
        built.0@ == tree_of(named_node.0@, named_node.1@),
        views(built.1@) == violations_of(named_node.0@, named_node.1@),
    decreases named_node.1, 1int,
{
    let (name, node) = named_node;
    node_to_tree(name, node)
}

/// Builds the tree of the node `node` called `name`, and lists every
/// violation found on the way: those inside child nodes first.
pub fn node_to_tree(name: &str, node: &Document) -> (built: (Tree, Vec<Violation>))
    requires
        node@.is_menu(),
    ensures
        built.0@ == tree_of(name@, node@),
        views(built.1@) == violations_of(name@, node@),
    decreases node, 0int,
{
    let classified = children(name, node);
    let ghost entries = node@.entries();
    let ghost kinds = classified@;
    let mut violations: Vec<Violation> = Vec::new();
    let mut results: Vec<(Tree, Vec<Violation>)> = Vec::new();
    assert(views(violations@) =~= level_violations(name@, entries, 0));
    assert(Seq::new(results@.len(), |k: int| results@[k].0@) =~= subtrees(entries, 0));
    assert(Seq::new(results@.len(), |k: int| results@[k].1) =~= Seq::<Vec<Violation>>::empty());
    for kind in it: classified.into_iter()
        invariant
            it.seq() == kinds,
            kinds.len() == entries.len(),
            entries == node@.entries(),
            node@.is_menu(),
            forall|i: int|
                0 <= i < kinds.len() ==> (#[trigger] kinds[i])@ == classify(
                    name@,
                    entries[i].key.text(),
                    entries[i].value,
                ),
            forall|i: int|
                0 <= i < kinds.len() ==> ((#[trigger] kinds[i]) matches NodeType::Child(named)
                    ==> *named.1 == node.spec_entries()[i].value),
            views(violations@) == level_violations(name@, entries, it.index() as int),
            Seq::new(results@.len(), |k: int| results@[k].0@) == subtrees(entries, it.index() as int),
            flat(Seq::new(results@.len(), |k: int| results@[k].1)) == nested_violations(
                entries,
                it.index() as int,
            ),
    {
        let ghost i = it.index() as int;
        assert(kind == kinds[i]);
        match kind {
            NodeType::Violator(violation) => {
                let ghost before = violations@;
                violations.push(violation);
                assert(views(violations@) =~= views(before).push(violation@));
            },
            NodeType::Child(named_node) => {
                assert(entries[i].value.is_menu());
                let ghost before = results@;
                let result = uncurried_node_to_tree(named_node);
                results.push(result);
                proof {
                    let firsts = Seq::new(before.len(), |k: int| before[k].0@);
                    let seconds = Seq::new(before.len(), |k: int| before[k].1);
                    assert(Seq::new(results@.len(), |k: int| results@[k].0@) =~= firsts.push(
                        result.0@,
                    ));
                    let now = Seq::new(results@.len(), |k: int| results@[k].1);
                    assert(now.drop_last() =~= seconds);
                    assert(now.last() == result.1);
                }
            },
            NodeType::Value(_) => {},
        }
    }
    let ghost pairs = results@;
    let (trees, mut nested) = list_of_pairs_into_pair_of_lists(results);
    proof {
        let lists = nested@.push(violations);
        assert(lists.drop_last() =~= nested@);
        assert(lists.last() == violations);
        assert(nested@ =~= Seq::new(pairs.len(), |k: int| pairs[k].1));
    }
    nested.push(violations);
    let violations = flatten(nested);
    let data = build_data(node, name);
    let tree = if trees.len() == 0 {
        Tree::Leaf(data)
    } else {
        let ghost kids = trees@;
        let tree = Tree::Node(data, trees);
        assert(tree@ == TreeView::Node(data@, subtrees(entries, entries.len() as int))) by {
            assert(tree@->Node_1 =~= subtrees(entries, entries.len() as int));
        }
        tree
    };
    (tree, violations)
}

/// Loads every document of the YAML text `text`.
pub fn load_documents(text: &str) -> (loaded: Result<Vec<Document>, ParseError>)
    ensures
        match loaded {
            Ok(docs) => yaml_load(text@) == Ok::<Seq<DocumentView>, Seq<char>>(
                document_views(docs@),
            ),
            Err(ParseError::Syntax(message)) => yaml_load(text@) == Err::<
                Seq<DocumentView>,
                Seq<char>,
            >(message@),
            Err(_) => false,
        },
{
    match load_yaml(text) {
        Ok(yamls) => {
            let mut docs: Vec<Document> = Vec::new();
            let mut i: usize = 0;
            while i < yamls.len()
                invariant
                    i <= yamls.len(),
                    docs@.len() == i,
                    forall|k: int| 0 <= k < i ==> (#[trigger] docs@[k])@ == yaml_content(yamls@[k]),
                decreases yamls.len() - i,
            {
                docs.push(document_of(&yamls[i]));
                i += 1;
            }
            assert(document_views(docs@) =~= yaml_contents(yamls@));
            Ok(docs)
        },
        Err(message) => Err(ParseError::Syntax(message)),
    }
}

/// Builds the menu that the document `doc` defines, under a root node
/// called "root". Fails where the document has not the shape of a menu.
pub fn parse_document(doc: &Document) -> (parsed: Result<(Tree, Vec<Violation>), ParseError>)
    ensures
        match parsed {
            Ok((tree, violations)) => {
                &&& doc@.is_menu()
                &&& tree@ == tree_of("root"@, doc@)
                &&& views(violations@) == violations_of("root"@, doc@)
            },
            Err(ParseError::Shape) => !doc@.is_menu(),
            Err(_) => false,
        },
{
    if doc.is_menu() {
        Ok(node_to_tree("root", doc))
    } else {
        Err(ParseError::Shape)
    }
}

/// Builds the menu that the first document of the YAML text `yml` defines,
/// with the violations found in it. Fails where the text is malformed,
/// holds no document, or its first document has not the shape of a menu.
pub fn parse(yml: &str) -> (parsed: Result<(Tree, Vec<Violation>), ParseError>)
    ensures
        match parsed {
            Ok((tree, violations)) => {
                &&& yaml_load(yml@) matches Ok(docs)
                &&& docs.len() > 0
                &&& docs[0].is_menu()
                &&& tree@ == tree_of("root"@, docs[0])
                &&& views(violations@) == violations_of("root"@, docs[0])
            },
            Err(ParseError::Syntax(message)) => yaml_load(yml@) == Err::<
                Seq<DocumentView>,
                Seq<char>,
            >(message@),
            Err(ParseError::Empty) => yaml_load(yml@) matches Ok(docs) && docs.len() == 0,
            Err(ParseError::Shape) => {
                &&& yaml_load(yml@) matches Ok(docs)
                &&& docs.len() > 0
                &&& !docs[0].is_menu()
            },
        },
{
    match load_documents(yml) {
        Ok(docs) => {
            if docs.len() == 0 {
                Err(ParseError::Empty)
            } else {
                parse_document(&docs[0])
            }
        },
        Err(error) => Err(error),
    }
}

/// Whether `v` reports the key `key` of the node `parent`.
pub open spec fn reports(v: ViolationView, parent: Seq<char>, key: Seq<char>) -> bool {
    v.parent_name == parent && v.child_name == key
}

/// An entry that is a violation is among the violations of its level.
pub proof fn lemma_level_reports(name: Seq<char>, entries: Seq<EntryView>, i: int, n: int)
    requires
        0 <= i < n <= entries.len(),
        classify(name, entries[i].key.text(), entries[i].value) is Violator,
    ensures
        level_violations(name, entries, n).contains(
            classify(name, entries[i].key.text(), entries[i].value)->Violator_0,
        ),
    decreases n,
{
    let v = classify(name, entries[i].key.text(), entries[i].value)->Violator_0;
    let now = level_violations(name, entries, n);
    if i == n - 1 {
        assert(now[now.len() - 1] == v);
    } else {
        lemma_level_reports(name, entries, i, n - 1);
        let before = level_violations(name, entries, n - 1);
        let j = choose|j: int| 0 <= j < before.len() && before[j] == v;
        assert(now[j] == v);
    }
}

/// A key of a node that is not reserved and maps to no mapping is reported
/// as a violation with the name of the node and the key.
pub proof fn lemma_scalar_key_is_reported(name: Seq<char>, doc: DocumentView, i: int)
    requires
        doc is Mapping,
        0 <= i < doc.entries().len(),
        doc.entries()[i].key is Text,
        !reserved(doc.entries()[i].key.text()),
        !(doc.entries()[i].value is Mapping),
    ensures
        exists|j: int|
            0 <= j < violations_of(name, doc).len() && reports(
                #[trigger] violations_of(name, doc)[j],
                name,
                doc.entries()[i].key.text(),
            ),
{
    let entries = doc.entries();
    let n = entries.len() as int;
    let v = classify(name, entries[i].key.text(), entries[i].value)->Violator_0;
    lemma_level_reports(name, entries, i, n);
    let own = level_violations(name, entries, n);
    let nested = nested_violations(entries, n);
    let k = choose|k: int| 0 <= k < own.len() && own[k] == v;
    assert(violations_of(name, doc)[nested.len() + k] == v);
    assert(reports(violations_of(name, doc)[nested.len() + k], name, entries[i].key.text()));
}

/// Every child of a built node comes from an entry that maps to a mapping:
/// a key that maps to anything else is no child.
pub proof fn lemma_children_come_from_mappings(entries: Seq<EntryView>, n: int, k: int)
    requires
        0 <= n <= entries.len(),
        0 <= k < subtrees(entries, n).len(),
    ensures
        exists|i: int|
            0 <= i < n && (#[trigger] entries[i]).value is Mapping && subtrees(entries, n)[k]
                == tree_of(entries[i].key.text(), entries[i].value),
    decreases n,
{
    if n > 0 {
        let before = subtrees(entries, n - 1);
        if k < before.len() {
            lemma_children_come_from_mappings(entries, n - 1, k);
            let i = choose|i: int|
                0 <= i < n - 1 && (#[trigger] entries[i]).value is Mapping && before[k] == tree_of(
                    entries[i].key.text(),
                    entries[i].value,
                );
            assert(entries[i].value is Mapping);
        } else {
            assert(entries[n - 1].value is Mapping);
        }
    }
}

/// A built node has as many children as its mapping has entries that map to
/// a mapping.
pub proof fn lemma_children_count(entries: Seq<EntryView>, n: int)
    requires
        0 <= n <= entries.len(),
    ensures
        subtrees(entries, n).len() == mappings_upto(entries, n),
    decreases n,
{
    if n > 0 {
        lemma_children_count(entries, n - 1);
    }
}

/// How many of the first `n` entries map to a mapping.
pub open spec fn mappings_upto(entries: Seq<EntryView>, n: int) -> int
    decreases n,
{
    if n <= 0 || n > entries.len() {
        0
    } else if entries[n - 1].value is Mapping {
        mappings_upto(entries, n - 1) + 1
    } else {
        mappings_upto(entries, n - 1)
    }
}

/// Whether every branch of `tree` has a child: a node without children is
/// a leaf.
pub open spec fn leaves_are_childless(tree: TreeView) -> bool
    decreases tree,
{
    match tree {
        TreeView::Leaf(_) => true,
        TreeView::Node(_, kids) => kids.len() > 0 && forall|i: int|
            0 <= i < kids.len() ==> leaves_are_childless(#[trigger] kids[i]),
    }
}

/// In a built tree a node is a leaf exactly where it has no child.
pub proof fn lemma_built_leaves_are_childless(name: Seq<char>, doc: DocumentView)
    ensures
        leaves_are_childless(tree_of(name, doc)),
    decreases doc, 0int,
{
    match doc {
        DocumentView::Mapping(entries) => {
            lemma_built_children(entries, entries.len() as int);
            let kids = subtrees(entries, entries.len() as int);
            if kids.len() > 0 {
                assert(tree_of(name, doc) == TreeView::Node(data_of(name, entries), kids));
                assert(leaves_are_childless(TreeView::Node(data_of(name, entries), kids)));
            }
        },
        _ => {},
    }
}

/// Every child built from the first `n` entries is a leaf exactly where it
/// has no child.
pub proof fn lemma_built_children(entries: Seq<EntryView>, n: int)
    requires
        0 <= n <= entries.len(),
    ensures
        forall|k: int|
            0 <= k < subtrees(entries, n).len() ==> leaves_are_childless(
                #[trigger] subtrees(entries, n)[k],
            ),
    decreases entries, n,
{
    if n > 0 {
        lemma_built_children(entries, n - 1);
        let entry = entries[n - 1];
        let before = subtrees(entries, n - 1);
        let now = subtrees(entries, n);
        if entry.value is Mapping {
            lemma_built_leaves_are_childless(entry.key.text(), entry.value);
        }
        assert forall|k: int| 0 <= k < now.len() implies leaves_are_childless(#[trigger] now[k]) by {
            if k < before.len() {
                assert(now[k] == before[k]);
            }
        }
    }
}

/// The root of a built tree has the name it was built under.
pub proof fn lemma_built_name(name: Seq<char>, doc: DocumentView)
    ensures
        match tree_of(name, doc) {
            TreeView::Leaf(d) => d.name == name,
            TreeView::Node(d, kids) => d.name == name && kids.len() > 0,
        },
{
}

} // verus!

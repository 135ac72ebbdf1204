//! The immutable menu tree and its transition queries.

use crate::text::{same_text, starts_with};
use vstd::prelude::*;

verus! {

/// The attributes every node of a menu carries.
#[derive(Debug)]
pub struct LeafData {
    pub name: String,
    pub desc: String,
    pub chord: String,
    pub value: String,
}

/// What a `LeafData` holds, as sequences of characters.
pub struct LeafDataView {
    pub name: Seq<char>,
    pub desc: Seq<char>,
    pub chord: Seq<char>,
    pub value: Seq<char>,
}

impl LeafData {
    /// Whether two sets of attributes hold the same strings.
    pub fn same(&self, other: &LeafData) -> (b: bool)
        ensures
            b == (self@ == other@),
    {
        same_text(self.name.as_str(), other.name.as_str()) && same_text(
            self.desc.as_str(),
            other.desc.as_str(),
        ) && same_text(self.chord.as_str(), other.chord.as_str()) && same_text(
            self.value.as_str(),
            other.value.as_str(),
        )
    }
}

impl PartialEq for LeafData {
    fn eq(&self, other: &LeafData) -> (b: bool) {
        self.same(other)
    }
}

impl vstd::std_specs::cmp::PartialEqSpecImpl for LeafData {
    open spec fn obeys_eq_spec() -> bool {
        true
    }

    open spec fn eq_spec(&self, other: &LeafData) -> bool {
        self@ == other@
    }
}

impl View for LeafData {
    type V = LeafDataView;

    open spec fn view(&self) -> LeafDataView {
        LeafDataView {
            name: self.name@,
            desc: self.desc@,
            chord: self.chord@,
            value: self.value@,
        }
    }
}

/// A menu: a `Leaf` is a selectable option, a `Node` holds further options.
#[derive(Debug)]
pub enum Tree {
    Node(LeafData, Vec<Tree>),
    Leaf(LeafData),
}

/// What a `Tree` holds: the attributes of each node and the order of its children.
pub enum TreeView {
    Node(LeafDataView, Seq<TreeView>),
    Leaf(LeafDataView),
}

impl View for Tree {
    type V = TreeView;

    open spec fn view(&self) -> TreeView
        decreases self,
    {
        match self {
            Tree::Leaf(d) => TreeView::Leaf(d@),
            Tree::Node(d, children) => TreeView::Node(
                d@,
                Seq::new(
                    children.len() as nat,
                    |i: int| if 0 <= i < children.len() { children[i]@ } else { TreeView::Leaf(d@) },
                ),
            ),
        }
    }
}

/// The chord that selects `t` among its siblings.
pub open spec fn chord_of(t: Tree) -> Seq<char> {
    t.spec_data().chord@
}

/// The trees that a sequence of references points to.
pub open spec fn trees(refs: Seq<&Tree>) -> Seq<Tree> {
    Seq::new(refs.len(), |i: int| *refs[i])
}

/// Whether a later sibling of `children[i]` has the same chord, so that
/// `children[i]` cannot be reached.
pub open spec fn shadowed(children: Seq<Tree>, i: int) -> bool {
    exists|j: int| i < j < children.len() && chord_of(#[trigger] children[j]) == chord_of(children[i])
}

/// Whether `children[i]` is offered for `prefix`: its chord starts with
/// `prefix` and no later sibling shadows it.
pub open spec fn offered(children: Seq<Tree>, prefix: Seq<char>, i: int) -> bool {
    prefix.is_prefix_of(chord_of(children[i])) && !shadowed(children, i)
}

/// The children among the first `n` that are offered for `prefix`, in order.
pub open spec fn offered_upto(children: Seq<Tree>, prefix: Seq<char>, n: int) -> Seq<Tree>
    decreases n,
{
    if n <= 0 {
        Seq::empty()
    } else if offered(children, prefix, n - 1) {
        offered_upto(children, prefix, n - 1).push(children[n - 1])
    } else {
        offered_upto(children, prefix, n - 1)
    }
}

/// The index of the last of `nodes` whose chord is exactly `chord`, or -1.
pub open spec fn reached_at(nodes: Seq<Tree>, chord: Seq<char>) -> int
    decreases nodes.len(),
{
    if nodes.len() == 0 {
        -1
    } else if chord_of(nodes.last()) == chord {
        nodes.len() - 1
    } else {
        reached_at(nodes.drop_last(), chord)
    }
}

/// The last of `nodes` whose chord is exactly `chord`, if there is one.
pub open spec fn reached(nodes: Seq<Tree>, chord: Seq<char>) -> Option<Tree> {
    let i = reached_at(nodes, chord);
    if i < 0 {
        None
    } else {
        Some(nodes[i])
    }
}

/// `reached_at` gives an index of `nodes` with the chord asked for, after
/// which no node has that chord; or -1 where no node has it.
pub proof fn lemma_reached_at(nodes: Seq<Tree>, chord: Seq<char>)
    ensures
        -1 <= reached_at(nodes, chord) < nodes.len(),
        reached_at(nodes, chord) >= 0 ==> chord_of(nodes[reached_at(nodes, chord)]) == chord,
        forall|j: int|
            reached_at(nodes, chord) < j < nodes.len() ==> chord_of(#[trigger] nodes[j]) != chord,
    decreases nodes.len(),
{
    if nodes.len() > 0 && chord_of(nodes.last()) != chord {
        let front = nodes.drop_last();
        lemma_reached_at(front, chord);
        assert forall|j: int| reached_at(nodes, chord) < j < nodes.len() implies chord_of(
            #[trigger] nodes[j],
        ) != chord by {
            if j < front.len() {
                assert(front[j] == nodes[j]);
            }
        }
    }
}

/// The last index with a chord is the one that `reached_at` gives.
pub proof fn lemma_reached_at_is_last(nodes: Seq<Tree>, chord: Seq<char>, i: int)
    requires
        0 <= i < nodes.len(),
        chord_of(nodes[i]) == chord,
        forall|j: int| i < j < nodes.len() ==> chord_of(#[trigger] nodes[j]) != chord,
    ensures
        reached_at(nodes, chord) == i,
{
    lemma_reached_at(nodes, chord);
}

/// Whether no two of `children` have the same chord.
pub open spec fn distinct_chords(children: Seq<Tree>) -> bool {
    forall|i: int, j: int|
        0 <= i < j < children.len() ==> chord_of(#[trigger] children[i]) != chord_of(
            #[trigger] children[j],
        )
}

/// Whether `t` is one of the first `n` children and offered for `prefix`.
pub open spec fn offered_child(children: Seq<Tree>, prefix: Seq<char>, n: int, t: Tree) -> bool {
    exists|i: int| 0 <= i < n && offered(children, prefix, i) && #[trigger] children[i] == t
}

/// Each of the children offered is a child that no later sibling shadows,
/// and no two of those offered have the same chord.
pub proof fn lemma_offered_are_distinct(children: Seq<Tree>, prefix: Seq<char>, n: int)
    requires
        0 <= n <= children.len(),
    ensures
        distinct_chords(offered_upto(children, prefix, n)),
        forall|k: int|
            0 <= k < offered_upto(children, prefix, n).len() ==> offered_child(
                children,
                prefix,
                n,
                #[trigger] offered_upto(children, prefix, n)[k],
            ),
    decreases n,
{
    if n > 0 {
        lemma_offered_are_distinct(children, prefix, n - 1);
        let before = offered_upto(children, prefix, n - 1);
        let now = offered_upto(children, prefix, n);
        assert forall|k: int| 0 <= k < now.len() implies offered_child(
            children,
            prefix,
            n,
            #[trigger] now[k],
        ) by {
            if k < before.len() {
                assert(offered_child(children, prefix, n - 1, before[k]));
                let i = choose|i: int|
                    0 <= i < n - 1 && offered(children, prefix, i) && #[trigger] children[i]
                        == before[k];
                assert(children[i] == now[k]);
            } else {
                assert(children[n - 1] == now[k]);
            }
        }
        if offered(children, prefix, n - 1) {
            assert forall|a: int, b: int| 0 <= a < b < now.len() implies chord_of(
                #[trigger] now[a],
            ) != chord_of(#[trigger] now[b]) by {
                if b == now.len() - 1 {
                    assert(offered_child(children, prefix, n - 1, before[a]));
                    let i = choose|i: int|
                        0 <= i < n - 1 && offered(children, prefix, i) && #[trigger] children[i]
                            == before[a];
                    assert(!shadowed(children, i));
                    assert(now[b] == children[n - 1]);
                    assert(now[a] == children[i]);
                } else {
                    assert(now[a] == before[a] && now[b] == before[b]);
                }
            }
        }
    }
}

/// Looking a chord up among the children offered for a prefix finds what
/// looking it up among all children finds, provided the chord starts with
/// the prefix; otherwise it finds nothing.
pub proof fn lemma_reached_among_offered(
    children: Seq<Tree>,
    prefix: Seq<char>,
    chord: Seq<char>,
    n: int,
)
    requires
        0 <= n <= children.len(),
    ensures
        reached(offered_upto(children, prefix, n), chord) == if prefix.is_prefix_of(chord)
            && 0 <= reached_at(children, chord) < n {
            Some(children[reached_at(children, chord)])
        } else {
            None
        },
    decreases n,
{
    lemma_reached_at(children, chord);
    let m = reached_at(children, chord);
    if n > 0 {
        lemma_reached_among_offered(children, prefix, chord, n - 1);
        let before = offered_upto(children, prefix, n - 1);
        let x = children[n - 1];
        if offered(children, prefix, n - 1) {
            let now = before.push(x);
            assert(now.drop_last() =~= before);
            assert(now.last() == x);
            if chord_of(x) != chord {
                lemma_reached_at(before, chord);
                let at = reached_at(before, chord);
                assert(reached_at(now, chord) == at);
                if at >= 0 {
                    assert(now[at] == before[at]);
                }
                assert(m != n - 1);
            } else {
                assert(reached_at(now, chord) == now.len() - 1);
                assert(m == n - 1) by {
                    if m < n - 1 {
                        assert(chord_of(children[n - 1]) != chord);
                    }
                    if m > n - 1 {
                        assert(shadowed(children, n - 1));
                    }
                }
            }
        } else {
            if m == n - 1 && prefix.is_prefix_of(chord) {
                assert(!shadowed(children, n - 1));
            }
        }
    }
}

/// The candidate transitions out of a node: children in menu order, no two of
/// them with the same chord.
pub struct Transitions<'a> {
    nodes: Vec<&'a Tree>,
}

impl<'a> View for Transitions<'a> {
    type V = Seq<Tree>;

    closed spec fn view(&self) -> Seq<Tree> {
        trees(self.nodes@)
    }
}

impl<'a> Transitions<'a> {
    /// How many candidates there are.
    pub fn len(&self) -> (n: usize)
        ensures
            n == self@.len(),
    {
        self.nodes.len()
    }

    /// Whether there is no candidate.
    pub fn is_empty(&self) -> (b: bool)
        ensures
            b == (self@.len() == 0),
    {
        self.nodes.len() == 0
    }

    /// The candidate whose chord is exactly `chord`.
    pub fn get(&self, chord: &str) -> (found: Option<&'a Tree>)
        ensures
            match found {
                Some(t) => reached(self@, chord@) == Some(*t),
                None => reached(self@, chord@) is None,
            },
    {
        let mut i = self.nodes.len();
        while i > 0
            invariant
                i <= self.nodes.len(),
                forall|j: int| i <= j < self@.len() ==> chord_of(#[trigger] self@[j]) != chord@,
            decreases i,
        {
            let node = self.nodes[i - 1];
            if same_text(node.data().chord.as_str(), chord) {
                proof {
                    lemma_reached_at_is_last(self@, chord@, i - 1);
                }
                return Some(node);
            }
            i -= 1;
        }
        proof {
            lemma_reached_at(self@, chord@);
        }
        None
    }

    /// The candidates in menu order.
    pub fn nodes(&self) -> (all: &Vec<&'a Tree>)
        ensures
            trees(all@) == self@,
    {
        &self.nodes
    }

    /// The candidates in menu order, as a list of their own.
    pub fn into_nodes(self) -> (all: Vec<&'a Tree>)
        ensures
            trees(all@) == self@,
    {
        self.nodes
    }
}

/// Whether a later sibling of `children[i]` has the same chord.
fn is_shadowed(children: &Vec<Tree>, i: usize) -> (b: bool)
    requires
        i < children.len(),
    ensures
        b == shadowed(children@, i as int),
{
    let chord = children[i].data().chord.as_str();
    let mut j = i + 1;
    while j < children.len()
        invariant
            i < j <= children.len(),
            chord@ == chord_of(children@[i as int]),
            forall|k: int| i < k < j ==> chord_of(#[trigger] children@[k]) != chord_of(children@[i as int]),
        decreases children.len() - j,
    {
        if same_text(children[j].data().chord.as_str(), chord) {
            return true;
        }
        j += 1;
    }
    false
}

impl Tree {
    /// The attributes of this node.
    pub open spec fn spec_data(&self) -> LeafData {
        match self {
            Tree::Leaf(d) => *d,
            Tree::Node(d, _) => *d,
        }
    }

    /// The immediate children of this node, in order; none for a `Leaf`.
    pub open spec fn spec_children(&self) -> Seq<Tree> {
        match self {
            Tree::Leaf(_) => Seq::empty(),
            Tree::Node(_, children) => children@,
        }
    }

    /// The immediate children offered for `prefix`, in menu order.
    pub open spec fn spec_transitions_by_prefix(&self, prefix: Seq<char>) -> Seq<Tree> {
        offered_upto(self.spec_children(), prefix, self.spec_children().len() as int)
    }

    /// The child that typing exactly `chord` selects.
    pub open spec fn spec_transition(&self, chord: Seq<char>) -> Option<Tree> {
        reached(self.spec_children(), chord)
    }

    /// The attributes of this node, whichever variant it is.
    pub fn data(&self) -> (d: &LeafData)
        ensures
            *d == self.spec_data(),
    {
        match self {
            Tree::Leaf(d) => d,
            Tree::Node(d, _) => d,
        }
    }

    /// The child whose chord is exactly `chord`: a lookup among `children()`.
    pub fn transition(&self, chord: &str) -> (found: Option<&Tree>)
        ensures
            match found {
                Some(t) => self.spec_transition(chord@) == Some(*t),
                None => self.spec_transition(chord@) is None,
            },
    {
        let all = self.children();
        proof {
            let kids = self.spec_children();
            lemma_reached_at(kids, chord@);
            lemma_reached_among_offered(kids, Seq::empty(), chord@, kids.len() as int);
        }
        all.get(chord)
    }

    /// Every immediate child that can be reached, in menu order.
    pub fn children(&self) -> (all: Transitions<'_>)
        ensures
            all@ == self.spec_transitions_by_prefix(Seq::empty()),
            distinct_chords(all@),
    {
        let all = self.transitions_by_prefix("");
        proof {
            reveal_strlit("");
            assert(""@ =~= Seq::<char>::empty());
        }
        all
    }

    /// The immediate children whose chord starts with `prefix`, in menu
    /// order. Of siblings that share a chord only the last is offered.
    pub fn transitions_by_prefix(&self, prefix: &str) -> (found: Transitions<'_>)
        ensures
            found@ == self.spec_transitions_by_prefix(prefix@),
            distinct_chords(found@),
    {
        proof {
            lemma_offered_are_distinct(
                self.spec_children(),
                prefix@,
                self.spec_children().len() as int,
            );
        }
        let mut nodes: Vec<&Tree> = Vec::new();
        match self {
            Tree::Leaf(_) => {
                assert(trees(nodes@) =~= Seq::<Tree>::empty());
            },
            Tree::Node(_, children) => {
                let mut i: usize = 0;
                assert(trees(nodes@) =~= Seq::<Tree>::empty());
                while i < children.len()
                    invariant
                        i <= children.len(),
                        trees(nodes@) == offered_upto(children@, prefix@, i as int),
                    decreases children.len() - i,
                {
                    let child = &children[i];
                    if starts_with(child.data().chord.as_str(), prefix) && !is_shadowed(children, i) {
                        let ghost before = nodes@;
                        nodes.push(child);
                        assert(trees(nodes@) =~= trees(before).push(*child));
                    }
                    i += 1;
                }
            },
        }
        Transitions { nodes }
    }

    /// Whether two trees hold the same menu: the same attributes at every
    /// node and the same children in the same order.
    pub fn same(&self, other: &Tree) -> (b: bool)
        ensures
            b == (self@ == other@),
        decreases self,
    {
        match self {
            Tree::Leaf(mine) => match other {
                Tree::Leaf(theirs) => mine.same(theirs),
                Tree::Node(_, _) => false,
            },
            Tree::Node(mine, kids) => match other {
                Tree::Leaf(_) => false,
                Tree::Node(theirs, others) => {
                    assert(self@ == TreeView::Node(mine@, self@->Node_1));
                    assert(other@ == TreeView::Node(theirs@, other@->Node_1));
                    assert(self@->Node_1.len() == kids.len());
                    assert(other@->Node_1.len() == others.len());
                    if !mine.same(theirs) || kids.len() != others.len() {
                        return false;
                    }
                    let mut i: usize = 0;
                    while i < kids.len()
                        invariant
                            i <= kids.len(),
                            kids.len() == others.len(),
                            self == Tree::Node(*mine, *kids),
                            other == Tree::Node(*theirs, *others),
                            mine@ == theirs@,
                            forall|k: int| 0 <= k < i ==> (#[trigger] kids@[k])@ == others@[k]@,
                        decreases kids.len() - i,
                    {
                        if !kids[i].same(&others[i]) {
                            assert(self@->Node_1[i as int] != other@->Node_1[i as int]);
                            return false;
                        }
                        i += 1;
                    }
                    assert(self@->Node_1 =~= other@->Node_1);
                    true
                },
            },
        }
    }

    /// Whether this node is a `Leaf`.
    pub fn is_leaf(&self) -> (b: bool)
        ensures
            b == (self is Leaf),
    {
        match *self {
            Tree::Leaf(_) => true,
            _ => false,
        }
    }
}

/// The test that a node passes when its chord starts with `prefix`.
pub open spec fn chord_starts_with(prefix: Seq<char>) -> spec_fn(Tree) -> bool {
    |t: Tree| prefix.is_prefix_of(chord_of(t))
}

/// The children offered for a prefix are those offered for the empty prefix
/// whose chord starts with the prefix, in the same order.
pub proof fn lemma_prefix_restricts_listing(children: Seq<Tree>, prefix: Seq<char>, n: int)
    requires
        0 <= n <= children.len(),
    ensures
        offered_upto(children, prefix, n) == offered_upto(children, Seq::empty(), n).filter(
            chord_starts_with(prefix),
        ),
    decreases n,
{
    reveal(Seq::filter);
    if n > 0 {
        lemma_prefix_restricts_listing(children, prefix, n - 1);
        let all = offered_upto(children, Seq::empty(), n);
        let before = offered_upto(children, Seq::empty(), n - 1);
        if offered(children, Seq::empty(), n - 1) {
            assert(all.drop_last() =~= before);
            assert(all.last() == children[n - 1]);
        }
    }
}

/// For every prefix, the transitions of a node are its children listing
/// restricted to the chords that start with the prefix.
pub proof fn lemma_transitions_are_listed_children(tree: Tree, prefix: Seq<char>)
    ensures
        tree.spec_transitions_by_prefix(prefix) == tree.spec_transitions_by_prefix(
            Seq::empty(),
        ).filter(chord_starts_with(prefix)),
{
    lemma_prefix_restricts_listing(
        tree.spec_children(),
        prefix,
        tree.spec_children().len() as int,
    );
}

/// Every child with a chord of at least one character is listed under the
/// first character of its chord exactly where it is listed at all: the
/// listing for the empty prefix is the listings for the single characters
/// taken together, and the children with an empty chord.
pub proof fn lemma_listed_under_first_character(tree: Tree, t: Tree)
    requires
        chord_of(t).len() > 0,
    ensures
        tree.spec_transitions_by_prefix(Seq::empty()).contains(t)
            <==> tree.spec_transitions_by_prefix(chord_of(t).take(1)).contains(t),
{
    let first = chord_of(t).take(1);
    let all = tree.spec_transitions_by_prefix(Seq::empty());
    lemma_transitions_are_listed_children(tree, first);
    if all.contains(t) {
        let i = choose|i: int| 0 <= i < all.len() && all[i] == t;
        all.lemma_filter_contains(chord_starts_with(first), i);
    }
    if all.filter(chord_starts_with(first)).contains(t) {
        all.lemma_filter_contains_rev(chord_starts_with(first), t);
    }
}

/// Looking a chord up among the transitions for a prefix finds the child
/// that the chord selects, where the chord starts with the prefix, and
/// nothing otherwise.
pub proof fn lemma_lookup_in_transitions(tree: Tree, prefix: Seq<char>, chord: Seq<char>)
    ensures
        reached(tree.spec_transitions_by_prefix(prefix), chord) == if prefix.is_prefix_of(chord) {
            tree.spec_transition(chord)
        } else {
            None
        },
{
    let kids = tree.spec_children();
    lemma_reached_at(kids, chord);
    lemma_reached_among_offered(kids, prefix, chord, kids.len() as int);
}

/// The listing for the empty prefix leaves no chord out: looking up the
/// chord of any child in it finds the child that the chord selects.
pub proof fn lemma_listing_has_every_chord(tree: Tree, i: int)
    requires
        0 <= i < tree.spec_children().len(),
    ensures
        reached(tree.spec_transitions_by_prefix(Seq::empty()), chord_of(tree.spec_children()[i]))
            == tree.spec_transition(chord_of(tree.spec_children()[i])),
        tree.spec_transition(chord_of(tree.spec_children()[i])) is Some,
{
    let kids = tree.spec_children();
    let chord = chord_of(kids[i]);
    lemma_reached_at(kids, chord);
    lemma_reached_among_offered(kids, Seq::empty(), chord, kids.len() as int);
}

/// Where no two children share a chord, the listing for the empty prefix is
/// the children themselves.
pub proof fn lemma_listing_of_distinct_chords(children: Seq<Tree>, n: int)
    requires
        distinct_chords(children),
        0 <= n <= children.len(),
    ensures
        offered_upto(children, Seq::empty(), n) == children.take(n),
    decreases n,
{
    if n > 0 {
        lemma_listing_of_distinct_chords(children, n - 1);
        assert(!shadowed(children, n - 1));
        assert(children.take(n) =~= children.take(n - 1).push(children[n - 1]));
    } else {
        assert(children.take(0) =~= Seq::<Tree>::empty());
    }
}

/// A node with distinct chords among its children lists all of them.
pub proof fn lemma_children_lists_all(tree: Tree)
    requires
        distinct_chords(tree.spec_children()),
    ensures
        tree.spec_transitions_by_prefix(Seq::empty()) == tree.spec_children(),
{
    let kids = tree.spec_children();
    lemma_listing_of_distinct_chords(kids, kids.len() as int);
    assert(kids.take(kids.len() as int) =~= kids);
}

/// Where a chord selects a child, every prefix of the chord offers at least
/// that child.
pub proof fn lemma_prefix_of_chord_offers(tree: Tree, prefix: Seq<char>, chord: Seq<char>)
    requires
        tree.spec_transition(chord) is Some,
        prefix.is_prefix_of(chord),
    ensures
        tree.spec_transitions_by_prefix(prefix).len() > 0,
{
    let kids = tree.spec_children();
    lemma_reached_at(kids, chord);
    lemma_reached_among_offered(kids, prefix, chord, kids.len() as int);
    lemma_reached_at(tree.spec_transitions_by_prefix(prefix), chord);
}

/// What a chord selects has that chord and is one of the children.
pub proof fn lemma_transition_is_child(tree: Tree, chord: Seq<char>)
    requires
        tree.spec_transition(chord) is Some,
    ensures
        chord_of(tree.spec_transition(chord)->0) == chord,
        tree.spec_children().contains(tree.spec_transition(chord)->0),
        tree is Node,
{
    lemma_reached_at(tree.spec_children(), chord);
}

} // verus!

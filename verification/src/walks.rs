//! What holds of every navigation: how states follow from one another as
//! chords are typed along a path of the menu.

use crate::driver::{backtrack, drive, feed, head_of, initial, pick, picked, step, Command, Signal, State};
use crate::tree::{chord_of, lemma_prefix_of_chord_offers, lemma_transition_is_child, Tree};
use vstd::prelude::*;

verus! {

/// The state `s` with its buffer emptied.
pub open spec fn cleared(s: State) -> State {
    State { path: s.path, selections: s.selections, buffer: Seq::empty() }
}

/// Whether `path` leads from `root` down through branches, each selected
/// from the one before by its chord.
pub open spec fn valid_path(root: Tree, path: Seq<Tree>) -> bool {
    forall|i: int|
        0 <= i < path.len() ==> {
            &&& (#[trigger] path[i]) is Node
            &&& head_of(root, path.take(i)).spec_transition(chord_of(path[i])) == Some(path[i])
        }
}

/// Whether typing `chord` from `head` selects a child and cannot select
/// another one on the way: no proper beginning of it is a chord itself.
pub open spec fn unambiguous(head: Tree, chord: Seq<char>) -> bool {
    &&& chord.len() > 0
    &&& head.spec_transition(chord) is Some
    &&& forall|k: int| 0 < k < chord.len() ==> head.spec_transition(#[trigger] chord.take(k)) is None
}

/// Whether each of `nodes` is selected from the one before, the first from
/// `head`, by an unambiguous chord.
pub open spec fn chain(head: Tree, nodes: Seq<Tree>) -> bool {
    forall|i: int|
        0 <= i < nodes.len() ==> {
            let from = if i == 0 {
                head
            } else {
                nodes[i - 1]
            };
            &&& unambiguous(from, chord_of(#[trigger] nodes[i]))
            &&& from.spec_transition(chord_of(nodes[i])) == Some(nodes[i])
        }
}

/// The chords of `nodes`, one after the other.
pub open spec fn chords(nodes: Seq<Tree>) -> Seq<char>
    decreases nodes.len(),
{
    if nodes.len() == 0 {
        Seq::empty()
    } else {
        chords(nodes.drop_last()) + chord_of(nodes.last())
    }
}

/// Whether every one of `nodes` is a branch.
pub open spec fn branches(nodes: Seq<Tree>) -> bool {
    forall|i: int| 0 <= i < nodes.len() ==> (#[trigger] nodes[i]) is Node
}

/// Typing a text and then one more character is typing the longer text.
pub proof fn lemma_feed_push(root: Tree, toggle: bool, s: State, text: Seq<char>, c: char)
    ensures
        feed(root, toggle, s, text.push(c)) == step(root, toggle, feed(root, toggle, s, text).0, c),
{
    assert(text.push(c).drop_last() =~= text);
}

/// Typing two texts one after the other is typing them joined; the signal
/// is that of the second, where it is not empty.
pub proof fn lemma_feed_concat(root: Tree, toggle: bool, s: State, a: Seq<char>, b: Seq<char>)
    ensures
        feed(root, toggle, s, a + b).0 == feed(root, toggle, feed(root, toggle, s, a).0, b).0,
        b.len() > 0 ==> feed(root, toggle, s, a + b) == feed(
            root,
            toggle,
            feed(root, toggle, s, a).0,
            b,
        ),
    decreases b.len(),
{
    if b.len() == 0 {
        assert(a + b =~= a);
    } else {
        lemma_feed_concat(root, toggle, s, a, b.drop_last());
        assert((a + b).drop_last() =~= a + b.drop_last());
        assert((a + b).last() == b.last());
    }
}

/// Picking a node that its chord selects from the head keeps the path a
/// path from the root.
pub proof fn lemma_pick_keeps_path(root: Tree, toggle: bool, s: State, node: Tree)
    requires
        valid_path(root, s.path),
        head_of(root, s.path).spec_transition(chord_of(node)) == Some(node),
    ensures
        valid_path(root, pick(toggle, s, node).0.path),
{
    let after = pick(toggle, s, node).0;
    if node is Node {
        assert forall|i: int| 0 <= i < after.path.len() implies {
            &&& (#[trigger] after.path[i]) is Node
            &&& head_of(root, after.path.take(i)).spec_transition(chord_of(after.path[i])) == Some(
                after.path[i],
            )
        } by {
            if i < s.path.len() {
                assert(after.path.take(i) =~= s.path.take(i));
                assert(after.path[i] == s.path[i]);
            } else {
                assert(after.path.take(i) =~= s.path);
            }
        }
    }
}

/// The path of a driver always leads from the root down through branches:
/// one character keeps it so.
pub proof fn lemma_step_keeps_path(root: Tree, toggle: bool, s: State, c: char)
    requires
        valid_path(root, s.path),
    ensures
        valid_path(root, step(root, toggle, s, c).0.path),
{
    let typed = s.buffer.push(c);
    let head = head_of(root, s.path);
    let after = step(root, toggle, s, c).0;
    if head.spec_transition(typed) is Some {
        let node = head.spec_transition(typed)->0;
        lemma_transition_is_child(head, typed);
        lemma_pick_keeps_path(root, toggle, s, node);
    }
}

/// Going back up keeps the path a path from the root.
pub proof fn lemma_backtrack_keeps_path(root: Tree, s: State)
    requires
        valid_path(root, s.path),
    ensures
        valid_path(root, backtrack(s).0.path),
{
    let after = backtrack(s).0;
    assert forall|i: int| 0 <= i < after.path.len() implies {
        &&& (#[trigger] after.path[i]) is Node
        &&& head_of(root, after.path.take(i)).spec_transition(chord_of(after.path[i])) == Some(
            after.path[i],
        )
    } by {
        assert(after.path.take(i) =~= s.path.take(i));
        assert(after.path[i] == s.path[i]);
    }
}

/// Typing a text keeps the path a path from the root.
pub proof fn lemma_feed_keeps_path(root: Tree, toggle: bool, s: State, text: Seq<char>)
    requires
        valid_path(root, s.path),
    ensures
        valid_path(root, feed(root, toggle, s, text).0.path),
    decreases text.len(),
{
    if text.len() > 0 {
        lemma_feed_keeps_path(root, toggle, s, text.drop_last());
        lemma_step_keeps_path(
            root,
            toggle,
            feed(root, toggle, s, text.drop_last()).0,
            text.last(),
        );
    }
}

/// Every command keeps the path a path from the root, and so does every
/// sequence of commands from the initial state, whose path is empty.
pub proof fn lemma_drive_keeps_path(root: Tree, toggle: bool, s: State, command: Command)
    requires
        valid_path(root, s.path),
    ensures
        valid_path(root, initial().path),
        valid_path(root, drive(root, toggle, s, command).0.path),
{
    match command {
        Command::Backtrack => lemma_backtrack_keeps_path(root, s),
        Command::Transition(text) => lemma_feed_keeps_path(root, toggle, s, text),
    }
}

/// Going back up never changes the selections, and with the toggle flag off
/// typing only ever adds to them.
pub proof fn lemma_selections_are_kept(root: Tree, s: State, command: Command)
    ensures
        backtrack(s).0.selections == s.selections,
        s.selections.is_prefix_of(drive(root, false, s, command).0.selections),
{
    match command {
        Command::Backtrack => {},
        Command::Transition(text) => lemma_feed_adds_selections(root, s, text),
    }
}

/// With the toggle flag off typing only ever adds to the selections.
pub proof fn lemma_feed_adds_selections(root: Tree, s: State, text: Seq<char>)
    ensures
        s.selections.is_prefix_of(feed(root, false, s, text).0.selections),
    decreases text.len(),
{
    if text.len() > 0 {
        lemma_feed_adds_selections(root, s, text.drop_last());
    }
}

/// A leaf is only ever unselected with the toggle flag on.
pub proof fn lemma_unpicked_needs_toggle(root: Tree, s: State, command: Command)
    ensures
        !(drive(root, false, s, command).1 is LeafUnpicked),
{
}

/// After a dead end the buffer is empty and nothing else has changed: the
/// next command finds the state that it would have found had the failed
/// characters never been typed.
pub proof fn lemma_dead_end_resets(root: Tree, toggle: bool, s: State, c: char, next: Command)
    requires
        step(root, toggle, s, c).1 is DeadEnd,
    ensures
        step(root, toggle, s, c).1 == Signal::DeadEnd(s.buffer.push(c)),
        step(root, toggle, s, c).0 == cleared(s),
        drive(root, toggle, step(root, toggle, s, c).0, next) == drive(
            root,
            toggle,
            cleared(s),
            next,
        ),
{
}

/// Where the last character of a text gave a dead end, the buffer is empty
/// afterwards.
pub proof fn lemma_dead_end_leaves_no_input(root: Tree, toggle: bool, s: State, text: Seq<char>)
    requires
        feed(root, toggle, s, text).1 is DeadEnd,
    ensures
        feed(root, toggle, s, text).0.buffer == Seq::<char>::empty(),
        text.len() > 0,
{
}

/// Going back up at the root gives `NoOp` and only clears the buffer: with
/// an empty buffer the state is unchanged.
pub proof fn lemma_backtrack_at_root(s: State)
    requires
        s.path.len() == 0,
    ensures
        backtrack(s) == (cleared(s), Signal::NoOp),
        s.buffer.len() == 0 ==> backtrack(s).0 == s,
{
    if s.buffer.len() == 0 {
        assert(s.buffer =~= Seq::<char>::empty());
    }
}

/// Going back up below the root leaves exactly the branch entered last and
/// gives `Popped`.
pub proof fn lemma_backtrack_pops(s: State)
    requires
        s.path.len() > 0,
    ensures
        backtrack(s).1 == Signal::Popped,
        backtrack(s).0.path == s.path.drop_last(),
        backtrack(s).0.path.len() == s.path.len() - 1,
        backtrack(s).0.selections == s.selections,
        backtrack(s).0.buffer == Seq::<char>::empty(),
{
}

/// While an unambiguous chord is being typed, every character before the
/// last gives `NoOp` and only lengthens the buffer.
pub proof fn lemma_typing_within_a_chord(
    root: Tree,
    toggle: bool,
    s: State,
    chord: Seq<char>,
    k: int,
)
    requires
        s.buffer.len() == 0,
        unambiguous(head_of(root, s.path), chord),
        0 <= k < chord.len(),
    ensures
        feed(root, toggle, s, chord.take(k)) == (
            State { path: s.path, selections: s.selections, buffer: chord.take(k) },
            Signal::NoOp,
        ),
    decreases k,
{
    if k == 0 {
        assert(chord.take(0) =~= Seq::<char>::empty());
        assert(s.buffer =~= Seq::<char>::empty());
    } else {
        lemma_typing_within_a_chord(root, toggle, s, chord, k - 1);
        let typed = chord.take(k);
        assert(typed.drop_last() =~= chord.take(k - 1));
        assert(chord.take(k - 1).push(typed.last()) =~= typed);
        lemma_prefix_of_chord_offers(head_of(root, s.path), typed, chord);
    }
}

/// The last character of an unambiguous chord picks the child that the
/// chord selects.
pub proof fn lemma_typing_a_chord(root: Tree, toggle: bool, s: State, chord: Seq<char>)
    requires
        s.buffer.len() == 0,
        unambiguous(head_of(root, s.path), chord),
    ensures
        feed(root, toggle, s, chord) == pick(
            toggle,
            s,
            head_of(root, s.path).spec_transition(chord)->0,
        ),
{
    let k = chord.len() - 1;
    lemma_typing_within_a_chord(root, toggle, s, chord, k);
    assert(chord.drop_last() =~= chord.take(k));
    assert(chord.take(k).push(chord.last()) =~= chord);
}

/// Typing the chords of a chain of branches enters them one after the
/// other and selects each.
pub proof fn lemma_typing_branches(root: Tree, toggle: bool, s: State, nodes: Seq<Tree>)
    requires
        s.buffer.len() == 0,
        chain(head_of(root, s.path), nodes),
        branches(nodes),
    ensures
        feed(root, toggle, s, chords(nodes)).0 == (State {
            path: s.path + nodes,
            selections: s.selections + nodes,
            buffer: Seq::empty(),
        }),
        nodes.len() > 0 ==> feed(root, toggle, s, chords(nodes)).1 == Signal::NodePicked(
            nodes.last(),
        ),
    decreases nodes.len(),
{
    if nodes.len() == 0 {
        assert(s.path + nodes =~= s.path);
        assert(s.selections + nodes =~= s.selections);
        assert(s.buffer =~= Seq::<char>::empty());
    } else {
        let front = nodes.drop_last();
        let last = nodes.last();
        assert forall|i: int| 0 <= i < front.len() implies {
            let from = if i == 0 {
                head_of(root, s.path)
            } else {
                front[i - 1]
            };
            &&& unambiguous(from, chord_of(#[trigger] front[i]))
            &&& from.spec_transition(chord_of(front[i])) == Some(front[i])
        } by {
            assert(front[i] == nodes[i]);
        }
        assert forall|i: int| 0 <= i < front.len() implies (#[trigger] front[i]) is Node by {
            assert(front[i] == nodes[i]);
        }
        lemma_typing_branches(root, toggle, s, front);
        let mid = feed(root, toggle, s, chords(front)).0;
        let i = nodes.len() - 1;
        assert(nodes[i] == last);
        assert(head_of(root, mid.path) == if i == 0 {
            head_of(root, s.path)
        } else {
            nodes[i - 1]
        }) by {
            if i > 0 {
                assert(mid.path.last() == front[i - 1]);
            } else {
                assert(mid.path =~= s.path);
            }
        }
        lemma_typing_a_chord(root, toggle, mid, chord_of(last));
        lemma_feed_concat(root, toggle, s, chords(front), chord_of(last));
        assert(mid.path.push(last) =~= s.path + nodes);
        assert(mid.selections.push(last) =~= s.selections + nodes);
    }
}

/// Typing, from the initial state, the chords that lead through the
/// branches `ancestors` to the leaf `leaf` ends with `LeafPicked(leaf)`; the
/// path is then `ancestors`, and all of them and the leaf are selected.
pub proof fn lemma_typing_to_a_leaf(root: Tree, toggle: bool, ancestors: Seq<Tree>, leaf: Tree)
    requires
        chain(root, ancestors.push(leaf)),
        branches(ancestors),
        leaf is Leaf,
    ensures
        feed(root, toggle, initial(), chords(ancestors.push(leaf))) == (
            State {
                path: ancestors,
                selections: ancestors.push(leaf),
                buffer: Seq::empty(),
            },
            Signal::LeafPicked(leaf),
        ),
{
    let nodes = ancestors.push(leaf);
    let s = initial();
    assert(nodes.drop_last() =~= ancestors);
    assert forall|i: int| 0 <= i < ancestors.len() implies {
        let from = if i == 0 {
            head_of(root, s.path)
        } else {
            ancestors[i - 1]
        };
        &&& unambiguous(from, chord_of(#[trigger] ancestors[i]))
        &&& from.spec_transition(chord_of(ancestors[i])) == Some(ancestors[i])
    } by {
        assert(ancestors[i] == nodes[i]);
    }
    lemma_typing_branches(root, toggle, s, ancestors);
    let mid = feed(root, toggle, s, chords(ancestors)).0;
    assert(mid.path =~= ancestors);
    assert(mid.selections =~= ancestors);
    let i = ancestors.len() as int;
    assert(nodes[i] == leaf);
    assert(head_of(root, mid.path) == if i == 0 {
        root
    } else {
        nodes[i - 1]
    });
    lemma_typing_a_chord(root, toggle, mid, chord_of(leaf));
    lemma_feed_concat(root, toggle, s, chords(ancestors), chord_of(leaf));
    assert(!picked(mid.selections, leaf)) by {
        if picked(mid.selections, leaf) {
            let j = choose|j: int| 0 <= j < mid.selections.len() && (#[trigger] mid.selections[j])@ == leaf@;
            assert(ancestors[j] is Node);
        }
    }
}

} // verus!

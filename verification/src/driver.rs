//! The navigator: turns keystrokes into selections on a menu tree.

use crate::text::push_char;
use crate::tree::{trees, Tree};
use crate::walks::{lemma_drive_keeps_path, valid_path};
use vstd::prelude::*;
use vstd::std_specs::iter::IteratorSpec;

verus! {

/// Options of a driver.
#[derive(PartialEq, Eq, Structural, Clone, Copy, Debug)]
pub enum DriverFlag {
    /// Picking a leaf that is already selected unselects it.
    LeafToggle,
}

/// What a driver is asked to do.
#[derive(Debug)]
pub enum DriverCommand<'a> {
    /// Go back up one level.
    Backtrack,
    /// Type the characters of the text, one after the other.
    Transition(&'a str),
}

/// What a `DriverCommand` holds.
pub enum Command {
    Backtrack,
    Transition(Seq<char>),
}

impl<'a> View for DriverCommand<'a> {
    type V = Command;

    open spec fn view(&self) -> Command {
        match self {
            DriverCommand::Backtrack => Command::Backtrack,
            DriverCommand::Transition(text) => Command::Transition(text@),
        }
    }
}

/// How a command changed the state of a driver.
#[derive(Debug)]
pub enum DriverSignal<'a> {
    /// Nothing was picked; more characters may follow.
    NoOp,
    /// A branch was picked and entered.
    NodePicked(&'a Tree),
    /// A leaf was picked.
    LeafPicked(&'a Tree),
    /// A leaf that was selected before was unselected.
    LeafUnpicked(&'a Tree),
    /// The characters typed, given here, lead nowhere; they were dropped.
    DeadEnd(String),
    /// The driver went back up one level.
    Popped,
}

/// What a `DriverSignal` holds.
pub enum Signal {
    NoOp,
    NodePicked(Tree),
    LeafPicked(Tree),
    LeafUnpicked(Tree),
    DeadEnd(Seq<char>),
    Popped,
}

impl<'a> View for DriverSignal<'a> {
    type V = Signal;

    open spec fn view(&self) -> Signal {
        match self {
            DriverSignal::NoOp => Signal::NoOp,
            DriverSignal::NodePicked(t) => Signal::NodePicked(**t),
            DriverSignal::LeafPicked(t) => Signal::LeafPicked(**t),
            DriverSignal::LeafUnpicked(t) => Signal::LeafUnpicked(**t),
            DriverSignal::DeadEnd(typed) => Signal::DeadEnd(typed@),
            DriverSignal::Popped => Signal::Popped,
        }
    }
}

/// The state of a navigation: the branches entered, from the root down; the
/// nodes picked so far; and the characters typed that have not yet picked
/// anything.
pub struct State {
    pub path: Seq<Tree>,
    pub selections: Seq<Tree>,
    pub buffer: Seq<char>,
}

/// The state in which every navigation starts.
pub open spec fn initial() -> State {
    State { path: Seq::empty(), selections: Seq::empty(), buffer: Seq::empty() }
}

/// The node whose children are the candidates: the branch entered last, or
/// the root where none was entered.
pub open spec fn head_of(root: Tree, path: Seq<Tree>) -> Tree {
    if path.len() == 0 {
        root
    } else {
        path.last()
    }
}

/// Whether a node with the content of `node` is among `selections`.
pub open spec fn picked(selections: Seq<Tree>, node: Tree) -> bool {
    exists|i: int| 0 <= i < selections.len() && (#[trigger] selections[i])@ == node@
}

/// The test that a node passes unless it has the content of `node`.
pub open spec fn differs_from(node: Tree) -> spec_fn(Tree) -> bool {
    |t: Tree| t@ != node@
}

/// What picking `node` does to the state `s`. The buffer is cleared. A
/// branch is entered and selected. A leaf is selected, unless `toggle` is
/// set and it is selected already: then every selection of it is removed.
pub open spec fn pick(toggle: bool, s: State, node: Tree) -> (State, Signal) {
    if node is Node {
        (
            State {
                path: s.path.push(node),
                selections: s.selections.push(node),
                buffer: Seq::empty(),
            },
            Signal::NodePicked(node),
        )
    } else if toggle && picked(s.selections, node) {
        (
            State {
                path: s.path,
                selections: s.selections.filter(differs_from(node)),
                buffer: Seq::empty(),
            },
            Signal::LeafUnpicked(node),
        )
    } else {
        (
            State { path: s.path, selections: s.selections.push(node), buffer: Seq::empty() },
            Signal::LeafPicked(node),
        )
    }
}

/// What typing the character `c` does to the state `s`.
pub open spec fn step(root: Tree, toggle: bool, s: State, c: char) -> (State, Signal) {
    let typed = s.buffer.push(c);
    let head = head_of(root, s.path);
    match head.spec_transition(typed) {
        Some(node) => pick(toggle, s, node),
        None => if head.spec_transitions_by_prefix(typed).len() > 0 {
            (State { path: s.path, selections: s.selections, buffer: typed }, Signal::NoOp)
        } else {
            (
                State { path: s.path, selections: s.selections, buffer: Seq::empty() },
                Signal::DeadEnd(typed),
            )
        },
    }
}

/// What typing the characters of `text` in order does to the state `s`: the
/// state after the last of them, and the signal that the last one gave.
pub open spec fn feed(root: Tree, toggle: bool, s: State, text: Seq<char>) -> (State, Signal)
    decreases text.len(),
{
    if text.len() == 0 {
        (s, Signal::NoOp)
    } else {
        step(root, toggle, feed(root, toggle, s, text.drop_last()).0, text.last())
    }
}

/// What going back up does to the state `s`: the buffer is cleared and the
/// branch entered last is left. The selections stay.
pub open spec fn backtrack(s: State) -> (State, Signal) {
    if s.path.len() > 0 {
        (
            State { path: s.path.drop_last(), selections: s.selections, buffer: Seq::empty() },
            Signal::Popped,
        )
    } else {
        (State { path: s.path, selections: s.selections, buffer: Seq::empty() }, Signal::NoOp)
    }
}

/// What a command does to the state `s`.
pub open spec fn drive(root: Tree, toggle: bool, s: State, command: Command) -> (State, Signal) {
    match command {
        Command::Backtrack => backtrack(s),
        Command::Transition(text) => feed(root, toggle, s, text),
    }
}

/// Walks a menu tree as characters are typed.
pub struct Driver<'a> {
    root: &'a Tree,
    flags: Vec<DriverFlag>,
    selections: Vec<&'a Tree>,
    path: Vec<&'a Tree>,
    input_buffer: String,
}

impl<'a> View for Driver<'a> {
    type V = State;

    closed spec fn view(&self) -> State {
        State {
            path: trees(self.path@),
            selections: trees(self.selections@),
            buffer: self.input_buffer@,
        }
    }
}

impl<'a> Driver<'a> {
    /// The tree that the driver walks.
    pub closed spec fn spec_root(&self) -> Tree {
        *self.root
    }

    /// The flags that the driver was made with.
    pub closed spec fn spec_flags(&self) -> Seq<DriverFlag> {
        self.flags@
    }

    /// Whether the driver unselects a leaf that is picked again.
    pub open spec fn spec_toggle(&self) -> bool {
        self.spec_flags().contains(DriverFlag::LeafToggle)
    }

    /// A driver at the root of `root`, with nothing typed or selected.
    pub fn new(root: &'a Tree, flags: Vec<DriverFlag>) -> (driver: Driver<'a>)
        ensures
            driver@ == initial(),
            driver.spec_root() == *root,
            driver.spec_flags() == flags@,
            valid_path(*root, driver@.path),
    {
        let driver = Driver {
            root,
            flags,
            input_buffer: String::new(),
            path: Vec::new(),
            selections: Vec::new(),
        };
        assert(trees(driver.path@) =~= Seq::<Tree>::empty());
        assert(trees(driver.selections@) =~= Seq::<Tree>::empty());
        driver
    }

    /// A driver at the root of `root` with no flag set.
    pub fn default(root: &'a Tree) -> (driver: Driver<'a>)
        ensures
            driver@ == initial(),
            driver.spec_root() == *root,
            !driver.spec_toggle(),
            valid_path(*root, driver@.path),
    {
        Self::new(root, Vec::new())
    }

    /// Carries out `command` and says what it did. A `Transition` types its
    /// characters one by one; the signal is that of the last character.
    pub fn drive<'b>(&mut self, command: DriverCommand<'b>) -> (signal: DriverSignal<'a>)
        ensures
            (final(self)@, signal@) == self::drive(
                old(self).spec_root(),
                old(self).spec_toggle(),
                old(self)@,
                command@,
            ),
            final(self).spec_root() == old(self).spec_root(),
            final(self).spec_flags() == old(self).spec_flags(),
            valid_path(old(self).spec_root(), old(self)@.path) ==> valid_path(
                final(self).spec_root(),
                final(self)@.path,
            ),
    {
        proof {
            if valid_path(self.spec_root(), self@.path) {
                lemma_drive_keeps_path(self.spec_root(), self.spec_toggle(), self@, command@);
            }
        }
        match command {
            DriverCommand::Backtrack => self.backtrack(),
            DriverCommand::Transition(input) => self.transition(input),
        }
    }

    /// Goes back up one level and clears the input buffer.
    fn backtrack(&mut self) -> (signal: DriverSignal<'a>)
        ensures
            (final(self)@, signal@) == self::backtrack(old(self)@),
            final(self).spec_root() == old(self).spec_root(),
            final(self).spec_flags() == old(self).spec_flags(),
    {
        self.input_buffer = String::new();
        let ghost before = self.path@;
        match self.path.pop() {
            Some(_) => {
                assert(trees(self.path@) =~= trees(before).drop_last());
                DriverSignal::Popped
            },
            None => DriverSignal::NoOp,
        }
    }

    /// Types the characters of `input` in order.
    fn transition<'b>(&mut self, input: &'b str) -> (signal: DriverSignal<'a>)
        ensures
            (final(self)@, signal@) == feed(
                old(self).spec_root(),
                old(self).spec_toggle(),
                old(self)@,
                input@,
            ),
            final(self).spec_root() == old(self).spec_root(),
            final(self).spec_flags() == old(self).spec_flags(),
    {
        let mut result: DriverSignal<'a> = DriverSignal::NoOp;
        let mut chars = input.chars();
        let ghost mut n: int = 0;
        let ghost root = self.spec_root();
        let ghost toggle = self.spec_toggle();
        let ghost start = self@;
        assert(input@.take(0) =~= Seq::<char>::empty());
        loop
            invariant
                chars.obeys_prophetic_iter_laws(),
                0 <= n <= input@.len(),
                chars.remaining() == input@.skip(n),
                self.spec_root() == root,
                self.spec_flags() == old(self).spec_flags(),
                toggle == old(self).spec_toggle(),
                root == old(self).spec_root(),
                start == old(self)@,
                (self@, result@) == feed(root, toggle, start, input@.take(n)),
            decreases input@.len() - n,
        {
            match chars.next() {
                None => {
                    assert(input@.take(n) =~= input@);
                    return result;
                },
                Some(c) => {
                    result = self.evaluate_char(c);
                    proof {
                        let now = input@.take(n + 1);
                        assert(now.drop_last() =~= input@.take(n));
                        assert(now.last() == c);
                        n = n + 1;
                    }
                },
            }
        }
    }

    /// Whether the `LeafToggle` flag is set.
    fn toggle(&self) -> (b: bool)
        ensures
            b == self.spec_toggle(),
    {
        let mut i: usize = 0;
        while i < self.flags.len()
            invariant
                i <= self.flags.len(),
                forall|k: int| 0 <= k < i ==> self.flags@[k] != DriverFlag::LeafToggle,
            decreases self.flags.len() - i,
        {
            if self.flags[i] == DriverFlag::LeafToggle {
                return true;
            }
            i += 1;
        }
        false
    }

    /// Whether a node with the content of `tree` is selected.
    fn is_selected(&self, tree: &Tree) -> (b: bool)
        ensures
            b == picked(self@.selections, *tree),
    {
        let mut i: usize = 0;
        while i < self.selections.len()
            invariant
                i <= self.selections.len(),
                forall|k: int| 0 <= k < i ==> (#[trigger] self@.selections[k])@ != tree@,
            decreases self.selections.len() - i,
        {
            if self.selections[i].same(tree) {
                assert(self@.selections[i as int]@ == tree@);
                return true;
            }
            i += 1;
        }
        false
    }

    /// Removes every selection that has the content of `tree`.
    fn unselect(&mut self, tree: &Tree)
        ensures
            final(self)@ == (State {
                selections: old(self)@.selections.filter(differs_from(*tree)),
                ..old(self)@
            }),
            final(self).spec_root() == old(self).spec_root(),
            final(self).spec_flags() == old(self).spec_flags(),
    {
        let mut kept: Vec<&'a Tree> = Vec::new();
        let mut i: usize = 0;
        let ghost all = self@.selections;
        proof {
            reveal(Seq::filter);
            assert(all.take(0) =~= Seq::<Tree>::empty());
            assert(trees(kept@) =~= Seq::<Tree>::empty());
        }
        while i < self.selections.len()
            invariant
                i <= self.selections.len(),
                all == self@.selections,
                trees(kept@) == all.take(i as int).filter(differs_from(*tree)),
            decreases self.selections.len() - i,
        {
            let node = self.selections[i];
            proof {
                reveal(Seq::filter);
                let now = all.take(i + 1);
                assert(now.drop_last() =~= all.take(i as int));
                assert(now.last() == *node);
            }
            if !node.same(tree) {
                let ghost before = kept@;
                kept.push(node);
                assert(trees(kept@) =~= trees(before).push(*node));
            }
            i += 1;
        }
        assert(all.take(i as int) =~= all);
        self.selections = kept;
    }

    /// Records that `tree` was picked: clears the input buffer, selects the
    /// node and, where it is a branch, enters it. With the `LeafToggle` flag
    /// a leaf that is selected already is unselected instead.
    fn handle_pick(&mut self, tree: &'a Tree) -> (signal: DriverSignal<'a>)
        ensures
            (final(self)@, signal@) == pick(old(self).spec_toggle(), old(self)@, *tree),
            final(self).spec_root() == old(self).spec_root(),
            final(self).spec_flags() == old(self).spec_flags(),
    {
        self.input_buffer = String::new();
        if !tree.is_leaf() {
            let ghost selected = self.selections@;
            let ghost entered = self.path@;
            self.selections.push(tree);
            self.path.push(tree);
            assert(trees(self.selections@) =~= trees(selected).push(*tree));
            assert(trees(self.path@) =~= trees(entered).push(*tree));
            DriverSignal::NodePicked(tree)
        } else if self.toggle() && self.is_selected(tree) {
            self.unselect(tree);
            DriverSignal::LeafUnpicked(tree)
        } else {
            let ghost selected = self.selections@;
            self.selections.push(tree);
            assert(trees(self.selections@) =~= trees(selected).push(*tree));
            DriverSignal::LeafPicked(tree)
        }
    }

    /// Decides what typed characters that match no chord exactly amount to:
    /// the beginning of a chord, or a dead end.
    fn handle_incomplete_transition(&mut self) -> (signal: DriverSignal<'a>)
        ensures
            (final(self)@, signal@) == if head_of(
                old(self).spec_root(),
                old(self)@.path,
            ).spec_transitions_by_prefix(old(self)@.buffer).len() > 0 {
                (old(self)@, Signal::NoOp)
            } else {
                (
                    State { buffer: Seq::empty(), ..old(self)@ },
                    Signal::DeadEnd(old(self)@.buffer),
                )
            },
            final(self).spec_root() == old(self).spec_root(),
            final(self).spec_flags() == old(self).spec_flags(),
    {
        if self.head().transitions_by_prefix(self.input_buffer.as_str()).len() == 0 {
            let typed = self.input_buffer.clone();
            self.input_buffer = String::new();
            DriverSignal::DeadEnd(typed)
        } else {
            DriverSignal::NoOp
        }
    }

    /// Types one character.
    fn evaluate_char(&mut self, c: char) -> (signal: DriverSignal<'a>)
        ensures
            (final(self)@, signal@) == step(
                old(self).spec_root(),
                old(self).spec_toggle(),
                old(self)@,
                c,
            ),
            final(self).spec_root() == old(self).spec_root(),
            final(self).spec_flags() == old(self).spec_flags(),
    {
        push_char(&mut self.input_buffer, c);
        let head = self.head();
        match head.transition(self.input_buffer.as_str()) {
            Some(tree) => self.handle_pick(tree),
            None => self.handle_incomplete_transition(),
        }
    }

    /// The tree that the driver walks.
    pub fn root(&self) -> (root: &'a Tree)
        ensures
            *root == self.spec_root(),
    {
        self.root
    }

    /// The branch entered last, or the root: the node whose children are
    /// the candidates.
    pub fn head(&self) -> (head: &'a Tree)
        ensures
            *head == head_of(self.spec_root(), self@.path),
    {
        if self.path.len() == 0 {
            self.root
        } else {
            self.path[self.path.len() - 1]
        }
    }

    /// The children of `head()` that the characters typed so far can still
    /// lead to, in menu order.
    pub fn get_transitions(&self) -> (found: Vec<&'a Tree>)
        ensures
            trees(found@) == head_of(self.spec_root(), self@.path).spec_transitions_by_prefix(
                self@.buffer,
            ),
    {
        self.head().transitions_by_prefix(self.input_buffer.as_str()).into_nodes()
    }

    /// The branches entered, from the root down.
    pub fn path(&self) -> (path: &Vec<&'a Tree>)
        ensures
            trees(path@) == self@.path,
    {
        &self.path
    }

    /// The nodes picked so far, in the order in which they were picked.
    pub fn selections(&self) -> (selections: &Vec<&'a Tree>)
        ensures
            trees(selections@) == self@.selections,
    {
        &self.selections
    }

    /// The characters typed that have not yet picked anything.
    pub fn input_buffer(&self) -> (buffer: &str)
        ensures
            buffer@ == self@.buffer,
    {
        self.input_buffer.as_str()
    }
}

} // verus!

//! What a terminal front end shows and does, as far as it can be decided
//! without a terminal.

use crate::driver::DriverSignal;
use crate::tree::Tree;
use termion::color;
use vstd::prelude::*;

pub use crate::util::{pprint_nodes, pprint_user_input};

verus! {

/// The escape sequence that switches the foreground colour to red.
pub open spec fn red_code() -> Seq<char> {
    "\x1B[38;5;1m"@
}

/// The escape sequence that switches the foreground colour back.
pub open spec fn reset_code() -> Seq<char> {
    "\x1B[39m"@
}

/// The escape sequence for a red foreground.
///
/// Trusted: displays `termion::color::Fg(termion::color::Red)`, which writes
/// `Red.fg_str()`: the control sequence introducer followed by `38;5;1m`.
#[verifier::external_body]
fn fg_red() -> (code: String)
    ensures
        code@ == red_code(),
{
    format!("{}", color::Fg(color::Red))
}

/// The escape sequence for the default foreground.
///
/// Trusted: displays `termion::color::Fg(termion::color::Reset)`, which
/// writes the control sequence introducer followed by `39m`.
#[verifier::external_body]
fn fg_reset() -> (code: String)
    ensures
        code@ == reset_code(),
{
    format!("{}", color::Fg(color::Reset))
}

/// The line that offers `tree` as a choice: its chord in red, then " - "
/// and its name.
pub fn pprint_choice(tree: &Tree) -> (text: String)
    ensures
        text@ == red_code() + tree.spec_data().chord@ + reset_code() + " - "@
            + tree.spec_data().name@,
{
    let data = tree.data();
    let mut text = fg_red();
    text.append(data.chord.as_str());
    text.append(fg_reset().as_str());
    text.append(" - ");
    text.append(data.name.as_str());
    text
}

/// The lines that offer `trees` as choices, in the order given.
pub fn pprint_choices(trees: &Vec<&Tree>) -> (lines: Vec<String>)
    ensures
        lines@.len() == trees@.len(),
        forall|i: int|
            0 <= i < lines@.len() ==> (#[trigger] lines@[i])@ == red_code()
                + trees@[i].spec_data().chord@ + reset_code() + " - "@
                + trees@[i].spec_data().name@,
{
    let mut lines: Vec<String> = Vec::new();
    let mut i: usize = 0;
    while i < trees.len()
        invariant
            i <= trees.len(),
            lines@.len() == i,
            forall|k: int|
                0 <= k < i ==> (#[trigger] lines@[k])@ == red_code()
                    + trees@[k].spec_data().chord@ + reset_code() + " - "@
                    + trees@[k].spec_data().name@,
        decreases trees.len() - i,
    {
        lines.push(pprint_choice(trees[i]));
        i += 1;
    }
    lines
}

/// A key press, as far as the front end tells keys apart.
#[derive(PartialEq, Eq, Structural, Clone, Copy, Debug)]
pub enum KeyPress {
    Char(char),
    Backspace,
    Esc,
    Other,
}

/// What the front end does about a key press.
#[derive(PartialEq, Eq, Structural, Clone, Copy, Debug)]
pub enum Reaction {
    /// End the session.
    Quit,
    /// Hand `Backtrack` to the driver.
    Backtrack,
    /// Hand a `Transition` with this one character to the driver.
    Type(char),
    /// Do nothing.
    Ignore,
}

/// Decides what a key press asks for: escape and the enter key end the
/// session, backspace goes back up, any other character is typed, and every
/// other key is ignored.
pub fn handle_input(key: KeyPress) -> (reaction: Reaction)
    ensures
        reaction == match key {
            KeyPress::Esc => Reaction::Quit,
            KeyPress::Char(c) => if c == '\n' {
                Reaction::Quit
            } else {
                Reaction::Type(c)
            },
            KeyPress::Backspace => Reaction::Backtrack,
            KeyPress::Other => Reaction::Ignore,
        },
{
    match key {
        KeyPress::Esc => Reaction::Quit,
        KeyPress::Char(c) => if c == '\n' {
            Reaction::Quit
        } else {
            Reaction::Type(c)
        },
        KeyPress::Backspace => Reaction::Backtrack,
        KeyPress::Other => Reaction::Ignore,
    }
}

/// Options of the front end.
#[derive(PartialEq, Eq, Structural, Clone, Copy, Debug)]
pub enum Flags {
    /// End the session when the keys typed lead nowhere.
    QuitDeadEnd,
    /// Go on after a leaf was picked, until a key ends the session.
    LoopMode,
    /// Put the value of each picked node out as soon as it is picked.
    OutputOnPick,
}

/// Whether the session goes on after `signal`, given the flags that are
/// set: it ends with the first leaf picked unless `loop_mode` is set, and
/// with a dead end where `quit_dead_end` is set.
pub open spec fn goes_on(loop_mode: bool, quit_dead_end: bool, signal: crate::driver::Signal) -> bool {
    &&& signal is LeafPicked ==> loop_mode
    &&& signal is DeadEnd ==> !quit_dead_end
}

/// Whether `flag` is among `flags`.
fn has_flag(flags: &Vec<Flags>, flag: Flags) -> (b: bool)
    ensures
        b == flags@.contains(flag),
{
    let mut i: usize = 0;
    while i < flags.len()
        invariant
            i <= flags.len(),
            forall|k: int| 0 <= k < i ==> flags@[k] != flag,
        decreases flags.len() - i,
    {
        if flags[i] == flag {
            return true;
        }
        i += 1;
    }
    false
}

/// Decides whether the session goes on after the driver gave `signal`.
pub fn keeps_running<'a>(flags: &Vec<Flags>, signal: &DriverSignal<'a>) -> (b: bool)
    ensures
        b == goes_on(
            flags@.contains(Flags::LoopMode),
            flags@.contains(Flags::QuitDeadEnd),
            signal@,
        ),
{
    match signal {
        DriverSignal::LeafPicked(_) => has_flag(flags, Flags::LoopMode),
        DriverSignal::DeadEnd(_) => !has_flag(flags, Flags::QuitDeadEnd),
        _ => true,
    }
}

/// The value to put out for a signal: that of the node picked, where the
/// signal says that a branch or a leaf was picked.
pub fn picked_value<'a>(signal: &DriverSignal<'a>) -> (value: Option<&'a str>)
    ensures
        match value {
            Some(text) => match signal {
                DriverSignal::NodePicked(tree) | DriverSignal::LeafPicked(tree) => text@
                    == tree.spec_data().value@,
                _ => false,
            },
            None => !(signal is NodePicked || signal is LeafPicked),
        },
{
    match signal {
        DriverSignal::NodePicked(tree) => Some(tree.data().value.as_str()),
        DriverSignal::LeafPicked(tree) => Some(tree.data().value.as_str()),
        _ => None,
    }
}

} // verus!

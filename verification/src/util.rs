//! One-line summaries of where a navigation stands.

use crate::tree::Tree;
use vstd::prelude::*;

verus! {

/// The first `n` of `parts`, with `sep` between one and the next.
pub open spec fn joined(parts: Seq<Seq<char>>, sep: Seq<char>, n: int) -> Seq<char>
    decreases n,
{
    if n <= 0 || n > parts.len() {
        Seq::empty()
    } else if n == 1 {
        parts[0]
    } else {
        joined(parts, sep, n - 1) + sep + parts[n - 1]
    }
}

/// What a list of string slices holds.
pub open spec fn texts(parts: Seq<&str>) -> Seq<Seq<char>> {
    Seq::new(parts.len(), |i: int| parts[i]@)
}

/// The chords of the nodes that `refs` point to.
pub open spec fn chords_of(refs: Seq<&Tree>) -> Seq<Seq<char>> {
    Seq::new(refs.len(), |i: int| refs[i].spec_data().chord@)
}

/// The names of the nodes that `refs` point to.
pub open spec fn names_of(refs: Seq<&Tree>) -> Seq<Seq<char>> {
    Seq::new(refs.len(), |i: int| refs[i].spec_data().name@)
}

/// The values of the nodes that `refs` point to.
pub open spec fn values_of(refs: Seq<&Tree>) -> Seq<Seq<char>> {
    Seq::new(refs.len(), |i: int| refs[i].spec_data().value@)
}

/// Joins `parts` with `sep` between one and the next.
pub fn join(parts: &Vec<&str>, sep: &str) -> (text: String)
    ensures
        text@ == joined(texts(parts@), sep@, parts@.len() as int),
{
    let mut text = String::new();
    let mut i: usize = 0;
    let ghost all = texts(parts@);
    assert(text@ =~= joined(all, sep@, 0));
    while i < parts.len()
        invariant
            i <= parts.len(),
            all == texts(parts@),
            text@ == joined(all, sep@, i as int),
        decreases parts.len() - i,
    {
        if i > 0 {
            text.append(sep);
        }
        text.append(parts[i]);
        assert(text@ =~= joined(all, sep@, (i + 1) as int));
        i += 1;
    }
    text
}

/// The chords of `trees` with " > " between them, then " > " and the
/// characters typed so far.
pub fn pprint_user_input(trees: &Vec<&Tree>, input_buffer: &str) -> (text: String)
    ensures
        text@ == joined(chords_of(trees@), " > "@, trees@.len() as int) + " > "@ + input_buffer@,
{
    let mut chords_selected: Vec<&str> = Vec::new();
    let mut i: usize = 0;
    while i < trees.len()
        invariant
            i <= trees.len(),
            chords_selected@.len() == i,
            forall|k: int| 0 <= k < i ==> (#[trigger] chords_selected@[k])@ == chords_of(trees@)[k],
        decreases trees.len() - i,
    {
        chords_selected.push(trees[i].data().chord.as_str());
        i += 1;
    }
    assert(texts(chords_selected@) =~= chords_of(trees@));
    let mut text = join(&chords_selected, " > ");
    text.append(" > ");
    text.append(input_buffer);
    text
}

/// The names of `trees` with " > " between them.
pub fn pprint_nodes(trees: &Vec<&Tree>) -> (text: String)
    ensures
        text@ == joined(names_of(trees@), " > "@, trees@.len() as int),
{
    let mut names: Vec<&str> = Vec::new();
    let mut i: usize = 0;
    while i < trees.len()
        invariant
            i <= trees.len(),
            names@.len() == i,
            forall|k: int| 0 <= k < i ==> (#[trigger] names@[k])@ == names_of(trees@)[k],
        decreases trees.len() - i,
    {
        names.push(trees[i].data().name.as_str());
        i += 1;
    }
    assert(texts(names@) =~= names_of(trees@));
    join(&names, " > ")
}

/// The result of a session: the values of the nodes selected, in the order
/// in which they were picked, with a space between them.
pub fn present_result(selections: &Vec<&Tree>) -> (text: String)
    ensures
        text@ == joined(values_of(selections@), " "@, selections@.len() as int),
{
    let mut values: Vec<&str> = Vec::new();
    let mut i: usize = 0;
    while i < selections.len()
        invariant
            i <= selections.len(),
            values@.len() == i,
            forall|k: int| 0 <= k < i ==> (#[trigger] values@[k])@ == values_of(selections@)[k],
        decreases selections.len() - i,
    {
        values.push(selections[i].data().value.as_str());
        i += 1;
    }
    assert(texts(values@) =~= values_of(selections@));
    join(&values, " ")
}

} // verus!

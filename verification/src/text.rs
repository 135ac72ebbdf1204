//! Character-level helpers on strings.

use vstd::prelude::*;
use vstd::std_specs::iter::IteratorSpec;

verus! {

/// Whether `text` begins with `prefix`, character by character.
pub fn starts_with(text: &str, prefix: &str) -> (b: bool)
    ensures
        b == prefix@.is_prefix_of(text@),
{
    let mut rest = text.chars();
    let mut want = prefix.chars();
    let ghost mut n: int = 0;
    loop
        invariant
            rest.obeys_prophetic_iter_laws(),
            want.obeys_prophetic_iter_laws(),
            0 <= n <= prefix@.len(),
            n <= text@.len(),
            rest.remaining() == text@.skip(n),
            want.remaining() == prefix@.skip(n),
            text@.take(n) == prefix@.take(n),
        decreases prefix@.len() - n,
    {
        match want.next() {
            None => {
                return true;
            },
            Some(w) => match rest.next() {
                None => {
                    return false;
                },
                Some(r) => {
                    if r != w {
                        return false;
                    }
                    proof {
                        n = n + 1;
                    }
                },
            },
        }
    }
}

/// Whether two strings hold the same characters.
pub fn same_text(a: &str, b: &str) -> (eq: bool)
    ensures
        eq == (a@ == b@),
{
    let mut left = a.chars();
    let mut right = b.chars();
    let ghost mut n: int = 0;
    loop
        invariant
            left.obeys_prophetic_iter_laws(),
            right.obeys_prophetic_iter_laws(),
            0 <= n <= a@.len(),
            n <= b@.len(),
            left.remaining() == a@.skip(n),
            right.remaining() == b@.skip(n),
            a@.take(n) == b@.take(n),
        decreases a@.len() - n,
    {
        match left.next() {
            None => {
                let done = right.next().is_none();
                proof {
                    if done {
                        assert(a@ =~= a@.take(n));
                        assert(b@ =~= b@.take(n));
                    }
                }
                return done;
            },
            Some(x) => match right.next() {
                None => {
                    return false;
                },
                Some(y) => {
                    if x != y {
                        assert(a@[n] != b@[n]);
                        return false;
                    }
                    proof {
                        n = n + 1;
                    }
                },
            },
        }
    }
}

/// Appends one character to `text`.
///
/// Trusted: calls `String::push` of the standard library, which is documented
/// to append the given character to the end of the string.
#[verifier::external_body]
pub(crate) fn push_char(text: &mut String, c: char)
    ensures
        final(text)@ == old(text)@.push(c),
{
    text.push(c);
}

} // verus!

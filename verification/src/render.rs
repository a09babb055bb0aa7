//! Patterns as text, one character per step.

use vstd::prelude::*;
use crate::pattern::rendered;

verus! {

/// `String::push` of the standard library, taken on trust: the string holds
/// afterwards the characters it held before, followed by `ch`.
pub assume_specification[ String::push ](text: &mut String, ch: char)
    ensures
        final(text)@ == old(text)@.push(ch),
;

/// Writes `pattern` as text: `pulse_char` for each pulse and `rest_char` for
/// each rest, in the order of the steps. Any two characters will do.
pub fn pattern_to_string(pattern: &[bool], pulse_char: char, rest_char: char) -> (text: String)
    ensures
        text@ == rendered(pattern@, pulse_char, rest_char),
        text@.len() == pattern@.len(),
{
    let mut text: String = String::new();
    let mut i: usize = 0;
    while i < pattern.len()
        invariant
            i <= pattern@.len(),
            text@ == rendered(pattern@.take(i as int), pulse_char, rest_char),
        decreases pattern@.len() - i,
    {
        let symbol: char = if pattern[i] {
            pulse_char
        } else {
            rest_char
        };
        text.push(symbol);
        assert(text@ =~= rendered(pattern@.take(i + 1), pulse_char, rest_char));
        i += 1;
    }
    assert(pattern@.take(i as int) =~= pattern@);
    text
}

} // verus!

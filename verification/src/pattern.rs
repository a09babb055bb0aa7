//! The mathematical model of a pattern: a `Seq<bool>` with one entry per step.

use vstd::prelude::*;

verus! {

/// The pattern `p` shifted circularly to the left by `amount` steps: the entry
/// at index `amount` (taken modulo the length) becomes the entry at index 0.
/// A negative `amount` shifts to the right.
pub open spec fn rotated(p: Seq<bool>, amount: int) -> Seq<bool> {
    Seq::new(p.len(), |i: int| p[(i + amount) % (p.len() as int)])
}

/// The step of `p` that stands `i` places after its first, counted around the
/// cycle: position `p.len()` is position 0 again, and position -1 is the last.
pub open spec fn step_at(p: Seq<bool>, i: int) -> bool {
    p[i % (p.len() as int)]
}

/// The `len` steps of the cycle `p` that start at position `from`, where the
/// positions are counted around the cycle.
pub open spec fn cycle_window(p: Seq<bool>, from: int, len: nat) -> Seq<bool> {
    Seq::new(len, |d: int| step_at(p, from + d))
}

/// The predicate that holds of a pulse and of no rest.
pub open spec fn is_pulse() -> spec_fn(bool) -> bool {
    |step: bool| step
}

/// The number of pulses in `p`.
pub open spec fn pulse_count(p: Seq<bool>) -> nat {
    p.filter(is_pulse()).len()
}

/// The pattern of `steps` steps that are all pulses (`pulse` is `true`) or all
/// rests (`pulse` is `false`).
pub open spec fn uniform(steps: nat, pulse: bool) -> Seq<bool> {
    Seq::new(steps, |i: int| pulse)
}

/// The text that shows `p` with `pulse_char` for each pulse and `rest_char`
/// for each rest, in the order of the steps.
pub open spec fn rendered(p: Seq<bool>, pulse_char: char, rest_char: char) -> Seq<char> {
    Seq::new(p.len(), |i: int| if p[i] { pulse_char } else { rest_char })
}

/// `count` copies of `word`, one after the other.
pub open spec fn repeated(word: Seq<bool>, count: nat) -> Seq<bool>
    decreases count,
{
    if count == 0 {
        Seq::empty()
    } else {
        repeated(word, (count - 1) as nat) + word
    }
}

/// What Bjorklund's pairing makes of a list of groups that holds `left_count`
/// copies of the word `left` followed by `right_count` copies of the word
/// `right`.
///
/// While more than one group stands on the right, each left group takes one
/// right group onto its end, as far as both sides last. The groups that were
/// lengthened are the new left side; what was not paired, on either side, is
/// the new right side. Since all groups of one side are equal, two words and
/// two counts describe the whole list. When at most one group is left on the
/// right, the groups are joined in their order.
pub open spec fn paired(left_count: nat, left: Seq<bool>, right_count: nat, right: Seq<bool>) -> Seq<bool>
    decreases left_count + right_count,
{
    if left_count == 0 || right_count <= 1 {
        repeated(left, left_count) + repeated(right, right_count)
    } else if left_count <= right_count {
        paired(left_count, left + right, (right_count - left_count) as nat, right)
    } else {
        paired(right_count, left + right, (left_count - right_count) as nat, left)
    }
}

/// The unrotated Euclidean rhythm of `pulses` pulses over `steps` steps:
/// the pairing started from `pulses` groups of one pulse followed by
/// `steps - pulses` groups of one rest.
pub open spec fn bjorklund_pattern(steps: nat, pulses: nat) -> Seq<bool>
    recommends
        pulses <= steps,
{
    paired(pulses, seq![true], (steps - pulses) as nat, seq![false])
}

/// The Euclidean rhythm of `pulses` pulses over `steps` steps, shifted
/// circularly to the left by `rotation` steps.
pub open spec fn euclidean_pattern(steps: nat, pulses: nat, rotation: int) -> Seq<bool>
    recommends
        pulses <= steps,
{
    rotated(bjorklund_pattern(steps, pulses), rotation)
}

} // verus!

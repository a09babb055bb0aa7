//! Lengths and pulse counts of joined, repeated and paired words.

use vstd::prelude::*;
use crate::pattern::{bjorklund_pattern, is_pulse, paired, pulse_count, repeated, uniform};

verus! {

/// A pattern of one step holds one pulse if the step is a pulse, and none if
/// it is a rest.
pub proof fn lemma_step_pulse_count(pulse: bool)
    ensures
        pulse_count(seq![pulse]) == if pulse { 1nat } else { 0nat },
{
    let one = seq![pulse];
    assert(one.drop_last() =~= Seq::<bool>::empty());
    reveal_with_fuel(Seq::filter, 2);
    assert(one.drop_last().filter(is_pulse()) =~= Seq::<bool>::empty());
}

/// The pulses of two patterns joined are the pulses of each, added up.
pub proof fn lemma_pulse_count_add(a: Seq<bool>, b: Seq<bool>)
    ensures
        pulse_count(a + b) == pulse_count(a) + pulse_count(b),
{
    Seq::filter_distributes_over_add(a, b, is_pulse());
}

/// A pattern that holds a pulse holds it at some step.
pub proof fn lemma_pulse_found(p: Seq<bool>)
    requires
        pulse_count(p) >= 1,
    ensures
        exists|i: int| 0 <= i < p.len() && p[i],
    decreases p.len(),
{
    if p.len() == 0 {
        assert(p.filter(is_pulse()) =~= Seq::<bool>::empty());
    } else {
        let shorter = p.drop_last();
        assert(p =~= shorter + seq![p.last()]);
        lemma_pulse_count_add(shorter, seq![p.last()]);
        lemma_step_pulse_count(p.last());
        if p.last() {
            assert(p[p.len() - 1]);
        } else {
            lemma_pulse_found(shorter);
            let i = choose|i: int| 0 <= i < shorter.len() && shorter[i];
            assert(p[i]);
        }
    }
}

/// A pattern of two steps or more that starts and ends with a pulse holds two
/// pulses at least.
pub proof fn lemma_two_pulses(p: Seq<bool>)
    requires
        p.len() >= 2,
        p[0],
        p[p.len() - 1],
    ensures
        pulse_count(p) >= 2,
{
    let inner = p.subrange(1, p.len() - 1);
    assert(p =~= (seq![true] + inner) + seq![true]);
    lemma_pulse_count_add(seq![true] + inner, seq![true]);
    lemma_pulse_count_add(seq![true], inner);
    lemma_step_pulse_count(true);
}

/// A repetition can be read from its front as well as from its back.
pub proof fn lemma_repeated_front(word: Seq<bool>, count: nat)
    requires
        count >= 1,
    ensures
        repeated(word, count) == word + repeated(word, (count - 1) as nat),
    decreases count,
{
    if count == 1 {
        assert(repeated(word, 0) =~= Seq::<bool>::empty());
        assert(repeated(word, 1) =~= word + repeated(word, 0));
    } else {
        lemma_repeated_front(word, (count - 1) as nat);
        assert(repeated(word, count) =~= word + repeated(word, (count - 1) as nat));
    }
}

/// A repetition of a single step is uniform.
pub proof fn lemma_repeated_step(pulse: bool, count: nat)
    ensures
        repeated(seq![pulse], count) == uniform(count, pulse),
    decreases count,
{
    if count > 0 {
        lemma_repeated_step(pulse, (count - 1) as nat);
    }
    assert(repeated(seq![pulse], count) =~= uniform(count, pulse));
}

/// A repetition is as long as its word, times the number of copies.
pub proof fn lemma_repeated_len(word: Seq<bool>, count: nat)
    ensures
        repeated(word, count).len() == count * word.len(),
    decreases count,
{
    if count > 0 {
        lemma_repeated_len(word, (count - 1) as nat);
        assert((count - 1) * word.len() + word.len() == count * word.len()) by (nonlinear_arith);
    } else {
        assert(0 * word.len() == 0) by (nonlinear_arith);
    }
}

/// A repetition holds the pulses of its word, times the number of copies.
pub proof fn lemma_repeated_pulse_count(word: Seq<bool>, count: nat)
    ensures
        pulse_count(repeated(word, count)) == count * pulse_count(word),
    decreases count,
{
    if count > 0 {
        lemma_repeated_pulse_count(word, (count - 1) as nat);
        lemma_pulse_count_add(repeated(word, (count - 1) as nat), word);
        assert((count - 1) * pulse_count(word) + pulse_count(word) == count * pulse_count(word))
            by (nonlinear_arith);
    } else {
        assert(repeated(word, 0).filter(is_pulse()) =~= Seq::<bool>::empty());
        assert(0 * pulse_count(word) == 0) by (nonlinear_arith);
    }
}

/// Pairing neither adds nor drops a step: the result is as long as all the
/// groups together.
pub proof fn lemma_paired_len(left_count: nat, left: Seq<bool>, right_count: nat, right: Seq<bool>)
    ensures
        paired(left_count, left, right_count, right).len() == left_count * left.len() + right_count
            * right.len(),
    decreases left_count + right_count,
{
    let (a, b) = (left_count as int, right_count as int);
    let (l, r) = (left.len() as int, right.len() as int);
    if left_count == 0 || right_count <= 1 {
        lemma_repeated_len(left, left_count);
        lemma_repeated_len(right, right_count);
    } else if left_count <= right_count {
        lemma_paired_len(left_count, left + right, (right_count - left_count) as nat, right);
        assert(a * (l + r) + (b - a) * r == a * l + b * r) by (nonlinear_arith);
    } else {
        lemma_paired_len(right_count, left + right, (left_count - right_count) as nat, left);
        assert(b * (l + r) + (a - b) * l == a * l + b * r) by (nonlinear_arith);
    }
}

/// Pairing neither adds nor drops a pulse: the result holds the pulses of all
/// the groups together.
pub proof fn lemma_paired_pulse_count(left_count: nat, left: Seq<bool>, right_count: nat, right: Seq<bool>)
    ensures
        pulse_count(paired(left_count, left, right_count, right)) == left_count * pulse_count(left)
            + right_count * pulse_count(right),
    decreases left_count + right_count,
{
    let (a, b) = (left_count as int, right_count as int);
    let (l, r) = (pulse_count(left) as int, pulse_count(right) as int);
    if left_count == 0 || right_count <= 1 {
        lemma_repeated_pulse_count(left, left_count);
        lemma_repeated_pulse_count(right, right_count);
        lemma_pulse_count_add(repeated(left, left_count), repeated(right, right_count));
    } else if left_count <= right_count {
        lemma_paired_pulse_count(left_count, left + right, (right_count - left_count) as nat, right);
        lemma_pulse_count_add(left, right);
        assert(a * (l + r) + (b - a) * r == a * l + b * r) by (nonlinear_arith);
    } else {
        lemma_paired_pulse_count(right_count, left + right, (left_count - right_count) as nat, left);
        lemma_pulse_count_add(left, right);
        assert(b * (l + r) + (a - b) * l == a * l + b * r) by (nonlinear_arith);
    }
}

/// Pairing leaves the first step of the first group in front.
pub proof fn lemma_paired_first(left_count: nat, left: Seq<bool>, right_count: nat, right: Seq<bool>)
    requires
        left_count >= 1,
        left.len() >= 1,
    ensures
        paired(left_count, left, right_count, right).len() >= 1,
        paired(left_count, left, right_count, right)[0] == left[0],
    decreases left_count + right_count,
{
    if right_count <= 1 {
        lemma_repeated_front(left, left_count);
    } else if left_count <= right_count {
        lemma_paired_first(left_count, left + right, (right_count - left_count) as nat, right);
    } else {
        lemma_paired_first(right_count, left + right, (left_count - right_count) as nat, left);
    }
}

/// The unrotated rhythm of a valid pair of parameters has exactly `steps`
/// steps and exactly `pulses` pulses.
pub proof fn lemma_unrotated_counts(steps: nat, pulses: nat)
    requires
        pulses <= steps,
    ensures
        bjorklund_pattern(steps, pulses).len() == steps,
        pulse_count(bjorklund_pattern(steps, pulses)) == pulses,
{
    lemma_paired_len(pulses, seq![true], (steps - pulses) as nat, seq![false]);
    assert(pulses * 1 + (steps - pulses) * 1 == steps) by (nonlinear_arith);
    lemma_paired_pulse_count(pulses, seq![true], (steps - pulses) as nat, seq![false]);
    lemma_step_pulse_count(true);
    lemma_step_pulse_count(false);
    assert(pulses * 1 + (steps - pulses) * 0 == pulses) by (nonlinear_arith);
}

} // verus!

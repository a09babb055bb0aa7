//! The distances between neighbouring pulses: in a Euclidean rhythm they are
//! the number of steps for each pulse, rounded down or up.

use vstd::prelude::*;
use vstd::arithmetic::div_mod::{lemma_fundamental_div_mod, lemma_mod_bound};
use crate::balance::{lemma_maximally_even, maximally_even};
use crate::counting::{lemma_paired_first, lemma_pulse_found, lemma_two_pulses, lemma_unrotated_counts};
use crate::pattern::{bjorklund_pattern, cycle_window, euclidean_pattern, pulse_count, step_at};
use crate::rotation::{lemma_rotated_pulse_count, lemma_rotated_zero};

verus! {

/// Whether one of the `len` steps that start at position `from`, counted
/// around the cycle, is a pulse.
pub open spec fn pulse_within(p: Seq<bool>, from: int, len: int) -> bool {
    exists|j: int| from <= j < from + len && #[trigger] step_at(p, j)
}

/// Whether neighbouring pulses of the cycle `p` are as equally far apart as
/// they can be: with `n` steps and `k` pulses, any two pulses are at least
/// `n / k` steps apart, and any `n / k` steps in a row, rounded up, hold a
/// pulse. So the distance from each pulse to the next is the number of steps
/// for each pulse, rounded down or up.
pub open spec fn evenly_spaced(p: Seq<bool>) -> bool {
    let n = p.len() as int;
    let k = pulse_count(p) as int;
    &&& forall|i: int, j: int|
        #![trigger step_at(p, i), step_at(p, j)]
        i < j < i + n / k && step_at(p, i) ==> !step_at(p, j)
    &&& forall|i: int| #[trigger] pulse_within(p, i, (n + k - 1) / k)
}

/// A maximally even pattern with a pulse has its neighbouring pulses evenly
/// spaced.
pub proof fn lemma_even_spacing(p: Seq<bool>)
    requires
        maximally_even(p),
        pulse_count(p) >= 1,
    ensures
        evenly_spaced(p),
{
    let n: int = p.len() as int;
    let k: int = pulse_count(p) as int;
    assert(n >= 1) by {
        lemma_pulse_found(p);
    }
    let short: int = n / k;
    let long: int = (n + k - 1) / k;
    lemma_fundamental_div_mod(n, k);
    lemma_mod_bound(n, k);
    lemma_fundamental_div_mod(n + k - 1, k);
    lemma_mod_bound(n + k - 1, k);
    assert forall|i: int, j: int| i < j < i + short && step_at(p, i) implies !step_at(p, j) by {
        if step_at(p, j) {
            let len: nat = (j - i + 1) as nat;
            let window = cycle_window(p, i, len);
            assert(window[0] == step_at(p, i + 0));
            assert(window[len - 1] == step_at(p, i + (len - 1)));
            lemma_two_pulses(window);
            let share: int = len * k;
            assert(share <= n) by (nonlinear_arith)
                requires
                    share == len * k,
                    0 <= len <= short,
                    k >= 1,
                    k * short <= n,
            ;
            lemma_fundamental_div_mod(share + n - 1, n);
            lemma_mod_bound(share + n - 1, n);
            assert((share + n - 1) / n <= 1) by (nonlinear_arith)
                requires
                    n >= 1,
                    share <= n,
                    n * ((share + n - 1) / n) <= share + n - 1,
            ;
        }
    }
    assert forall|i: int| #[trigger] pulse_within(p, i, long) by {
        assert(long >= 1) by (nonlinear_arith)
            requires
                n >= 1,
                k >= 1,
                n + k - 1 == k * long + (n + k - 1) % k,
                (n + k - 1) % k < k,
        ;
        let len: nat = long as nat;
        let window = cycle_window(p, i, len);
        let share: int = len * k;
        assert(share >= n) by (nonlinear_arith)
            requires
                share == len * k,
                len == long,
                n + k - 1 == k * long + (n + k - 1) % k,
                (n + k - 1) % k < k,
        ;
        lemma_fundamental_div_mod(share, n);
        lemma_mod_bound(share, n);
        assert(share / n >= 1) by (nonlinear_arith)
            requires
                n >= 1,
                share >= n,
                share == n * (share / n) + share % n,
                share % n < n,
        ;
        lemma_pulse_found(window);
        let d = choose|d: int| 0 <= d < window.len() && window[d];
        assert(step_at(p, i + d));
    }
}

/// A Euclidean rhythm with at least one pulse has its neighbouring pulses
/// evenly spaced, whatever the rotation.
pub proof fn lemma_evenly_spaced(steps: nat, pulses: nat, rotation: int)
    requires
        1 <= pulses <= steps,
    ensures
        evenly_spaced(euclidean_pattern(steps, pulses, rotation)),
{
    lemma_maximally_even(steps, pulses, rotation);
    lemma_unrotated_counts(steps, pulses);
    lemma_rotated_pulse_count(bjorklund_pattern(steps, pulses), rotation);
    lemma_even_spacing(euclidean_pattern(steps, pulses, rotation));
}

/// A Euclidean rhythm with at least one pulse and no rotation starts with a
/// pulse.
pub proof fn lemma_starts_with_pulse(steps: nat, pulses: nat)
    requires
        1 <= pulses <= steps,
    ensures
        euclidean_pattern(steps, pulses, 0)[0],
        bjorklund_pattern(steps, pulses)[0],
{
    lemma_paired_first(pulses, seq![true], (steps - pulses) as nat, seq![false]);
    lemma_rotated_zero(bjorklund_pattern(steps, pulses));
}

} // verus!

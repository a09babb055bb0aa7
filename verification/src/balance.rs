//! Maximal evenness: in a Euclidean rhythm, every run of consecutive steps,
//! taken anywhere around the cycle, holds its fair share of the pulses, rounded
//! down or up.

use vstd::prelude::*;
use vstd::arithmetic::div_mod::{lemma_fundamental_div_mod, lemma_mod_bound};
use crate::counting::{
    lemma_pulse_count_add, lemma_repeated_pulse_count, lemma_repeated_step, lemma_step_pulse_count,
    lemma_unrotated_counts,
};
use crate::pattern::{
    bjorklund_pattern, cycle_window, euclidean_pattern, paired, pulse_count, repeated, rotated, uniform,
};
use crate::rotation::{lemma_rotated_pulse_count, lemma_rotated_step, lemma_shifted_step};

verus! {

/// Whether the pulses of the cycle `p` are spread as evenly as can be: of `n`
/// steps with `k` pulses, any `len` steps in a row hold `len * k / n` pulses,
/// rounded down or up.
pub open spec fn maximally_even(p: Seq<bool>) -> bool {
    let n = p.len() as int;
    let k = pulse_count(p) as int;
    forall|from: int, len: nat|
        (len * k) / n <= #[trigger] pulse_count(cycle_window(p, from, len)) <= (len * k + n - 1) / n
}

/// The word `u` with each pulse replaced by the word `for_pulse` and each rest
/// by the word `for_rest`.
pub open spec fn substituted(u: Seq<bool>, for_pulse: Seq<bool>, for_rest: Seq<bool>) -> Seq<bool>
    decreases u.len(),
{
    if u.len() == 0 {
        Seq::empty()
    } else {
        substituted(u.drop_last(), for_pulse, for_rest) + if u.last() {
            for_pulse
        } else {
            for_rest
        }
    }
}

/// How far the pulses among the first `i` steps of `w` run ahead of an even
/// share of `pulses` pulses for every `steps` steps, in units of one pulse for
/// every `steps`.
pub open spec fn drift(w: Seq<bool>, steps: int, pulses: int, i: int) -> int {
    steps * pulse_count(w.take(i)) - pulses * i
}

/// Whether the drift of `w` stays between `lo` and `hi` at every position.
pub open spec fn drift_within(w: Seq<bool>, steps: int, pulses: int, lo: int, hi: int) -> bool {
    forall|i: int| 0 <= i <= w.len() ==> lo <= #[trigger] drift(w, steps, pulses, i) <= hi
}

/// A single step is replaced by its word.
proof fn lemma_substituted_step(step: bool, for_pulse: Seq<bool>, for_rest: Seq<bool>)
    ensures
        substituted(seq![step], for_pulse, for_rest) == if step {
            for_pulse
        } else {
            for_rest
        },
{
    let one = seq![step];
    assert(one.drop_last() =~= Seq::<bool>::empty());
    assert(substituted(one.drop_last(), for_pulse, for_rest) =~= Seq::<bool>::empty());
    assert(substituted(one, for_pulse, for_rest) =~= if step {
        for_pulse
    } else {
        for_rest
    });
}

/// Substitution goes through joining.
proof fn lemma_substituted_joined(x: Seq<bool>, y: Seq<bool>, for_pulse: Seq<bool>, for_rest: Seq<bool>)
    ensures
        substituted(x + y, for_pulse, for_rest) == substituted(x, for_pulse, for_rest) + substituted(
            y,
            for_pulse,
            for_rest,
        ),
    decreases y.len(),
{
    if y.len() == 0 {
        assert(x + y =~= x);
        assert(substituted(x, for_pulse, for_rest) + substituted(y, for_pulse, for_rest) =~= substituted(
            x,
            for_pulse,
            for_rest,
        ));
    } else {
        lemma_substituted_joined(x, y.drop_last(), for_pulse, for_rest);
        assert((x + y).drop_last() =~= x + y.drop_last());
        let image = if y.last() {
            for_pulse
        } else {
            for_rest
        };
        assert((substituted(x, for_pulse, for_rest) + substituted(y.drop_last(), for_pulse, for_rest)) + image
            =~= substituted(x, for_pulse, for_rest) + (substituted(y.drop_last(), for_pulse, for_rest)
            + image));
    }
}

/// Substitution goes through repetition.
proof fn lemma_substituted_repeated(word: Seq<bool>, count: nat, for_pulse: Seq<bool>, for_rest: Seq<bool>)
    ensures
        substituted(repeated(word, count), for_pulse, for_rest) == repeated(
            substituted(word, for_pulse, for_rest),
            count,
        ),
    decreases count,
{
    if count > 0 {
        lemma_substituted_repeated(word, (count - 1) as nat, for_pulse, for_rest);
        lemma_substituted_joined(repeated(word, (count - 1) as nat), word, for_pulse, for_rest);
    }
}

/// Substitution goes through pairing: the pairing of the substituted groups
/// is the substituted pairing.
proof fn lemma_substituted_paired(
    left_count: nat,
    left: Seq<bool>,
    right_count: nat,
    right: Seq<bool>,
    for_pulse: Seq<bool>,
    for_rest: Seq<bool>,
)
    ensures
        substituted(paired(left_count, left, right_count, right), for_pulse, for_rest) == paired(
            left_count,
            substituted(left, for_pulse, for_rest),
            right_count,
            substituted(right, for_pulse, for_rest),
        ),
    decreases left_count + right_count,
{
    if left_count == 0 || right_count <= 1 {
        lemma_substituted_repeated(left, left_count, for_pulse, for_rest);
        lemma_substituted_repeated(right, right_count, for_pulse, for_rest);
        lemma_substituted_joined(
            repeated(left, left_count),
            repeated(right, right_count),
            for_pulse,
            for_rest,
        );
    } else {
        lemma_substituted_joined(left, right, for_pulse, for_rest);
        if left_count <= right_count {
            lemma_substituted_paired(
                left_count,
                left + right,
                (right_count - left_count) as nat,
                right,
                for_pulse,
                for_rest,
            );
        } else {
            lemma_substituted_paired(
                right_count,
                left + right,
                (left_count - right_count) as nat,
                left,
                for_pulse,
                for_rest,
            );
        }
    }
}

/// With no more pulses than rests, the rhythm is the rhythm of the same
/// pulses over the rests alone, with a rest put in after each pulse.
pub proof fn lemma_rests_put_in(steps: nat, pulses: nat)
    requires
        1 <= pulses,
        2 * pulses <= steps,
        steps - pulses >= 2,
    ensures
        bjorklund_pattern(steps, pulses) == substituted(
            bjorklund_pattern((steps - pulses) as nat, pulses),
            seq![true, false],
            seq![false],
        ),
{
    lemma_substituted_paired(
        pulses,
        seq![true],
        (steps - pulses - pulses) as nat,
        seq![false],
        seq![true, false],
        seq![false],
    );
    lemma_substituted_step(true, seq![true, false], seq![false]);
    lemma_substituted_step(false, seq![true, false], seq![false]);
    assert(seq![true] + seq![false] =~= seq![true, false]);
}

/// With more pulses than rests, the rhythm is the rhythm of as many pulses as
/// there are rests, over as many steps as there are pulses, with each pulse
/// replaced by a pulse and a rest, and each rest by a pulse.
pub proof fn lemma_pulses_put_in(steps: nat, pulses: nat)
    requires
        pulses <= steps,
        2 * pulses > steps,
        steps - pulses >= 2,
    ensures
        bjorklund_pattern(steps, pulses) == substituted(
            bjorklund_pattern(pulses, (steps - pulses) as nat),
            seq![true, false],
            seq![true],
        ),
{
    lemma_substituted_paired(
        (steps - pulses) as nat,
        seq![true],
        (pulses - (steps - pulses)) as nat,
        seq![false],
        seq![true, false],
        seq![true],
    );
    lemma_substituted_step(true, seq![true, false], seq![true]);
    lemma_substituted_step(false, seq![true, false], seq![true]);
    assert(seq![true] + seq![false] =~= seq![true, false]);
}

/// A pulse and a rest hold one pulse.
proof fn lemma_pulse_rest_count()
    ensures
        pulse_count(seq![true, false]) == 1,
{
    lemma_pulse_count_add(seq![true], seq![false]);
    lemma_step_pulse_count(true);
    lemma_step_pulse_count(false);
    assert(seq![true] + seq![false] =~= seq![true, false]);
}

/// The drift of a word bounds the drift of the word without its last step.
proof fn lemma_drift_shorter(u: Seq<bool>, n: int, k: int, lo: int, hi: int)
    requires
        u.len() > 0,
        drift_within(u, n, k, lo, hi),
    ensures
        drift_within(u.drop_last(), n, k, lo, hi),
        pulse_count(u) == pulse_count(u.drop_last()) + if u.last() { 1nat } else { 0nat },
        lo <= n * pulse_count(u) - k * u.len() <= hi,
{
    let shorter = u.drop_last();
    assert forall|i: int| 0 <= i <= shorter.len() implies lo <= #[trigger] drift(shorter, n, k, i) <= hi by {
        assert(shorter.take(i) =~= u.take(i));
        assert(lo <= drift(u, n, k, i) <= hi);
    }
    assert(u =~= shorter + seq![u.last()]);
    lemma_pulse_count_add(shorter, seq![u.last()]);
    lemma_step_pulse_count(u.last());
    assert(u.take(u.len() as int) =~= u);
    assert(lo <= drift(u, n, k, u.len() as int) <= hi);
}

/// Putting a rest in after each pulse keeps the number of pulses, and lets
/// the drift rise by no more than that number.
proof fn lemma_drift_rests_put_in(u: Seq<bool>, n: int, k: int, lo: int, hi: int)
    requires
        k >= 0,
        drift_within(u, n, k, lo, hi),
    ensures
        ({
            let v = substituted(u, seq![true, false], seq![false]);
            &&& v.len() == u.len() + pulse_count(u)
            &&& pulse_count(v) == pulse_count(u)
            &&& drift_within(v, n + k, k, lo, hi + k)
        }),
    decreases u.len(),
{
    let v = substituted(u, seq![true, false], seq![false]);
    if u.len() == 0 {
        assert(lo <= drift(u, n, k, 0) <= hi);
        assert(u.take(0) =~= v.take(0));
        assert(pulse_count(u.take(0)) == 0);
        assert(u =~= u.take(0));
        assert forall|i: int| 0 <= i <= v.len() implies lo <= #[trigger] drift(v, n + k, k, i) <= hi + k by {
            assert(n * 0 - k * 0 == 0);
            assert((n + k) * 0 - k * 0 == 0);
        }
    } else {
        let u0 = u.drop_last();
        let v0 = substituted(u0, seq![true, false], seq![false]);
        lemma_drift_shorter(u, n, k, lo, hi);
        lemma_drift_rests_put_in(u0, n, k, lo, hi);
        let image = if u.last() {
            seq![true, false]
        } else {
            seq![false]
        };
        lemma_pulse_count_add(v0, image);
        lemma_pulse_rest_count();
        lemma_step_pulse_count(false);
        let c0: int = pulse_count(u0) as int;
        let l0: int = u0.len() as int;
        let c: int = pulse_count(u) as int;
        let l: int = u.len() as int;
        assert forall|i: int| 0 <= i <= v.len() implies lo <= #[trigger] drift(v, n + k, k, i) <= hi + k by {
            if i <= v0.len() {
                assert(v.take(i) =~= v0.take(i));
                assert(lo <= drift(v0, n + k, k, i) <= hi + k);
            } else if i == v.len() {
                assert(v.take(i) =~= v);
                assert((n + k) * c - k * (l + c) == n * c - k * l) by (nonlinear_arith);
            } else {
                assert(v.take(i) =~= v0 + seq![true]);
                lemma_pulse_count_add(v0, seq![true]);
                lemma_step_pulse_count(true);
                assert((n + k) * (c0 + 1) - k * (l0 + c0 + 1) == (n * (c0 + 1) - k * (l0 + 1)) + k)
                    by (nonlinear_arith);
            }
        }
    }
}

/// Replacing each pulse by a pulse and a rest, and each rest by a pulse, makes
/// a pulse of every step, and turns the drift around, raised by no more than
/// the number of pulses there were.
proof fn lemma_drift_pulses_put_in(u: Seq<bool>, n: int, k: int, lo: int, hi: int)
    requires
        k >= 0,
        drift_within(u, n, k, lo, hi),
    ensures
        ({
            let v = substituted(u, seq![true, false], seq![true]);
            &&& v.len() == u.len() + pulse_count(u)
            &&& pulse_count(v) == u.len()
            &&& drift_within(v, n + k, n, -hi, -lo + k)
        }),
    decreases u.len(),
{
    let v = substituted(u, seq![true, false], seq![true]);
    if u.len() == 0 {
        assert(lo <= drift(u, n, k, 0) <= hi);
        assert(u.take(0) =~= v.take(0));
        assert(pulse_count(u.take(0)) == 0);
        assert(u =~= u.take(0));
        assert forall|i: int| 0 <= i <= v.len() implies -hi <= #[trigger] drift(v, n + k, n, i) <= -lo + k by {
            assert(n * 0 - k * 0 == 0);
            assert((n + k) * 0 - n * 0 == 0);
        }
    } else {
        let u0 = u.drop_last();
        let v0 = substituted(u0, seq![true, false], seq![true]);
        lemma_drift_shorter(u, n, k, lo, hi);
        lemma_drift_pulses_put_in(u0, n, k, lo, hi);
        let image = if u.last() {
            seq![true, false]
        } else {
            seq![true]
        };
        lemma_pulse_count_add(v0, image);
        lemma_pulse_rest_count();
        lemma_step_pulse_count(true);
        let c0: int = pulse_count(u0) as int;
        let l0: int = u0.len() as int;
        let c: int = pulse_count(u) as int;
        let l: int = u.len() as int;
        assert(u0.take(l0) =~= u0);
        assert(lo <= drift(u0, n, k, l0) <= hi);
        assert forall|i: int| 0 <= i <= v.len() implies -hi <= #[trigger] drift(v, n + k, n, i) <= -lo + k by {
            if i <= v0.len() {
                assert(v.take(i) =~= v0.take(i));
                assert(-hi <= drift(v0, n + k, n, i) <= -lo + k);
            } else if i == v.len() {
                assert(v.take(i) =~= v);
                assert((n + k) * l - n * (l + c) == -(n * c - k * l)) by (nonlinear_arith);
            } else {
                assert(v.take(i) =~= v0 + seq![true]);
                lemma_pulse_count_add(v0, seq![true]);
                assert((n + k) * (l0 + 1) - n * (l0 + c0 + 1) == -(n * c0 - k * l0) + k) by (nonlinear_arith);
            }
        }
    }
}

/// Where nothing is paired, the drift starts at nothing and stays below the
/// number of steps.
proof fn lemma_drift_unpaired(pulses: nat, rests: nat)
    requires
        pulses == 0 || rests <= 1,
        pulses + rests >= 1,
    ensures
        drift_within(
            repeated(seq![true], pulses) + repeated(seq![false], rests),
            (pulses + rests) as int,
            pulses as int,
            0,
            pulses + rests - 1,
        ),
{
    let w = repeated(seq![true], pulses) + repeated(seq![false], rests);
    let n: int = (pulses + rests) as int;
    let k: int = pulses as int;
    lemma_repeated_step(true, pulses);
    lemma_repeated_step(false, rests);
    assert forall|i: int| 0 <= i <= w.len() implies 0 <= #[trigger] drift(w, n, k, i) <= n - 1 by {
        let c: int = pulse_count(w.take(i)) as int;
        if i <= pulses {
            assert(w.take(i) =~= uniform(i as nat, true));
            lemma_repeated_step(true, i as nat);
            lemma_repeated_pulse_count(seq![true], i as nat);
            lemma_step_pulse_count(true);
            assert(c == i) by (nonlinear_arith)
                requires
                    c == i * 1,
            ;
            assert(n * i - k * i == rests * i) by (nonlinear_arith)
                requires
                    n == k + rests,
            ;
            if rests == 0 {
                assert(rests * i == 0) by (nonlinear_arith)
                    requires
                        rests == 0,
                ;
            } else if rests == 1 {
                assert(rests * i == i) by (nonlinear_arith)
                    requires
                        rests == 1,
                ;
            } else {
                assert(rests * i == 0) by (nonlinear_arith)
                    requires
                        i == 0,
                ;
            }
        } else if pulses == 0 {
            assert(w.take(i) =~= uniform(i as nat, false));
            lemma_repeated_step(false, i as nat);
            lemma_repeated_pulse_count(seq![false], i as nat);
            lemma_step_pulse_count(false);
            assert(c == 0) by (nonlinear_arith)
                requires
                    c == i * 0,
            ;
            assert(n * c - k * i == 0) by (nonlinear_arith)
                requires
                    c == 0,
                    k == 0,
            ;
        } else {
            assert(w.take(i) =~= w);
            lemma_pulse_count_add(repeated(seq![true], pulses), repeated(seq![false], rests));
            lemma_repeated_pulse_count(seq![true], pulses);
            lemma_repeated_pulse_count(seq![false], rests);
            lemma_step_pulse_count(true);
            lemma_step_pulse_count(false);
            assert(c == k) by (nonlinear_arith)
                requires
                    c == k * 1 + rests * 0,
            ;
            assert(n * c - k * i == 0) by (nonlinear_arith)
                requires
                    c == k,
                    i == n,
            ;
        }
    }
}

/// The drift of an unrotated rhythm of `pulses` pulses and `rests` rests stays
/// within the bounds that are returned, and these are less than the number of
/// steps apart.
proof fn lemma_drift_bounded(pulses: nat, rests: nat) -> (bounds: (int, int))
    requires
        pulses + rests >= 1,
    ensures
        drift_within(
            bjorklund_pattern(pulses + rests, pulses),
            (pulses + rests) as int,
            pulses as int,
            bounds.0,
            bounds.1,
        ),
        bounds.1 - bounds.0 < pulses + rests,
    decreases pulses + rests,
{
    if pulses == 0 || rests <= 1 {
        lemma_drift_unpaired(pulses, rests);
        (0, pulses + rests - 1)
    } else if pulses <= rests {
        let (lo, hi) = lemma_drift_bounded(pulses, (rests - pulses) as nat);
        lemma_rests_put_in(pulses + rests, pulses);
        lemma_drift_rests_put_in(
            bjorklund_pattern(rests, pulses),
            rests as int,
            pulses as int,
            lo,
            hi,
        );
        (lo, hi + pulses)
    } else {
        let (lo, hi) = lemma_drift_bounded(rests, (pulses - rests) as nat);
        lemma_pulses_put_in(pulses + rests, pulses);
        lemma_drift_pulses_put_in(
            bjorklund_pattern(pulses, rests),
            pulses as int,
            rests as int,
            lo,
            hi,
        );
        (-hi, -lo + rests)
    }
}

/// A window of the cycle splits into a first part and the window that
/// follows it.
proof fn lemma_window_split(p: Seq<bool>, from: int, first: nat, second: nat)
    ensures
        cycle_window(p, from, first + second) == cycle_window(p, from, first) + cycle_window(
            p,
            from + first,
            second,
        ),
        pulse_count(cycle_window(p, from, first + second)) == pulse_count(cycle_window(p, from, first))
            + pulse_count(cycle_window(p, from + first, second)),
{
    assert(cycle_window(p, from, first + second) =~= cycle_window(p, from, first) + cycle_window(
        p,
        from + first,
        second,
    ));
    lemma_pulse_count_add(cycle_window(p, from, first), cycle_window(p, from + first, second));
}

/// A window that starts whole cycles later holds the same steps.
proof fn lemma_window_shifted(p: Seq<bool>, from: int, cycles: int, len: nat)
    requires
        p.len() > 0,
    ensures
        cycle_window(p, from + cycles * p.len(), len) == cycle_window(p, from, len),
{
    assert forall|d: int| 0 <= d < len implies cycle_window(p, from + cycles * p.len(), len)[d]
        == cycle_window(p, from, len)[d] by {
        lemma_shifted_step(p, from + cycles * p.len() + d, from + d, cycles);
    }
    assert(cycle_window(p, from + cycles * p.len(), len) =~= cycle_window(p, from, len));
}

/// The drift of a cycle stays within the bounds of the drift of one turn.
proof fn lemma_drift_around(p: Seq<bool>, lo: int, hi: int, i: nat)
    requires
        p.len() > 0,
        drift_within(p, p.len() as int, pulse_count(p) as int, lo, hi),
    ensures
        lo <= p.len() * pulse_count(cycle_window(p, 0, i)) - pulse_count(p) * i <= hi,
    decreases i,
{
    let n: int = p.len() as int;
    let k: int = pulse_count(p) as int;
    if i <= n {
        assert forall|d: int| 0 <= d < i implies cycle_window(p, 0, i)[d] == p[d] by {
            vstd::arithmetic::div_mod::lemma_small_mod(d as nat, n as nat);
        }
        assert(cycle_window(p, 0, i) =~= p.take(i as int));
        assert(lo <= drift(p, n, k, i as int) <= hi);
    } else {
        let rest: nat = (i - n) as nat;
        lemma_drift_around(p, lo, hi, rest);
        lemma_window_split(p, 0, n as nat, rest);
        lemma_window_shifted(p, 0, 1, rest);
        assert(0 + 1 * p.len() == 0 + n) by (nonlinear_arith)
            requires
                n == p.len(),
        ;
        assert forall|d: int| 0 <= d < n implies cycle_window(p, 0, n as nat)[d] == p[d] by {
            vstd::arithmetic::div_mod::lemma_small_mod(d as nat, n as nat);
        }
        assert(cycle_window(p, 0, n as nat) =~= p);
        let c: int = pulse_count(cycle_window(p, 0, rest)) as int;
        assert(n * (k + c) - k * i == n * c - k * (i - n)) by (nonlinear_arith);
    }
}

/// A pattern whose drift stays within bounds that are less than its length
/// apart is maximally even.
proof fn lemma_bounded_drift_is_even(p: Seq<bool>, lo: int, hi: int)
    requires
        p.len() > 0,
        drift_within(p, p.len() as int, pulse_count(p) as int, lo, hi),
        hi - lo < p.len(),
    ensures
        maximally_even(p),
{
    let n: int = p.len() as int;
    let k: int = pulse_count(p) as int;
    assert forall|from: int, len: nat|
        (len * k) / n <= #[trigger] pulse_count(cycle_window(p, from, len)) <= (len * k + n - 1) / n by {
        let start: int = from % n;
        lemma_mod_bound(from, n);
        lemma_fundamental_div_mod(from, n);
        vstd::arithmetic::mul::lemma_mul_is_commutative(n, from / n);
        lemma_window_shifted(p, start, from / n, len);
        lemma_window_split(p, 0, start as nat, len);
        lemma_drift_around(p, lo, hi, start as nat);
        lemma_drift_around(p, lo, hi, start as nat + len);
        let before: int = pulse_count(cycle_window(p, 0, start as nat)) as int;
        let upto: int = pulse_count(cycle_window(p, 0, start as nat + len)) as int;
        let held: int = pulse_count(cycle_window(p, from, len)) as int;
        assert(held == upto - before);
        let share: int = len * k;
        assert(n * held - share == (n * upto - k * (start + len)) - (n * before - k * start))
            by (nonlinear_arith)
            requires
                held == upto - before,
                share == len * k,
        ;
        assert(-n < n * held - share < n);
        lemma_fundamental_div_mod(share, n);
        lemma_mod_bound(share, n);
        lemma_fundamental_div_mod(share + n - 1, n);
        lemma_mod_bound(share + n - 1, n);
        let down: int = share / n;
        let up: int = (share + n - 1) / n;
        assert(down <= held) by (nonlinear_arith)
            requires
                n > 0,
                share < n * held + n,
                n * down <= share,
        ;
        assert(held <= up) by (nonlinear_arith)
            requires
                n > 0,
                n * held < share + n,
                share <= n * up,
        ;
    }
}

/// Whether a pattern is maximally even does not depend on where the cycle
/// starts.
pub proof fn lemma_rotated_maximally_even(p: Seq<bool>, amount: int)
    requires
        maximally_even(p),
    ensures
        maximally_even(rotated(p, amount)),
{
    let q = rotated(p, amount);
    let n: int = p.len() as int;
    let k: int = pulse_count(p) as int;
    lemma_rotated_pulse_count(p, amount);
    if n > 0 {
        assert forall|from: int, len: nat|
            (len * k) / n <= #[trigger] pulse_count(cycle_window(q, from, len)) <= (len * k + n - 1) / n by {
            assert forall|d: int| 0 <= d < len implies cycle_window(q, from, len)[d] == cycle_window(
                p,
                from + amount,
                len,
            )[d] by {
                lemma_rotated_step(p, amount, from + d);
            }
            assert(cycle_window(q, from, len) =~= cycle_window(p, from + amount, len));
        }
    } else {
        assert(q =~= p);
    }
}

/// A Euclidean rhythm is maximally even, whatever the rotation: any run of
/// its steps, taken around the cycle, holds its share of the pulses, rounded
/// down or up.
pub proof fn lemma_maximally_even(steps: nat, pulses: nat, rotation: int)
    requires
        steps >= 1,
        pulses <= steps,
    ensures
        maximally_even(euclidean_pattern(steps, pulses, rotation)),
{
    let w = bjorklund_pattern(steps, pulses);
    lemma_unrotated_counts(steps, pulses);
    let (lo, hi) = lemma_drift_bounded(pulses, (steps - pulses) as nat);
    lemma_bounded_drift_is_even(w, lo, hi);
    lemma_rotated_maximally_even(w, rotation);
}

} // verus!

//! Circular rotation of a pattern, in either direction and by any amount.

use vstd::prelude::*;
use vstd::arithmetic::div_mod::{lemma_fundamental_div_mod_converse, lemma_mod_bound};
use vstd::slice::slice_subrange;
use crate::counting::lemma_pulse_count_add;
use crate::pattern::{pulse_count, rotated, step_at, uniform};

verus! {

/// The left shift in `0..len` that a rotation by `rotation` amounts to on a
/// pattern of `len` steps.
pub fn normalized_shift(rotation: i32, len: usize) -> (shift: usize)
    requires
        len > 0,
    ensures
        shift as int == (rotation as int) % (len as int),
{
    proof {
        lemma_mod_bound(rotation as int, len as int);
    }
    if rotation >= 0 {
        (rotation as usize) % len
    } else {
        let back: usize = ((-(rotation as i64)) as usize) % len;
        proof {
            let m: int = -(rotation as int);
            let n: int = len as int;
            lemma_mod_bound(m, n);
            assert(m == n * (m / n) + m % n) by {
                vstd::arithmetic::div_mod::lemma_fundamental_div_mod(m, n);
            }
            if back == 0 {
                assert(rotation as int == (-(m / n)) * n + 0) by (nonlinear_arith)
                    requires
                        m == n * (m / n) + m % n,
                        m % n == 0,
                        rotation as int == -m,
                ;
                lemma_fundamental_div_mod_converse(rotation as int, n, -(m / n), 0);
            } else {
                assert(rotation as int == (-(m / n) - 1) * n + (n - m % n)) by (nonlinear_arith)
                    requires
                        m == n * (m / n) + m % n,
                        rotation as int == -m,
                ;
                lemma_fundamental_div_mod_converse(rotation as int, n, -(m / n) - 1, n - m % n);
            }
        }
        if back == 0 {
            0
        } else {
            len - back
        }
    }
}

/// Shifts `pattern` circularly to the left by `shift` steps, into a new vector.
pub fn rotate_left_by(pattern: &[bool], shift: usize) -> (result: Vec<bool>)
    requires
        shift <= pattern@.len(),
    ensures
        result@ == rotated(pattern@, shift as int),
{
    let len: usize = pattern.len();
    let mut result: Vec<bool> = Vec::with_capacity(len);
    result.extend_from_slice(slice_subrange(pattern, shift, len));
    result.extend_from_slice(slice_subrange(pattern, 0, shift));
    proof {
        lemma_rotated_splits(pattern@, shift as int);
        assert(result@ =~= pattern@.subrange(shift as int, len as int) + pattern@.subrange(0, shift as int));
    }
    result
}

/// Rotates `pattern` by `rotation` steps into a new vector: to the left
/// (earlier in time) for a positive amount, to the right (later in time) for a
/// negative one. The amount wraps around the pattern's length, and an empty
/// pattern stays empty.
pub fn rotate_pattern(pattern: &[bool], rotation: i32) -> (result: Vec<bool>)
    ensures
        result@ == rotated(pattern@, rotation as int),
        result@.len() == pattern@.len(),
{
    if pattern.is_empty() {
        let result: Vec<bool> = Vec::new();
        assert(result@ =~= rotated(pattern@, rotation as int));
        return result;
    }
    let shift: usize = normalized_shift(rotation, pattern.len());
    proof {
        lemma_rotated_wraps(pattern@, rotation as int);
    }
    rotate_left_by(pattern, shift)
}

/// A left shift by `shift <= p.len()` puts the part of `p` from `shift` on in
/// front of the part before `shift`.
pub proof fn lemma_rotated_splits(p: Seq<bool>, shift: int)
    requires
        0 <= shift <= p.len(),
    ensures
        rotated(p, shift) == p.subrange(shift, p.len() as int) + p.subrange(0, shift),
{
    let n: int = p.len() as int;
    let joined = p.subrange(shift, n) + p.subrange(0, shift);
    assert forall|i: int| 0 <= i < n implies rotated(p, shift)[i] == joined[i] by {
        if i + shift < n {
            lemma_fundamental_div_mod_converse(i + shift, n, 0, i + shift);
        } else {
            lemma_fundamental_div_mod_converse(i + shift, n, 1, i + shift - n);
        }
    }
    assert(rotated(p, shift) =~= joined);
}

/// Rotation wraps around the length: rotating by `amount` is rotating by
/// `amount` modulo the length of the pattern.
pub proof fn lemma_rotated_wraps(p: Seq<bool>, amount: int)
    requires
        p.len() > 0,
    ensures
        rotated(p, amount) == rotated(p, amount % (p.len() as int)),
{
    let n: int = p.len() as int;
    assert forall|i: int| 0 <= i < n implies rotated(p, amount)[i] == rotated(p, amount % n)[i] by {
        vstd::arithmetic::div_mod::lemma_add_mod_noop_right(i, amount, n);
    }
    assert(rotated(p, amount) =~= rotated(p, amount % n));
}

/// Two rotations in a row are one rotation by the sum of their amounts.
pub proof fn lemma_rotated_twice(p: Seq<bool>, first: int, second: int)
    ensures
        rotated(rotated(p, first), second) == rotated(p, first + second),
{
    let n: int = p.len() as int;
    assert forall|i: int| 0 <= i < n implies rotated(rotated(p, first), second)[i] == rotated(
        p,
        first + second,
    )[i] by {
        lemma_mod_bound(i + second, n);
        vstd::arithmetic::div_mod::lemma_add_mod_noop_right(first, i + second, n);
        assert((i + second) % n + first == first + (i + second) % n);
        assert(first + (i + second) == i + (first + second));
    }
    assert(rotated(rotated(p, first), second) =~= rotated(p, first + second));
}

/// A rotation by no steps changes nothing.
pub proof fn lemma_rotated_zero(p: Seq<bool>)
    ensures
        rotated(p, 0) == p,
{
    assert forall|i: int| 0 <= i < p.len() implies rotated(p, 0)[i] == p[i] by {
        lemma_fundamental_div_mod_converse(i, p.len() as int, 0, i);
    }
    assert(rotated(p, 0) =~= p);
}

/// The empty pattern stays empty under every rotation.
pub proof fn lemma_rotated_empty(amount: int)
    ensures
        rotated(Seq::<bool>::empty(), amount) == Seq::<bool>::empty(),
{
    assert(rotated(Seq::<bool>::empty(), amount) =~= Seq::<bool>::empty());
}

/// Rotating by an amount and then by its negative gives the pattern back, for
/// every pattern and every amount.
pub proof fn lemma_rotation_round_trip(p: Seq<bool>, amount: int)
    ensures
        rotated(rotated(p, amount), -amount) == p,
{
    lemma_rotated_twice(p, amount, -amount);
    lemma_rotated_zero(p);
}

/// Rotation moves pulses and neither adds nor drops one.
pub proof fn lemma_rotated_pulse_count(p: Seq<bool>, amount: int)
    ensures
        pulse_count(rotated(p, amount)) == pulse_count(p),
{
    if p.len() == 0 {
        assert(rotated(p, amount) =~= p);
    } else {
        let n: int = p.len() as int;
        let shift: int = amount % n;
        lemma_mod_bound(amount, n);
        lemma_rotated_wraps(p, amount);
        lemma_rotated_splits(p, shift);
        lemma_pulse_count_add(p.subrange(shift, n), p.subrange(0, shift));
        lemma_pulse_count_add(p.subrange(0, shift), p.subrange(shift, n));
        assert(p =~= p.subrange(0, shift) + p.subrange(shift, n));
    }
}

/// A pattern whose steps are all alike is the same under every rotation.
pub proof fn lemma_rotated_uniform(steps: nat, pulse: bool, amount: int)
    ensures
        rotated(uniform(steps, pulse), amount) == uniform(steps, pulse),
{
    assert forall|i: int| 0 <= i < steps implies rotated(uniform(steps, pulse), amount)[i] == pulse by {
        lemma_mod_bound(i + amount, steps as int);
    }
    assert(rotated(uniform(steps, pulse), amount) =~= uniform(steps, pulse));
}

/// Positions of a cycle that differ by whole turns hold the same step.
pub proof fn lemma_shifted_step(p: Seq<bool>, i: int, j: int, turns: int)
    requires
        p.len() > 0,
        i == j + turns * p.len(),
    ensures
        step_at(p, i) == step_at(p, j),
{
    vstd::arithmetic::div_mod::lemma_mod_multiples_vanish(turns, j, p.len() as int);
}

/// A rotation moves every step of the cycle by the same amount.
pub proof fn lemma_rotated_step(p: Seq<bool>, amount: int, i: int)
    requires
        p.len() > 0,
    ensures
        step_at(rotated(p, amount), i) == step_at(p, i + amount),
{
    let n: int = p.len() as int;
    lemma_mod_bound(i, n);
    vstd::arithmetic::div_mod::lemma_add_mod_noop_right(amount, i, n);
    assert(i % n + amount == amount + i % n);
    assert(amount + i == i + amount);
}

} // verus!

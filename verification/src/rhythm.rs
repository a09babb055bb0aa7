//! Euclidean rhythms from their three parameters: the number of steps, the
//! number of pulses, and a rotation.

use vstd::prelude::*;
use crate::balance::{lemma_maximally_even, maximally_even};
use crate::bjorklund::bjorklund;
use crate::counting::{lemma_repeated_step, lemma_unrotated_counts};
use crate::pattern::{bjorklund_pattern, euclidean_pattern, pulse_count, repeated, uniform};
use crate::rotation::{
    lemma_rotated_pulse_count, lemma_rotated_splits, lemma_rotated_uniform, lemma_rotated_wraps, rotate_left_by,
};
use crate::spacing::{evenly_spaced, lemma_evenly_spaced};

verus! {

/// Why no pattern was made.
#[derive(Clone, Copy, Debug, PartialEq, Eq)]
pub enum PatternError {
    /// A pattern of no steps was asked for, or more pulses than there are
    /// steps.
    InvalidInput,
}

/// The Euclidean rhythm that spreads `pulses` pulses as evenly as possible
/// over `steps` steps, shifted circularly to the left by `rotation` steps.
///
/// The parameters must be valid: at least one step, and no more pulses than
/// steps. [`distribute`] takes any parameters and reports invalid ones.
pub fn euclidean(steps: u8, pulses: u8, rotation: u8) -> (pattern: Vec<bool>)
    requires
        steps >= 1,
        pulses <= steps,
    ensures
        pattern@ == euclidean_pattern(steps as nat, pulses as nat, rotation as int),
        pattern@.len() == steps,
        pulse_count(pattern@) == pulses,
        pulses == 0 ==> pattern@ == uniform(steps as nat, false),
        pulses == steps ==> pattern@ == uniform(steps as nat, true),
        maximally_even(pattern@),
        pulses >= 1 ==> evenly_spaced(pattern@),
{
    proof {
        lemma_pattern_length(steps as nat, pulses as nat, rotation as int);
        lemma_pattern_pulse_count(steps as nat, pulses as nat, rotation as int);
        lemma_maximally_even(steps as nat, pulses as nat, rotation as int);
        if pulses >= 1 {
            lemma_evenly_spaced(steps as nat, pulses as nat, rotation as int);
        }
    }
    if pulses == 0 {
        let pattern: Vec<bool> = vec![false; steps as usize];
        proof {
            lemma_no_pulses(steps as nat, rotation as int);
            assert(pattern@ =~= uniform(steps as nat, false));
        }
        return pattern;
    }
    if pulses == steps {
        let pattern: Vec<bool> = vec![true; steps as usize];
        proof {
            lemma_all_pulses(steps as nat, rotation as int);
            assert(pattern@ =~= uniform(steps as nat, true));
        }
        return pattern;
    }
    let mut pattern: Vec<bool> = bjorklund(steps, pulses);

    let rot: usize = (rotation % steps) as usize;
    proof {
        lemma_unrotated_counts(steps as nat, pulses as nat);
        lemma_rotated_wraps(pattern@, rotation as int);
    }
    if rot > 0 {
        pattern = rotate_left_by(pattern.as_slice(), rot);
    } else {
        proof {
            lemma_rotated_splits(pattern@, 0);
            assert(pattern@ =~= pattern@.subrange(0, pattern@.len() as int) + pattern@.subrange(0, 0));
        }
    }
    pattern
}

/// The Euclidean rhythm of `pulses` pulses over `steps` steps, rotated to the
/// left by `rotation` steps, or `InvalidInput` where there is no such rhythm:
/// for no steps at all, and for more pulses than steps.
pub fn distribute(steps: u8, pulses: u8, rotation: u8) -> (result: Result<Vec<bool>, PatternError>)
    ensures
        result is Err <==> steps == 0 || pulses > steps,
        result matches Err(error) ==> error == PatternError::InvalidInput,
        result matches Ok(pattern) ==> {
            &&& pattern@ == euclidean_pattern(steps as nat, pulses as nat, rotation as int)
            &&& pattern@.len() == steps
            &&& pulse_count(pattern@) == pulses
            &&& maximally_even(pattern@)
            &&& pulses >= 1 ==> evenly_spaced(pattern@)
        },
{
    if steps == 0 {
        return Err(PatternError::InvalidInput);
    }
    if pulses > steps {
        return Err(PatternError::InvalidInput);
    }
    Ok(euclidean(steps, pulses, rotation))
}

/// The rhythm of a valid pair of parameters has exactly `steps` steps,
/// whatever the rotation.
pub proof fn lemma_pattern_length(steps: nat, pulses: nat, rotation: int)
    requires
        pulses <= steps,
    ensures
        euclidean_pattern(steps, pulses, rotation).len() == steps,
{
    lemma_unrotated_counts(steps, pulses);
}

/// The rhythm of a valid pair of parameters has exactly `pulses` pulses,
/// whatever the rotation.
pub proof fn lemma_pattern_pulse_count(steps: nat, pulses: nat, rotation: int)
    requires
        pulses <= steps,
    ensures
        pulse_count(euclidean_pattern(steps, pulses, rotation)) == pulses,
{
    lemma_unrotated_counts(steps, pulses);
    lemma_rotated_pulse_count(bjorklund_pattern(steps, pulses), rotation);
}

/// With no pulse to place, every step is a rest, whatever the rotation.
pub proof fn lemma_no_pulses(steps: nat, rotation: int)
    ensures
        euclidean_pattern(steps, 0, rotation) == uniform(steps, false),
{
    assert(repeated(seq![true], 0) + repeated(seq![false], steps) =~= repeated(seq![false], steps));
    lemma_repeated_step(false, steps);
    lemma_rotated_uniform(steps, false, rotation);
}

/// With as many pulses as steps, every step is a pulse, whatever the rotation.
pub proof fn lemma_all_pulses(steps: nat, rotation: int)
    ensures
        euclidean_pattern(steps, steps, rotation) == uniform(steps, true),
{
    assert(repeated(seq![true], steps) + repeated(seq![false], 0) =~= repeated(seq![true], steps));
    lemma_repeated_step(true, steps);
    lemma_rotated_uniform(steps, true, rotation);
}

/// The rotation wraps around the number of steps: a rotation by `rotation`
/// gives the rhythm that a rotation by `rotation` modulo `steps` gives.
pub proof fn lemma_rotation_wraps(steps: nat, pulses: nat, rotation: int)
    requires
        steps >= 1,
        pulses <= steps,
    ensures
        euclidean_pattern(steps, pulses, rotation) == euclidean_pattern(steps, pulses, rotation % (steps as int)),
{
    lemma_pattern_length(steps, pulses, rotation);
    lemma_rotated_wraps(bjorklund_pattern(steps, pulses), rotation);
}

} // verus!

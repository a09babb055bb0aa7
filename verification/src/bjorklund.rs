//! Bjorklund's algorithm: pulses and rests start as groups of one step each,
//! and groups are paired until at most one is left over.

use vstd::prelude::*;
use crate::counting::{lemma_repeated_front, lemma_repeated_step};
use crate::pattern::{bjorklund_pattern, paired, repeated, uniform};

verus! {

/// The groups of a list, each by its view.
pub open spec fn group_words(groups: Seq<Vec<bool>>) -> Seq<Seq<bool>> {
    Seq::new(groups.len(), |i: int| groups[i]@)
}

/// The list of `left_count` copies of `left` followed by `right_count` copies
/// of `right`.
pub open spec fn two_sided(left_count: nat, left: Seq<bool>, right_count: nat, right: Seq<bool>) -> Seq<Seq<bool>> {
    Seq::new(left_count + right_count, |i: int| if i < left_count { left } else { right })
}

/// Joining a two-sided list gives the copies of the left word followed by the
/// copies of the right word.
pub proof fn lemma_two_sided_joined(left_count: nat, left: Seq<bool>, right_count: nat, right: Seq<bool>)
    ensures
        two_sided(left_count, left, right_count, right).flatten() == repeated(left, left_count) + repeated(
            right,
            right_count,
        ),
    decreases left_count + right_count,
{
    let list = two_sided(left_count, left, right_count, right);
    if right_count > 0 {
        let shorter = two_sided(left_count, left, (right_count - 1) as nat, right);
        lemma_two_sided_joined(left_count, left, (right_count - 1) as nat, right);
        assert(list =~= shorter.push(right));
        shorter.lemma_flatten_push(right);
        assert(repeated(left, left_count) + repeated(right, right_count) =~= (repeated(left, left_count)
            + repeated(right, (right_count - 1) as nat)) + right);
    } else if left_count > 0 {
        let shorter = two_sided((left_count - 1) as nat, left, 0, right);
        lemma_two_sided_joined((left_count - 1) as nat, left, 0, right);
        assert(list =~= shorter.push(left));
        shorter.lemma_flatten_push(left);
        assert(repeated(left, left_count) + repeated(right, 0) =~= (repeated(left, (left_count - 1) as nat)
            + repeated(right, 0)) + left);
    } else {
        assert(list =~= Seq::<Seq<bool>>::empty());
        assert(repeated(left, 0) + repeated(right, 0) =~= Seq::<bool>::empty());
    }
}

/// One pulse among `steps` steps comes out as the pulse followed by all the
/// rests.
pub proof fn lemma_single_pulse(steps: nat)
    requires
        steps >= 1,
    ensures
        bjorklund_pattern(steps, 1) == seq![true] + repeated(seq![false], (steps - 1) as nat),
{
    lemma_single_pulse_from(seq![true], (steps - 1) as nat);
    assert(repeated(seq![true], 1) =~= seq![true]) by {
        assert(repeated(seq![true], 0) =~= Seq::<bool>::empty());
    }
}

/// A single left group takes the rests onto its end, one after the other.
proof fn lemma_single_pulse_from(left: Seq<bool>, rests: nat)
    ensures
        paired(1, left, rests, seq![false]) == left + repeated(seq![false], rests),
    decreases rests,
{
    let rest = seq![false];
    assert(repeated(left, 1) =~= left) by {
        assert(repeated(left, 0) =~= Seq::<bool>::empty());
    }
    if rests >= 2 {
        lemma_single_pulse_from(left + rest, (rests - 1) as nat);
        lemma_repeated_front(rest, rests);
        assert((left + rest) + repeated(rest, (rests - 1) as nat) =~= left + (rest + repeated(
            rest,
            (rests - 1) as nat,
        )));
    }
}

/// Appends to each of the first `pairs` groups the group that stands `split`
/// places after it.
fn merge_pairs(groups: &mut Vec<Vec<bool>>, split: usize, pairs: usize)
    requires
        pairs <= split,
        split + pairs <= old(groups)@.len(),
    ensures
        final(groups)@.len() == old(groups)@.len(),
        forall|j: int|
            0 <= j < pairs ==> (#[trigger] final(groups)@[j])@ == old(groups)@[j]@ + old(groups)@[split + j]@,
        forall|j: int| pairs <= j < old(groups)@.len() ==> (#[trigger] final(groups)@[j])@ == old(groups)@[j]@,
{
    let len: usize = groups.len();
    let mut i: usize = 0;
    while i < pairs
        invariant
            i <= pairs <= split,
            split + pairs <= len,
            len == old(groups)@.len(),
            groups@.len() == old(groups)@.len(),
            forall|j: int|
                0 <= j < i ==> (#[trigger] groups@[j])@ == old(groups)@[j]@ + old(groups)@[split + j]@,
            forall|j: int| i <= j < old(groups)@.len() ==> (#[trigger] groups@[j])@ == old(groups)@[j]@,
        decreases pairs - i,
    {
        let mut right_group: Vec<bool> = groups[split + i].clone();
        groups[i].append(&mut right_group);
        i += 1;
    }
}

/// Takes the groups at positions `from..to` out of the list and closes the gap.
fn remove_groups(groups: &mut Vec<Vec<bool>>, from: usize, to: usize)
    requires
        from <= to <= old(groups)@.len(),
    ensures
        final(groups)@ == old(groups)@.subrange(0, from as int) + old(groups)@.subrange(
            to as int,
            old(groups)@.len() as int,
        ),
{
    let mut tail: Vec<Vec<bool>> = groups.split_off(to);
    groups.truncate(from);
    groups.append(&mut tail);
    assert(old(groups)@.subrange(0, to as int).subrange(0, from as int) =~= old(groups)@.subrange(0, from as int));
}

/// Joins the groups, in their order, into one pattern.
fn join_groups(groups: &Vec<Vec<bool>>) -> (pattern: Vec<bool>)
    ensures
        pattern@ == group_words(groups@).flatten(),
{
    let ghost words = group_words(groups@);
    let mut pattern: Vec<bool> = Vec::new();
    let mut i: usize = 0;
    assert(words.take(0) =~= Seq::<Seq<bool>>::empty());
    while i < groups.len()
        invariant
            i <= groups@.len(),
            words == group_words(groups@),
            pattern@ == words.take(i as int).flatten(),
        decreases groups@.len() - i,
    {
        pattern.extend_from_slice(groups[i].as_slice());
        proof {
            assert(words.take(i + 1) =~= words.take(i as int).push(words[i as int]));
            words.take(i as int).lemma_flatten_push(words[i as int]);
            assert(pattern@ =~= words.take(i as int).flatten() + words[i as int]);
        }
        i += 1;
    }
    assert(words.take(i as int) =~= words);
    pattern
}

/// The unrotated Euclidean rhythm of `pulses` pulses over `steps` steps, for
/// the case that holds both pulses and rests.
pub fn bjorklund(steps: u8, pulses: u8) -> (pattern: Vec<bool>)
    requires
        0 < pulses < steps,
    ensures
        pattern@ == bjorklund_pattern(steps as nat, pulses as nat),
{
    let steps: usize = steps as usize;
    let pulses: usize = pulses as usize;

    if pulses == 1 {
        let mut pattern: Vec<bool> = vec![false; steps];
        pattern[0] = true;
        proof {
            lemma_single_pulse(steps as nat);
            lemma_repeated_step(false, (steps - 1) as nat);
            assert(pattern@ =~= seq![true] + uniform((steps - 1) as nat, false));
        }
        return pattern;
    }

    // One group per step: the pulses first, then the rests.
    let mut groups: Vec<Vec<bool>> = Vec::new();
    for made in 0..pulses
        invariant
            groups@.len() == made,
            forall|j: int| 0 <= j < made ==> (#[trigger] groups@[j])@ == seq![true],
    {
        groups.push(vec![true]);
        assert(groups@[made as int]@ =~= seq![true]);
    }
    for made in 0..(steps - pulses)
        invariant
            groups@.len() == pulses + made,
            forall|j: int| 0 <= j < pulses ==> (#[trigger] groups@[j])@ == seq![true],
            forall|j: int| pulses <= j < pulses + made ==> (#[trigger] groups@[j])@ == seq![false],
    {
        groups.push(vec![false]);
        assert(groups@[pulses + made]@ =~= seq![false]);
    }

    let mut split_idx: usize = pulses;
    let ghost mut left: Seq<bool> = seq![true];
    let ghost mut right: Seq<bool> = seq![false];
    assert(group_words(groups@) =~= two_sided(pulses as nat, left, (steps - pulses) as nat, right));

    loop
        invariant
            pulses < steps,
            1 <= split_idx <= groups@.len(),
            group_words(groups@) == two_sided(split_idx as nat, left, (groups@.len() - split_idx) as nat, right),
            paired(split_idx as nat, left, (groups@.len() - split_idx) as nat, right) == bjorklund_pattern(
                steps as nat,
                pulses as nat,
            ),
        ensures
            groups@.len() - split_idx <= 1,
        decreases groups@.len(),
    {
        let num_left: usize = split_idx;
        let num_right: usize = groups.len() - split_idx;

        if num_right <= 1 {
            break;
        }
        let num_pairs: usize = if num_left <= num_right {
            num_left
        } else {
            num_right
        };

        let ghost before = group_words(groups@);
        merge_pairs(&mut groups, split_idx, num_pairs);
        let ghost merged = groups@;
        remove_groups(&mut groups, split_idx, split_idx + num_pairs);

        proof {
            let kept: nat = if num_left <= num_right {
                (num_right - num_left) as nat
            } else {
                (num_left - num_right) as nat
            };
            let unpaired = if num_left <= num_right {
                right
            } else {
                left
            };
            assert(groups@.len() == num_pairs + kept);
            assert forall|j: int| 0 <= j < groups@.len() implies group_words(groups@)[j] == two_sided(
                num_pairs as nat,
                left + right,
                kept,
                unpaired,
            )[j] by {
                if j < split_idx {
                    assert(groups@[j] == merged[j]);
                    assert(before[j] == left);
                    if j < num_pairs {
                        assert(before[split_idx + j] == right);
                    }
                } else {
                    assert(groups@[j] == merged[j + num_pairs]);
                    assert(before[j + num_pairs] == right);
                }
            }
            assert(group_words(groups@) =~= two_sided(num_pairs as nat, left + right, kept, unpaired));
            left = left + right;
            right = unpaired;
        }
        split_idx = num_pairs;
    }

    let pattern: Vec<bool> = join_groups(&groups);
    proof {
        lemma_two_sided_joined(split_idx as nat, left, (groups@.len() - split_idx) as nat, right);
    }
    pattern
}

} // verus!

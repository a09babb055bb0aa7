use euclidean_rhythm::bjorklund::bjorklund;
use euclidean_rhythm::rotation::{normalized_shift, rotate_left_by};
use euclidean_rhythm::{distribute, euclidean, pattern_to_string, rotate_pattern, PatternError};

fn pulses_in(pattern: &[bool]) -> usize {
    pattern.iter().filter(|&&step| step).count()
}

#[test]
fn no_steps_is_invalid() {
    assert_eq!(distribute(0, 0, 0), Err(PatternError::InvalidInput));
    assert_eq!(distribute(0, 0, 7), Err(PatternError::InvalidInput));
    assert_eq!(distribute(0, 1, 0), Err(PatternError::InvalidInput));
}

#[test]
fn more_pulses_than_steps_is_invalid() {
    assert_eq!(distribute(8, 9, 0), Err(PatternError::InvalidInput));
    assert_eq!(distribute(1, 2, 0), Err(PatternError::InvalidInput));
    assert_eq!(distribute(254, 255, 3), Err(PatternError::InvalidInput));
}

#[test]
fn distribute_agrees_with_euclidean_on_valid_input() {
    for steps in 1..=24u8 {
        for pulses in 0..=steps {
            for rotation in [0u8, 1, 5, 200] {
                assert_eq!(
                    distribute(steps, pulses, rotation),
                    Ok(euclidean(steps, pulses, rotation))
                );
            }
        }
    }
}

#[test]
fn distribute_tresillo() {
    assert_eq!(
        distribute(8, 3, 0),
        Ok(vec![true, false, false, true, false, false, true, false])
    );
}

#[test]
fn full_range_of_steps() {
    let pattern = euclidean(255, 100, 0);
    assert_eq!(pattern.len(), 255);
    assert_eq!(pulses_in(&pattern), 100);
    assert_eq!(euclidean(255, 255, 9), vec![true; 255]);
    assert_eq!(euclidean(255, 0, 9), vec![false; 255]);
    assert_eq!(euclidean(1, 0, 0), vec![false]);
    assert_eq!(euclidean(1, 1, 0), vec![true]);
}

#[test]
fn pulse_count_holds_under_every_rotation() {
    for steps in 1..=20u8 {
        for pulses in 0..=steps {
            for rotation in 0..=40u8 {
                let pattern = euclidean(steps, pulses, rotation);
                assert_eq!(pattern.len(), steps as usize);
                assert_eq!(pulses_in(&pattern), pulses as usize);
            }
        }
    }
}

#[test]
fn degenerate_cases_ignore_rotation() {
    for rotation in [0u8, 1, 3, 8, 13, 255] {
        assert_eq!(euclidean(8, 0, rotation), vec![false; 8]);
        assert_eq!(euclidean(8, 8, rotation), vec![true; 8]);
    }
}

#[test]
fn single_pulse_leads_the_rests() {
    for steps in 2..=40u8 {
        let mut expected = vec![false; steps as usize];
        expected[0] = true;
        assert_eq!(euclidean(steps, 1, 0), expected);
    }
    assert_eq!(euclidean(2, 1, 0), vec![true, false]);
    assert_eq!(euclidean(2, 1, 1), vec![false, true]);
}

#[test]
fn rotation_wraps_around_the_steps() {
    for steps in 1..=16u8 {
        for pulses in 0..=steps {
            for rotation in 0..=255u8 {
                assert_eq!(
                    euclidean(steps, pulses, rotation),
                    euclidean(steps, pulses, rotation % steps)
                );
            }
        }
    }
}

#[test]
fn rotation_parameter_is_a_left_rotation() {
    let base = euclidean(8, 3, 0);
    assert_eq!(euclidean(8, 3, 10), rotate_pattern(&base, 2));
    for rotation in 0..=30u8 {
        assert_eq!(
            euclidean(12, 5, rotation),
            rotate_pattern(&euclidean(12, 5, 0), rotation as i32)
        );
    }
}

#[test]
fn rotation_round_trip() {
    let patterns = [
        vec![],
        vec![true],
        vec![true, false],
        vec![true, false, false, true, true],
        euclidean(16, 7, 3),
    ];
    for pattern in patterns.iter() {
        for amount in [0, 1, -1, 2, 5, -7, 16, 17, 1000, -1000, i32::MAX, -i32::MAX] {
            let there = rotate_pattern(pattern, amount);
            assert_eq!(&rotate_pattern(&there, -amount), pattern);
        }
    }
}

#[test]
fn rotation_by_zero_is_identity() {
    let pattern = vec![false, true, true, false, true];
    assert_eq!(rotate_pattern(&pattern, 0), pattern);
    let empty: Vec<bool> = Vec::new();
    for amount in [0, 1, -1, 12, i32::MIN, i32::MAX] {
        assert_eq!(rotate_pattern(&empty, amount), empty);
    }
}

#[test]
fn rotation_of_any_sequence() {
    let pattern = vec![true, true, false, false, false];
    assert_eq!(rotate_pattern(&pattern, 2), vec![false, false, false, true, true]);
    assert_eq!(rotate_pattern(&pattern, -2), vec![false, false, true, true, false]);
    assert_eq!(rotate_pattern(&pattern, 7), vec![false, false, false, true, true]);
    assert_eq!(rotate_pattern(&pattern, -5), pattern);
    assert_eq!(rotate_pattern(&pattern, 5), pattern);
}

#[test]
fn rotation_by_extreme_amounts() {
    let pattern = vec![true, false, false];
    // i32::MAX = 3 * 715827882 + 1
    assert_eq!(rotate_pattern(&pattern, i32::MAX), vec![false, false, true]);
    // i32::MIN = 3 * (-715827883) + 1
    assert_eq!(rotate_pattern(&pattern, i32::MIN), vec![false, false, true]);
}

#[test]
fn normalized_shift_lands_in_range() {
    assert_eq!(normalized_shift(0, 4), 0);
    assert_eq!(normalized_shift(1, 4), 1);
    assert_eq!(normalized_shift(5, 4), 1);
    assert_eq!(normalized_shift(-1, 4), 3);
    assert_eq!(normalized_shift(-4, 4), 0);
    assert_eq!(normalized_shift(-5, 4), 3);
    assert_eq!(normalized_shift(i32::MAX, 3), 1);
    assert_eq!(normalized_shift(i32::MIN, 3), 1);
    assert_eq!(normalized_shift(-7, 1), 0);
    assert_eq!(normalized_shift(-1, usize::MAX), usize::MAX - 1);
}

#[test]
fn rotate_left_by_whole_and_none() {
    let pattern = vec![true, false, false, true];
    assert_eq!(rotate_left_by(&pattern, 0), pattern);
    assert_eq!(rotate_left_by(&pattern, 4), pattern);
    assert_eq!(rotate_left_by(&pattern, 1), vec![false, false, true, true]);
    assert_eq!(rotate_left_by(&pattern, 3), vec![true, true, false, false]);
}

#[test]
fn bjorklund_pairs_groups() {
    assert_eq!(bjorklund(2, 1), vec![true, false]);
    assert_eq!(bjorklund(3, 2), vec![true, true, false]);
    assert_eq!(bjorklund(5, 2), vec![true, false, true, false, false]);
    assert_eq!(bjorklund(5, 3), vec![true, false, true, false, true]);
    assert_eq!(bjorklund(6, 2), vec![true, false, false, true, false, false]);
    assert_eq!(
        bjorklund(7, 3),
        vec![true, false, true, false, true, false, false]
    );
    assert_eq!(
        bjorklund(9, 4),
        vec![true, false, true, false, true, false, true, false, false]
    );
    assert_eq!(
        bjorklund(13, 5),
        vec![
            true, false, false, true, false, true, false, false, true, false, true, false, false
        ]
    );
}

#[test]
fn rendering_keeps_order_and_length() {
    let pattern = vec![true, true, false, true];
    assert_eq!(pattern_to_string(&pattern, 'x', '.'), "xx.x");
    assert_eq!(pattern_to_string(&pattern, '.', 'x'), "..x.");
    assert_eq!(pattern_to_string(&pattern, 'a', 'a'), "aaaa");
    assert_eq!(pattern_to_string(&[], 'x', '.'), "");
}

#[test]
fn rendering_takes_any_character() {
    let pattern = euclidean(8, 5, 0);
    let text = pattern_to_string(&pattern, '\u{2588}', '\u{2591}');
    assert_eq!(text.chars().count(), 8);
    assert_eq!(
        text,
        "\u{2588}\u{2591}\u{2588}\u{2588}\u{2591}\u{2588}\u{2588}\u{2591}"
    );
}

#[test]
fn pulses_are_evenly_spaced() {
    for steps in 1..=48u8 {
        for pulses in 1..=steps {
            for rotation in [0u8, 1, 7] {
                let pattern = euclidean(steps, pulses, rotation);
                let n = steps as usize;
                let k = pulses as usize;
                let short = n / k;
                let long = (n + k - 1) / k;
                for i in 0..n {
                    if pattern[i] {
                        for d in 1..short {
                            assert!(!pattern[(i + d) % n]);
                        }
                    }
                    assert!((0..long).any(|d| pattern[(i + d) % n]));
                }
            }
        }
    }
}

#[test]
fn unrotated_pattern_starts_with_a_pulse() {
    for steps in 1..=64u8 {
        for pulses in 1..=steps {
            assert!(euclidean(steps, pulses, 0)[0]);
        }
    }
}

#[test]
fn every_run_of_steps_holds_its_share_of_pulses() {
    for steps in 1..=40u8 {
        for pulses in 0..=steps {
            for rotation in [0u8, 3] {
                let pattern = euclidean(steps, pulses, rotation);
                let n = steps as usize;
                let k = pulses as usize;
                for from in 0..n {
                    let mut held = 0;
                    for len in 1..=(2 * n) {
                        if pattern[(from + len - 1) % n] {
                            held += 1;
                        }
                        assert!((len * k) / n <= held);
                        assert!(held <= (len * k + n - 1) / n);
                    }
                }
            }
        }
    }
}

#[test]
fn share_of_pulses_for_a_known_rhythm() {
    // 8 steps, 3 pulses: any 3 steps in a row hold 9 / 8 pulses, so 1 or 2.
    let pattern = euclidean(8, 3, 0);
    let held: Vec<usize> = (0..8)
        .map(|from| (0..3).filter(|d| pattern[(from + d) % 8]).count())
        .collect();
    assert_eq!(held, vec![1, 1, 1, 1, 1, 1, 2, 1]);
}

#[test]
fn rhythm_arises_from_a_smaller_one() {
    for steps in 4..=40u8 {
        for pulses in 1..steps {
            let rests = steps - pulses;
            if rests < 2 {
                continue;
            }
            let mut expected = Vec::new();
            if pulses <= rests {
                for step in euclidean(rests, pulses, 0) {
                    expected.push(step);
                    if step {
                        expected.push(false);
                    }
                }
            } else {
                for step in euclidean(pulses, rests, 0) {
                    expected.push(true);
                    if step {
                        expected.push(false);
                    }
                }
            }
            assert_eq!(euclidean(steps, pulses, 0), expected);
        }
    }
}

use euclidean_rhythm::{euclidean, pattern_to_string, rotate_pattern};

#[test]
fn tresillo() {
    let pattern = euclidean(8, 3, 0);
    assert_eq!(
        pattern,
        vec![true, false, false, true, false, false, true, false]
    );
}

#[test]
fn west_african_bell() {
    let pattern = euclidean(8, 5, 0);
    assert_eq!(
        pattern,
        vec![true, false, true, true, false, true, true, false]
    );
}

#[test]
fn persian() {
    let pattern = euclidean(12, 5, 0);
    assert_eq!(
        pattern,
        vec![
            true, false, false, true, false, true, false, false, true, false, true, false
        ]
    );
}

#[test]
fn bossa_nova() {
    let pattern = euclidean(16, 7, 0);
    assert_eq!(
        pattern,
        vec![
            true, false, false, true, false, true, false, true, false, false, true, false,
            true, false, true, false
        ]
    );
}

#[test]
fn all_pulses() {
    let pattern = euclidean(8, 8, 0);
    assert_eq!(pattern, vec![true; 8]);
}

#[test]
fn all_rests() {
    let pattern = euclidean(8, 0, 0);
    assert_eq!(pattern, vec![false; 8]);
}

#[test]
fn single_pulse() {
    let pattern = euclidean(8, 1, 0);
    assert_eq!(
        pattern,
        vec![true, false, false, false, false, false, false, false]
    );
}

#[test]
fn rotation_wraps() {
    let pattern = euclidean(8, 3, 10); // 10 % 8 == 2
    assert_eq!(
        pattern,
        vec![false, true, false, false, true, false, true, false]
    );
}

#[test]
fn large_steps() {
    let pattern = euclidean(64, 5, 0);
    assert_eq!(pattern.len(), 64);
    assert_eq!(pattern.iter().filter(|&&x| x).count(), 5);
}

#[test]
fn pattern_length_always_matches_steps() {
    for steps in 1..=32 {
        for pulses in 0..=steps {
            let pattern = euclidean(steps, pulses, 0);
            assert_eq!(
                pattern.len(),
                steps as usize,
                "E({},{}) length mismatch",
                pulses,
                steps
            );
        }
    }
}

#[test]
fn pulse_count_always_matches() {
    for steps in 1..=32 {
        for pulses in 0..=steps {
            let pattern = euclidean(steps, pulses, 0);
            let actual_pulses = pattern.iter().filter(|&&x| x).count();
            assert_eq!(
                actual_pulses, pulses as usize,
                "E({},{}) pulse count mismatch",
                pulses, steps
            );
        }
    }
}

#[test]
fn rotation_by_one() {
    let original = euclidean(8, 3, 0);
    let rotated = euclidean(8, 3, 1);
    assert_eq!(rotated[0], original[1]);
    assert_eq!(rotated[7], original[0]);
}

#[test]
fn pattern_to_string_works() {
    let pattern = euclidean(8, 3, 0);
    assert_eq!(pattern_to_string(&pattern, 'x', '.'), "x..x..x.");
    assert_eq!(pattern_to_string(&pattern, '1', '0'), "10010010");
}

#[test]
fn rotate_pattern_works() {
    let pattern = vec![true, false, false, true];

    // Rotate left by 1
    let rotated = rotate_pattern(&pattern, 1);
    assert_eq!(rotated, vec![false, false, true, true]);

    // Rotate right by 1 (negative rotation)
    let rotated = rotate_pattern(&pattern, -1);
    assert_eq!(rotated, vec![true, true, false, false]);

    // Rotation wraps around
    let rotated = rotate_pattern(&pattern, 5); // 5 % 4 = 1
    assert_eq!(rotated, vec![false, false, true, true]);

    // Zero rotation returns same pattern
    let rotated = rotate_pattern(&pattern, 0);
    assert_eq!(rotated, pattern);

    // Empty pattern
    let empty: Vec<bool> = vec![];
    assert_eq!(rotate_pattern(&empty, 1), empty);
}

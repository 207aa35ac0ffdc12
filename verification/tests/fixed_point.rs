use maze_rl::fixed::{blend, scale, HALF, MAX_STEPS, ONE, STEP_PENALTY};

#[test]
fn scale_constants() {
    assert_eq!(ONE, 100_000);
    assert_eq!(HALF, 50_000);
    assert_eq!(STEP_PENALTY, -100_000);
    assert_eq!(MAX_STEPS, 4_294_967_295);
}

#[test]
fn scale_by_one_and_by_zero() {
    for x in [0i64, 1, -1, 99_999, -100_000, 123_456_789, i64::MAX, i64::MIN] {
        assert_eq!(scale(ONE, x), x);
        assert_eq!(scale(0, x), 0);
    }
}

#[test]
fn scale_rounds_to_nearest() {
    assert_eq!(scale(90_000, -100_000), -90_000);
    assert_eq!(scale(33_333, 300_000), 99_999);
    assert_eq!(scale(49_999, 1), 0);
    assert_eq!(scale(50_001, 1), 1);
    assert_eq!(scale(25_000, 6), 2);
    assert_eq!(scale(25_000, 5), 1);
    assert_eq!(scale(25_000, -5), -1);
}

#[test]
fn scale_rounds_halves_away_from_zero() {
    assert_eq!(scale(50_000, 1), 1);
    assert_eq!(scale(50_000, -1), -1);
    assert_eq!(scale(50_000, 3), 2);
    assert_eq!(scale(50_000, -3), -2);
}

#[test]
fn blend_moves_by_the_rate() {
    assert_eq!(blend(0, -100_000, 50_000), -50_000);
    assert_eq!(blend(-250_000, -100_000, 50_000), -175_000);
    assert_eq!(blend(-100_000, -300_000, 10_000), -120_000);
    assert_eq!(blend(-100_000, -100_000, 70_000), -100_000);
}

#[test]
fn blend_at_the_ends_of_the_rate() {
    for (value, target) in [(0i64, -500_000i64), (-7, 12), (i64::MIN, i64::MAX), (i64::MAX, i64::MIN)] {
        assert_eq!(blend(value, target, 0), value);
        assert_eq!(blend(value, target, ONE), target);
    }
}

#[test]
fn blend_spans_the_whole_range() {
    assert_eq!(blend(i64::MAX, i64::MIN, 50_000), -1);
    assert_eq!(blend(i64::MIN, i64::MAX, 50_000), 0);
}

use rsplot::label::{dec_pos, format_bound, round, sig_digits, try_round, UNIT};

#[test]
fn unit_range_keeps_one_digit() {
    assert_eq!(sig_digits(0, UNIT), 1);
    assert_eq!(round(0, UNIT), ("0.".to_string(), "1.".to_string()));
    assert_eq!(sig_digits(3 * UNIT, 4 * UNIT), 1);
    assert_eq!(round(3 * UNIT, 4 * UNIT), ("3.".to_string(), "4.".to_string()));
}

#[test]
fn labels_repeat_on_same_limits() {
    let first = round(-5 * UNIT, 7 * UNIT / 2);
    let second = round(-5 * UNIT, 7 * UNIT / 2);
    assert_eq!(first, second);
}

#[test]
fn zero_range_keeps_one_digit() {
    assert_eq!(sig_digits(0, 0), 1);
    assert_eq!(sig_digits(5 * UNIT, 5 * UNIT), 1);
    assert_eq!(round(0, 0), ("0.".to_string(), "0.".to_string()));
    assert_eq!(round(5 * UNIT, 5 * UNIT), ("5.".to_string(), "5.".to_string()));
}

#[test]
fn digit_count_grows_with_halvings_and_doublings() {
    assert_eq!(sig_digits(0, 2 * UNIT), 2);
    assert_eq!(sig_digits(0, 5 * UNIT), 4);
    assert_eq!(sig_digits(0, 50 * UNIT), 7);
    assert_eq!(sig_digits(0, 100 * UNIT), 8);
    assert_eq!(sig_digits(0, UNIT / 2), 2);
    assert_eq!(sig_digits(0, UNIT / 4), 3);
    assert_eq!(sig_digits(0, 1), 21);
    assert_eq!(sig_digits(UNIT, 0), 1);
}

#[test]
fn decimal_position_by_hundreds() {
    assert_eq!(dec_pos(0), 1);
    assert_eq!(dec_pos(UNIT / 2), 1);
    assert_eq!(dec_pos(UNIT), 1);
    assert_eq!(dec_pos(99 * UNIT), 1);
    assert_eq!(dec_pos(100 * UNIT), 2);
    assert_eq!(dec_pos(-100 * UNIT), 2);
    assert_eq!(dec_pos(10_000 * UNIT), 3);
    assert_eq!(dec_pos(i64::MIN), 7);
}

#[test]
fn negative_bounds_keep_their_sign() {
    assert_eq!(round(-UNIT, 0), ("-1.".to_string(), "0.".to_string()));
    assert_eq!(round(-5 * UNIT, 0), ("-5.000".to_string(), "0.000".to_string()));
}

#[test]
fn half_range_labels() {
    assert_eq!(round(0, UNIT / 2), ("0.0".to_string(), "5.0".to_string()));
}

#[test]
fn halves_round_away_from_zero() {
    assert_eq!(format_bound(5_000, 2), Some("1.0".to_string()));
    assert_eq!(format_bound(-5_000, 2), Some("-1.".to_string()));
    assert_eq!(format_bound(4_999, 2), Some("0.0".to_string()));
}

#[test]
fn large_scaled_values_keep_their_digits() {
    assert_eq!(round(0, 50 * UNIT), ("0.000000".to_string(), "5.000000".to_string()));
    assert_eq!(round(0, 100 * UNIT), ("0.0000000".to_string(), "10.000000".to_string()));
    assert_eq!(round(-100 * UNIT, 0), ("-10.000000".to_string(), "0.0000000".to_string()));
    assert_eq!(
        round(0, 1),
        ("0.00000000000000000000".to_string(), "1.00000000000000000000".to_string())
    );
    assert_eq!(
        round(i64::MIN, 0),
        (
            "-9223372.03685477580800000000000000000000000000".to_string(),
            "0.00000000000000000000000000000000000000000000".to_string()
        )
    );
}

#[test]
fn point_past_the_digits_is_refused() {
    assert_eq!(format_bound(1_000_000 * UNIT, 1), None);
    assert_eq!(try_round(1_000_000 * UNIT, 1_000_000 * UNIT + UNIT), None);
    assert_eq!(
        try_round(0, UNIT),
        Some(("0.".to_string(), "1.".to_string()))
    );
}

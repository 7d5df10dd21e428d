use heesab::rounding::div_round_half_up;
use heesab::rounding::mul_div_round_half_up;

#[test]
fn test_to_two_decimals_rounds_up() {
    // 123.5210983901 cents rounds up to 124 cents.
    let num: i64 = 1235210983901;
    let den: usize = 10000000000;
    assert_eq!(div_round_half_up(num, den), 124);
}

#[test]
fn test_to_two_decimals_rounds_down() {
    // 123.45210983901 cents rounds down to 123 cents.
    let num: i64 = 12345210983901;
    let den: usize = 100000000000;
    assert_eq!(div_round_half_up(num, den), 123);
}

#[test]
fn test_half_rounds_up() {
    // 2.5 cents rounds half up to 3 cents.
    assert_eq!(div_round_half_up(10, 4), 3);
    // 0.5 cents rounds half up to 1 cent.
    assert_eq!(div_round_half_up(1, 2), 1);
}

#[test]
fn test_proportional_share_rounding() {
    // 220 * 275 / 1275 = 47.45... rounds to 47.
    assert_eq!(mul_div_round_half_up(220, 275, 1275), 47);
    // 220 * 1000 / 1275 = 172.54... rounds to 173.
    assert_eq!(mul_div_round_half_up(220, 1000, 1275), 173);
    // 345 * 275 / 1275 = 74.41... rounds to 74.
    assert_eq!(mul_div_round_half_up(345, 275, 1275), 74);
    // 345 * 1000 / 1275 = 270.58... rounds to 271.
    assert_eq!(mul_div_round_half_up(345, 1000, 1275), 271);
}

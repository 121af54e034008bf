use spsa_report::num::{fmt_dec, parse_dec};
use spsa_report::record::UciOption;
use spsa_report::render::render;
use spsa_report::score::{score, ScoredPair};

const UNIT: i64 = 1_000_000_000;

const GREY: &str = "\u{001b}[38;5;243m";
const GREEN: &str = "\u{001b}[32m";
const RED: &str = "\u{001b}[31m";
const RESET: &str = "\u{001b}[0m";

fn rec(name: &str, value: i64, min: Option<i64>, max: Option<i64>) -> UciOption {
    UciOption { name: name.into(), value, min, max, step: None }
}

fn pair_of(before: UciOption, after: UciOption, index: usize) -> ScoredPair {
    let frac = score(&before, &after);
    ScoredPair { before, after, frac, index }
}

#[test]
fn parses_whole_and_fractional_numerals() {
    assert_eq!(parse_dec("6.0"), Some(6 * UNIT));
    assert_eq!(parse_dec("73"), Some(73 * UNIT));
    assert_eq!(parse_dec("0.002"), Some(2_000_000));
    assert_eq!(parse_dec("-2500.0"), Some(-2500 * UNIT));
    assert_eq!(parse_dec("+3"), Some(3 * UNIT));
    assert_eq!(parse_dec(".5"), Some(500_000_000));
    assert_eq!(parse_dec("5."), Some(5 * UNIT));
}

#[test]
fn rejects_what_is_not_a_plain_numeral() {
    assert_eq!(parse_dec(""), None);
    assert_eq!(parse_dec("."), None);
    assert_eq!(parse_dec("-"), None);
    assert_eq!(parse_dec("abc"), None);
    assert_eq!(parse_dec("1.2.3"), None);
    assert_eq!(parse_dec("1 2"), None);
    // More than nine fraction digits cannot be held exactly.
    assert_eq!(parse_dec("0.0000000001"), None);
    // Beyond the representable magnitude.
    assert_eq!(parse_dec("99999999999999999999"), None);
}

#[test]
fn formats_numbers_as_displayed() {
    assert_eq!(fmt_dec(6 * UNIT), "6");
    assert_eq!(fmt_dec(5 * UNIT), "5");
    assert_eq!(fmt_dec(0), "0");
    assert_eq!(fmt_dec(2_000_000), "0.002");
    assert_eq!(fmt_dec(-2500 * UNIT), "-2500");
    assert_eq!(fmt_dec(UNIT + 500_000_000), "1.5");
    assert_eq!(fmt_dec(-10_500_000), "-0.0105");
    assert_eq!(fmt_dec(parse_dec("73.0").unwrap()), "73");
}

#[test]
fn header_and_separator_are_fixed() {
    let lines = render(&vec![]);
    assert_eq!(lines.len(), 3);
    assert_eq!(lines[0], "");
    assert_eq!(lines[1], format!("OPTION NAME {} CHANGE", " ".repeat(25)));
    assert_eq!(lines[2], "-".repeat(50));
}

#[test]
fn unchanged_value_renders_grey() {
    let p = pair_of(
        rec("RFP_MARGIN", 73 * UNIT, Some(40 * UNIT), Some(200 * UNIT)),
        rec("RFP_MARGIN", 73 * UNIT, None, None),
        0,
    );
    let lines = render(&vec![p]);
    // name (10) + two digits + no sign: 24 alignment dots; after-value width
    // 2 leaves 3 trailing dots.
    let expected = format!(
        "RFP_MARGIN {} 73 -> {GREY}73{RESET} {}",
        ".".repeat(24),
        ".".repeat(3)
    );
    assert_eq!(lines[3], expected);
}

#[test]
fn rising_value_renders_green_and_falling_red() {
    let up = pair_of(
        rec("UP", 6 * UNIT, Some(UNIT), Some(50 * UNIT)),
        rec("UP", 7 * UNIT, None, None),
        0,
    );
    let down = pair_of(
        rec("DOWN", 6 * UNIT, Some(UNIT), Some(50 * UNIT)),
        rec("DOWN", 5 * UNIT, None, None),
        1,
    );
    let lines = render(&vec![up, down]);
    assert_eq!(
        lines[3],
        format!("UP {} 6 -> {GREEN}7{RESET} {}", ".".repeat(33), ".".repeat(4))
    );
    assert_eq!(
        lines[4],
        format!("DOWN {} 6 -> {RED}5{RESET} {}", ".".repeat(31), ".".repeat(4))
    );
}

#[test]
fn negative_values_render_sign_and_narrow_the_padding() {
    let p = pair_of(
        rec("HISTORY_PRUNING_MARGIN", -2500 * UNIT, Some(-5000 * UNIT), Some(1000 * UNIT)),
        rec("HISTORY_PRUNING_MARGIN", -2474 * UNIT, None, None),
        0,
    );
    let lines = render(&vec![p]);
    // name (22) + four digits + sign leaves 9 dots; after width 5 leaves none.
    let expected = format!(
        "HISTORY_PRUNING_MARGIN {} -2500 -> {GREEN}-2474{RESET} ",
        ".".repeat(9)
    );
    assert_eq!(lines[3], expected);
}

use spsa_report::record::{parse_from_input, Error, IOSort, UciOption};

const EXAMPLE_INPUT: &str = r"ASPIRATION_WINDOW, int, 6.0, 1.0, 50.0, 3.0, 0.002
RFP_MARGIN, int, 73.0, 40.0, 200.0, 10.0, 0.002
RFP_IMPROVING_MARGIN, int, 58.0, 30.0, 150.0, 10.0, 0.002
DO_DEEPER_DEPTH_MARGIN, int, 11.0, 1.0, 50.0, 2.0, 0.002
HISTORY_PRUNING_DEPTH, int, 7.0, 2.0, 14.0, 1.0, 0.002
HISTORY_PRUNING_MARGIN, int, -2500.0, -5000.0, 1000.0, 500.0, 0.002";

const EXAMPLE_OUTPUT: &str = r"ASPIRATION_WINDOW, 5
RFP_MARGIN, 73
RFP_IMPROVING_MARGIN, 58
DO_DEEPER_DEPTH_MARGIN, 11
HISTORY_PRUNING_DEPTH, 7
HISTORY_PRUNING_MARGIN, -2474";

// One whole unit, in billionths.
const UNIT: i64 = 1_000_000_000;

fn rec(name: &str, value: i64, min: Option<i64>, max: Option<i64>, step: Option<i64>) -> UciOption {
    UciOption { name: name.into(), value, min, max, step }
}

#[test]
fn example_works() {
    let options = parse_from_input(EXAMPLE_INPUT, IOSort::Input).unwrap();

    assert_eq!(
        options,
        vec![
            rec(
                "ASPIRATION_WINDOW",
                6 * UNIT,
                Some(UNIT),
                Some(50 * UNIT),
                Some(3 * UNIT),
            ),
            rec(
                "RFP_MARGIN",
                73 * UNIT,
                Some(40 * UNIT),
                Some(200 * UNIT),
                Some(10 * UNIT),
            ),
            rec(
                "RFP_IMPROVING_MARGIN",
                58 * UNIT,
                Some(30 * UNIT),
                Some(150 * UNIT),
                Some(10 * UNIT),
            ),
            rec(
                "DO_DEEPER_DEPTH_MARGIN",
                11 * UNIT,
                Some(UNIT),
                Some(50 * UNIT),
                Some(2 * UNIT),
            ),
            rec(
                "HISTORY_PRUNING_DEPTH",
                7 * UNIT,
                Some(2 * UNIT),
                Some(14 * UNIT),
                Some(UNIT),
            ),
            rec(
                "HISTORY_PRUNING_MARGIN",
                -2500 * UNIT,
                Some(-5000 * UNIT),
                Some(1000 * UNIT),
                Some(500 * UNIT),
            ),
        ]
    );

    let options = parse_from_input(EXAMPLE_OUTPUT, IOSort::Output).unwrap();

    assert_eq!(
        options,
        vec![
            rec("ASPIRATION_WINDOW", 5 * UNIT, None, None, None),
            rec("RFP_MARGIN", 73 * UNIT, None, None, None),
            rec("RFP_IMPROVING_MARGIN", 58 * UNIT, None, None, None),
            rec("DO_DEEPER_DEPTH_MARGIN", 11 * UNIT, None, None, None),
            rec("HISTORY_PRUNING_DEPTH", 7 * UNIT, None, None, None),
            rec("HISTORY_PRUNING_MARGIN", -2474 * UNIT, None, None, None),
        ]
    );
}

#[test]
fn round_trip_shape_of_both_grammars() {
    let before = parse_from_input(
        "ASPIRATION_WINDOW, int, 6.0, 1.0, 50.0, 3.0, 0.002\n\
         RFP_MARGIN, int, 73.0, 40.0, 200.0, 10.0, 0.002",
        IOSort::Input,
    )
    .unwrap();
    assert_eq!(
        before,
        vec![
            rec(
                "ASPIRATION_WINDOW",
                6 * UNIT,
                Some(UNIT),
                Some(50 * UNIT),
                Some(3 * UNIT),
            ),
            rec(
                "RFP_MARGIN",
                73 * UNIT,
                Some(40 * UNIT),
                Some(200 * UNIT),
                Some(10 * UNIT),
            ),
        ]
    );
    let after = parse_from_input("ASPIRATION_WINDOW, 5\nRFP_MARGIN, 73", IOSort::Output).unwrap();
    assert_eq!(
        after,
        vec![
            rec("ASPIRATION_WINDOW", 5 * UNIT, None, None, None),
            rec("RFP_MARGIN", 73 * UNIT, None, None, None),
        ]
    );
}

#[test]
fn one_record_per_line_in_order() {
    let options = parse_from_input("B, 2\nA, 1\nC, 3", IOSort::Output).unwrap();
    let names: Vec<&str> = options.iter().map(|o| o.name.as_str()).collect();
    assert_eq!(names, vec!["B", "A", "C"]);
    assert_eq!(options[0].value, 2 * UNIT);
    assert_eq!(options[1].value, UNIT);
    assert_eq!(options[2].value, 3 * UNIT);
}

#[test]
fn trailing_newline_adds_no_record() {
    let options = parse_from_input("A, 1\nB, 2\n", IOSort::Output).unwrap();
    assert_eq!(options.len(), 2);
}

#[test]
fn carriage_returns_are_stripped() {
    let options = parse_from_input("A, 1\r\nB, 2", IOSort::Output).unwrap();
    assert_eq!(options[0].name, "A");
    assert_eq!(options[0].value, UNIT);
    assert_eq!(options[1].value, 2 * UNIT);
}

#[test]
fn empty_name_field_is_reported() {
    let err = parse_from_input(", int, 5.0", IOSort::Input).unwrap_err();
    assert_eq!(err, Error::MissingName { line: 0, text: ", int, 5.0".into() });
}

#[test]
fn missing_value_field_is_reported_with_line() {
    let err = parse_from_input("A, int, 1.0\nB, int", IOSort::Input).unwrap_err();
    assert_eq!(err, Error::MissingValue { line: 1, text: "B, int".into() });
}

#[test]
fn unparsable_value_is_reported() {
    let err = parse_from_input("A, int, abc, 1.0", IOSort::Input).unwrap_err();
    assert_eq!(err, Error::InvalidNumber { line: 0, text: "A, int, abc, 1.0".into() });
}

#[test]
fn output_mode_reads_second_field() {
    let options = parse_from_input("A, 4.5", IOSort::Output).unwrap();
    assert_eq!(options[0].value, 4 * UNIT + 500_000_000);
    assert_eq!(options[0].min, None);
}

#[test]
fn output_mode_never_populates_bounds() {
    let options = parse_from_input("A, 4, 1.0, 9.0, 2.0", IOSort::Output).unwrap();
    assert_eq!(options[0].min, None);
    assert_eq!(options[0].max, None);
    assert_eq!(options[0].step, None);
}

#[test]
fn bad_optional_fields_are_silently_absent() {
    let options = parse_from_input("A, int, 5.0, oops, 7.0", IOSort::Input).unwrap();
    assert_eq!(options[0].min, None);
    assert_eq!(options[0].max, Some(7 * UNIT));
    assert_eq!(options[0].step, None);
}

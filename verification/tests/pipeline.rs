use spsa_report::page::{extract_blocks, page_is_complete};
use spsa_report::record::{Error, Missing};
use spsa_report::report::report_lines;

fn page(input_block: &str, output_block: &str) -> String {
    format!(
        "<html><body><pre id=\"spsa-input\">{input_block}</pre>\
         <pre id=\"spsa-output\">{output_block}</pre></body></html>"
    )
}

#[test]
fn body_without_closing_tag_fails_before_parsing() {
    // The blocks themselves are malformed too, but the missing closing tag
    // must be reported first.
    let text = "<body><pre id=\"spsa-input\">not, a, block<";
    assert!(!page_is_complete(text));
    assert_eq!(
        report_lines(text).unwrap_err(),
        Error::MalformedPage { missing: Missing::HtmlClose }
    );
}

#[test]
fn each_missing_marker_is_named() {
    assert_eq!(
        extract_blocks("</html>").unwrap_err(),
        Error::MalformedPage { missing: Missing::InputMarker }
    );
    assert_eq!(
        extract_blocks("</html>spsa-input").unwrap_err(),
        Error::MalformedPage { missing: Missing::InputTagEnd }
    );
    assert_eq!(
        extract_blocks("</html>spsa-input>A, 1").unwrap_err(),
        Error::MalformedPage { missing: Missing::InputTextEnd }
    );
    assert_eq!(
        extract_blocks("</html>spsa-input>A, 1<").unwrap_err(),
        Error::MalformedPage { missing: Missing::OutputMarker }
    );
    assert_eq!(
        extract_blocks("</html>spsa-input>A, 1<spsa-output").unwrap_err(),
        Error::MalformedPage { missing: Missing::OutputTagEnd }
    );
    assert_eq!(
        extract_blocks("</html>spsa-input>A, 1<spsa-output>A, 1").unwrap_err(),
        Error::MalformedPage { missing: Missing::OutputTextEnd }
    );
}

#[test]
fn blocks_are_the_text_between_tag_and_next_tag() {
    let text = page("A, int, 6.0, 1.0, 50.0", "A, 5");
    let (input, output) = extract_blocks(&text).unwrap();
    assert_eq!(input, "A, int, 6.0, 1.0, 50.0");
    assert_eq!(output, "A, 5");
}

#[test]
fn report_ranks_and_renders_whole_page() {
    let text = page(
        "ASPIRATION_WINDOW, int, 6.0, 1.0, 50.0, 3.0, 0.002\n\
         RFP_MARGIN, int, 73.0, 40.0, 200.0, 10.0, 0.002\n\
         HISTORY_PRUNING_MARGIN, int, -2500.0, -5000.0, 1000.0, 500.0, 0.002",
        "ASPIRATION_WINDOW, 5\nRFP_MARGIN, 73\nHISTORY_PRUNING_MARGIN, -2474",
    );
    let lines = report_lines(&text).unwrap();
    assert_eq!(lines.len(), 6);
    assert_eq!(lines[0], "");
    assert!(lines[1].starts_with("OPTION NAME"));
    assert!(lines[2].starts_with("-----"));
    // |change|: ASPIRATION_WINDOW 1/49, HISTORY_PRUNING_MARGIN 26/6000,
    // RFP_MARGIN 0 -- ranked in that order.
    assert!(lines[3].starts_with("ASPIRATION_WINDOW "));
    assert!(lines[4].starts_with("HISTORY_PRUNING_MARGIN "));
    assert!(lines[5].starts_with("RFP_MARGIN "));
}

#[test]
fn report_surfaces_the_first_bad_line() {
    let text = page("A, int, 6.0\nB, int, oops", "A, 5\nB, 6");
    assert_eq!(
        report_lines(&text).unwrap_err(),
        Error::InvalidNumber { line: 1, text: "B, int, oops".into() }
    );
}

#[test]
fn report_rejects_mismatched_blocks() {
    // Same names, different order: positional pairing must fail, not drop.
    let text = page("A, int, 6.0\nB, int, 7.0", "B, 6\nA, 7");
    assert_eq!(report_lines(&text).unwrap_err(), Error::PairingMismatch);
    let text = page("A, int, 6.0\nB, int, 7.0", "A, 6");
    assert_eq!(report_lines(&text).unwrap_err(), Error::PairingMismatch);
}

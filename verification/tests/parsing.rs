use perftree::engine::QueryError;
use perftree::num::{column_width, dec_string, parse_u128};
use perftree::script::{parse_script_output, query_args};
use perftree::text::{join_spaced, trim};
use perftree::uci::{is_blank_line, parse_engine_response, query_request};

fn lines(ls: &[&str]) -> Vec<String> {
    ls.iter().map(|l| l.to_string()).collect()
}

#[test]
fn script_output_parses_rows_blank_and_total() {
    let out = lines(&["e2e4 20", "e2e3 19", "", "400"]);
    let p = parse_script_output(&out).unwrap();
    assert_eq!(p.total_count(), 400);
    let rows = p.child_count();
    assert_eq!(rows.len(), 2);
    assert_eq!(rows[0], ("e2e3".to_string(), 19));
    assert_eq!(rows[1], ("e2e4".to_string(), 20));
}

#[test]
fn script_output_ignores_lines_after_the_total() {
    let out = lines(&["a7a6 3", "", "3", "noise", "more noise"]);
    let p = parse_script_output(&out).unwrap();
    assert_eq!(p.total_count(), 3);
    assert_eq!(p.child_count().len(), 1);
}

#[test]
fn script_output_without_blank_separator_is_a_protocol_failure() {
    let out = lines(&["e2e4 20", "e2e3 19"]);
    let r = parse_script_output(&out);
    assert!(matches!(r, Err(QueryError::Protocol(_))));
}

#[test]
fn script_output_without_total_line_is_a_protocol_failure() {
    let out = lines(&["e2e4 20", ""]);
    let r = parse_script_output(&out);
    assert!(matches!(r, Err(QueryError::Protocol(_))));
}

#[test]
fn script_row_missing_its_count_is_a_protocol_failure() {
    let out = lines(&["e2e4", "", "20"]);
    let r = parse_script_output(&out);
    assert!(matches!(r, Err(QueryError::Protocol(_))));
}

#[test]
fn script_row_with_unreadable_count_is_a_protocol_failure() {
    let out = lines(&["e2e4 twenty", "", "20"]);
    let r = parse_script_output(&out);
    assert!(matches!(r, Err(QueryError::Protocol(_))));
}

#[test]
fn script_total_that_is_no_number_is_a_protocol_failure() {
    let out = lines(&["e2e4 20", "", "four hundred"]);
    let r = parse_script_output(&out);
    assert!(matches!(r, Err(QueryError::Protocol(_))));
}

#[test]
fn engine_response_parses_rows_and_the_labelled_total() {
    let rows = lines(&["e2e4: 20", "e2e3: 19"]);
    let p = parse_engine_response(&rows, "Nodes searched: 39").unwrap();
    assert_eq!(p.total_count(), 39);
    let table = p.child_count();
    assert_eq!(table.len(), 2);
    assert_eq!(table[0], ("e2e3".to_string(), 19));
    assert_eq!(table[1], ("e2e4".to_string(), 20));
}

#[test]
fn engine_response_rows_may_carry_surrounding_whitespace() {
    let rows = lines(&["  e2e4: 20\r", "\te2e3: 19  "]);
    let p = parse_engine_response(&rows, "  Nodes searched: 39  ").unwrap();
    assert_eq!(p.total_count(), 39);
    assert_eq!(p.child_count().len(), 2);
}

#[test]
fn engine_row_without_separator_is_a_protocol_failure() {
    let rows = lines(&["e2e4 20"]);
    let r = parse_engine_response(&rows, "Nodes searched: 20");
    assert!(matches!(r, Err(QueryError::Protocol(_))));
}

#[test]
fn engine_total_without_separator_is_a_protocol_failure() {
    let rows = lines(&["e2e4: 20"]);
    let r = parse_engine_response(&rows, "39");
    assert!(matches!(r, Err(QueryError::Protocol(_))));
}

#[test]
fn engine_total_takes_the_second_colon_separated_field() {
    let rows: Vec<String> = Vec::new();
    let p = parse_engine_response(&rows, "a: 5: c").unwrap();
    assert_eq!(p.total_count(), 5);
}

#[test]
fn blank_lines_are_blank_even_with_whitespace() {
    assert!(is_blank_line(""));
    assert!(is_blank_line("   \t\r"));
    assert!(!is_blank_line(" e2e4"));
}

#[test]
fn trimming_strips_both_ends_only() {
    assert_eq!(trim("  a b \r\n"), "a b");
    assert_eq!(trim(""), "");
    assert_eq!(trim(" \t "), "");
}

#[test]
fn query_args_carry_depth_fen_and_joined_path() {
    let moves = vec!["e2e4".to_string(), "e7e5".to_string()];
    let args = query_args("FEN", &moves, 3);
    assert_eq!(args, ["3".to_string(), "FEN".to_string(), "e2e4 e7e5".to_string()]);
    let bare = query_args("FEN", &Vec::new(), 2);
    assert_eq!(bare, ["2".to_string(), "FEN".to_string()]);
}

#[test]
fn query_request_frames_three_directives() {
    let moves = vec!["e2e4".to_string(), "e7e5".to_string()];
    let r = query_request(false, "FEN", &moves, 1);
    assert_eq!(
        r,
        "setoption name UCI_Chess960 value false\nposition fen FEN moves e2e4 e7e5\ngo perft 1\n"
    );
    let plain = query_request(true, "FEN", &Vec::new(), 2);
    assert_eq!(
        plain,
        "setoption name UCI_Chess960 value true\nposition fen FEN\ngo perft 2\n"
    );
}

#[test]
fn join_spaced_puts_single_spaces_between_items() {
    assert_eq!(join_spaced(&Vec::new()), "");
    assert_eq!(join_spaced(&vec!["a".to_string()]), "a");
    assert_eq!(join_spaced(&vec!["a".to_string(), "b".to_string()]), "a b");
}

#[test]
fn decimal_parsing_is_exact_and_bounded() {
    assert_eq!(parse_u128("0"), Some(0));
    assert_eq!(parse_u128("400"), Some(400));
    assert_eq!(parse_u128("007"), Some(7));
    assert_eq!(parse_u128(""), None);
    assert_eq!(parse_u128("+4"), None);
    assert_eq!(parse_u128("4 0"), None);
    // the largest storable count, and the first too large
    assert_eq!(
        parse_u128("340282366920938463463374607431768211455"),
        Some(u128::MAX)
    );
    assert_eq!(parse_u128("340282366920938463463374607431768211456"), None);
}

#[test]
fn decimal_rendering_round_trips() {
    assert_eq!(dec_string(0), "0");
    assert_eq!(dec_string(7), "7");
    assert_eq!(dec_string(12345), "12345");
    assert_eq!(dec_string(u64::MAX), "18446744073709551615");
}

#[test]
fn column_width_is_the_least_covering_power_of_ten() {
    assert_eq!(column_width(0), 0);
    assert_eq!(column_width(1), 0);
    assert_eq!(column_width(2), 1);
    assert_eq!(column_width(10), 1);
    assert_eq!(column_width(11), 2);
    assert_eq!(column_width(100), 2);
    assert_eq!(column_width(101), 3);
    assert_eq!(column_width(u128::MAX), 39);
}

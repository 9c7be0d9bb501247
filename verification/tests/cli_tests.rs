use nbv::cli::parse_cells_spec;

#[test]
fn parse_cells_spec_single() {
    assert_eq!(parse_cells_spec("5").unwrap(), (5, 5));
    assert_eq!(parse_cells_spec("1").unwrap(), (1, 1));
}

#[test]
fn parse_cells_spec_range() {
    assert_eq!(parse_cells_spec("3-7").unwrap(), (3, 7));
    assert_eq!(parse_cells_spec("1-1").unwrap(), (1, 1));
}

#[test]
fn parse_cells_spec_rejects_zero() {
    assert!(parse_cells_spec("0").is_err());
    assert!(parse_cells_spec("0-5").is_err());
    assert!(parse_cells_spec("5-0").is_err());
}

#[test]
fn parse_cells_spec_rejects_reverse() {
    let e = parse_cells_spec("7-3").unwrap_err();
    assert!(e.contains("7-3") || e.contains("reverse") || e.contains("start"));
}

#[test]
fn parse_cells_spec_rejects_open_and_empty() {
    assert!(parse_cells_spec("").is_err());
    assert!(parse_cells_spec("-5").is_err());
    assert!(parse_cells_spec("3-").is_err());
}

#[test]
fn parse_cells_spec_rejects_non_numeric() {
    assert!(parse_cells_spec("abc").is_err());
    assert!(parse_cells_spec("3-7-9").is_err());
    assert!(parse_cells_spec("3,5").is_err());
}

#[test]
fn parse_cells_spec_error_messages_quote_input() {
    assert_eq!(parse_cells_spec("").unwrap_err(), "empty --cells value");
    assert_eq!(
        parse_cells_spec("x").unwrap_err(),
        "invalid --cells value 'x' (expected N or N-M, 1-based)"
    );
    assert_eq!(
        parse_cells_spec("9-2").unwrap_err(),
        "invalid --cells value '9-2' (start > end)"
    );
}

#[test]
fn parse_cells_spec_accepts_plus_sign_like_from_str() {
    assert_eq!(parse_cells_spec("+4").unwrap(), (4, 4));
    assert_eq!(parse_cells_spec("2-+4").unwrap(), (2, 4));
}

#[test]
fn parse_cells_spec_single_cell_law_on_concrete_values() {
    for n in [1usize, 9, 10, 12345] {
        assert_eq!(parse_cells_spec(&n.to_string()).unwrap(), (n, n));
    }
    assert_eq!(parse_cells_spec("10-100").unwrap(), (10, 100));
}

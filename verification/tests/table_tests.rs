use nbv::env::{ImageBackend, RenderCtx};
use nbv::render::sink::BoxedSink;
use nbv::render::table::{fit_columns, pad_cell, rendered_width, render, truncate_cell, Align, Table};
use unicode_width::UnicodeWidthStr;

fn ctx(width: usize) -> RenderCtx {
    RenderCtx {
        is_tty: true,
        use_color: false,
        width,
        image_backend: ImageBackend::Placeholder,
        code_theme: "base16-ocean.dark".into(),
    }
}

fn rendered(t: &Table, c: &RenderCtx) -> String {
    let mut sink = BoxedSink::new(String::new());
    render(t, c, &mut sink);
    sink.into_string()
}

#[test]
fn new_pads_short_rows_and_truncates_long_rows() {
    let t = Table::new(
        vec!["a".into(), "b".into()],
        vec![vec!["1".into()], vec!["1".into(), "2".into(), "3".into()]],
        vec![Align::Left, Align::Left],
    );
    assert_eq!(t.rows[0], vec!["1".to_string(), String::new()]);
    assert_eq!(t.rows[1], vec!["1".to_string(), "2".to_string()]);
}

#[test]
fn new_pads_short_align_with_left() {
    let t = Table::new(vec!["a".into(), "b".into(), "c".into()], vec![], vec![Align::Right]);
    assert_eq!(t.align, vec![Align::Right, Align::Left, Align::Left]);
}

#[test]
fn truncate_cell_leaves_short_strings_untouched() {
    assert_eq!(truncate_cell("abc", 5), "abc");
}

#[test]
fn truncate_cell_cuts_with_ellipsis() {
    assert_eq!(truncate_cell("abcdef", 4), "abc…");
}

#[test]
fn truncate_cell_is_width_aware_for_cjk() {
    assert_eq!(truncate_cell("가나다라", 5), "가나…");
}

#[test]
fn pad_cell_left_right_center() {
    assert_eq!(pad_cell("ab", 5, Align::Left), "ab   ");
    assert_eq!(pad_cell("ab", 5, Align::Right), "   ab");
    assert_eq!(pad_cell("ab", 5, Align::Center), " ab  ");
}

#[test]
fn pad_cell_spans_chunk_boundary() {
    let out = pad_cell("x", 70, Align::Left);
    assert_eq!(UnicodeWidthStr::width(out.as_str()), 70);
    assert_eq!(out, format!("x{}", " ".repeat(69)));
    assert_eq!(pad_cell("x", 70, Align::Right), format!("{}x", " ".repeat(69)));
    assert_eq!(pad_cell("x", 70, Align::Center), format!("{}x{}", " ".repeat(34), " ".repeat(35)));
}

#[test]
fn fit_keeps_natural_widths_when_table_fits() {
    let t = Table::new(
        vec!["name".into(), "age".into()],
        vec![vec!["Alice".into(), "30".into()]],
        vec![Align::Left, Align::Left],
    );
    let fit = fit_columns(&t, 80);
    assert_eq!(fit.widths, vec![5, 3]);
    assert_eq!(fit.dropped, 0);
}

#[test]
fn fit_shrinks_wide_columns_to_budget() {
    let wide = "x".repeat(60);
    let t = Table::new(
        vec!["a".into(), "b".into()],
        vec![vec![wide.clone(), wide]],
        vec![Align::Left, Align::Left],
    );
    let fit = fit_columns(&t, 30);
    assert_eq!(fit.dropped, 0);
    assert!(rendered_width(&fit.widths) <= 30, "widths {:?}", fit.widths);
}

#[test]
fn fit_drops_columns_when_budget_too_small() {
    let t = Table::new(
        vec!["a".into(), "b".into(), "c".into(), "d".into()],
        vec![vec!["1".into(), "2".into(), "3".into(), "4".into()]],
        vec![Align::Left; 4],
    );
    let fit = fit_columns(&t, 16);
    assert!(fit.dropped > 0, "expected some columns dropped");
    assert_eq!(fit.widths.len() + fit.dropped, 4);
    let indicator_w = format!("+{}", fit.dropped).len() + 3;
    assert!(
        rendered_width(&fit.widths) + indicator_w <= 16,
        "kept+indicator must fit: {:?} + {} > 16",
        fit.widths,
        indicator_w
    );
}

#[test]
fn render_draws_grid_with_headers_and_rows() {
    let t = Table::new(
        vec!["name".into(), "age".into()],
        vec![vec!["Alice".into(), "30".into()], vec!["Bob".into(), "25".into()]],
        vec![Align::Left, Align::Right],
    );
    let s = rendered(&t, &ctx(40));
    assert!(s.contains('┌') && s.contains('┬') && s.contains('┐'));
    assert!(s.contains('├') && s.contains('┼') && s.contains('┤'));
    assert!(s.contains('└') && s.contains('┴') && s.contains('┘'));
    assert!(s.contains("name") && s.contains("age"));
    assert!(s.contains("Alice") && s.contains("Bob"));
    for line in s.lines() {
        assert_eq!(line.chars().count(), 40, "line not full width: {line:?}");
    }
}

#[test]
fn render_header_only_table_emits_no_body_rows() {
    let t = Table::new(vec!["a".into(), "b".into()], vec![], vec![Align::Left; 2]);
    let s = rendered(&t, &ctx(30));
    assert_eq!(s.lines().count(), 4);
}

#[test]
fn render_exact_small_table() {
    let t = Table::new(vec!["h".into()], vec![vec!["v".into()]], vec![Align::Left]);
    let s = rendered(&t, &ctx(9));
    assert_eq!(
        s,
        "│ ┌───┐ │\n│ │ h │ │\n│ ├───┤ │\n│ │ v │ │\n│ └───┘ │\n"
    );
}

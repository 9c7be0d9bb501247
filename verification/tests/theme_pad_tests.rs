use nbv::render::pad::{push_spaces, write_spaces};
use nbv::theme::{colorize_code_header, colorize_error_header, colorize_markdown_header, colorize_output_header, dim};

#[test]
fn write_spaces_emits_exact_count_for_boundary_values() {
    for n in [0usize, 1, 31, 32, 33, 100] {
        let mut buf = Vec::new();
        write_spaces(&mut buf, n);
        assert_eq!(buf.len(), n, "write_spaces({}) wrote {} bytes", n, buf.len());
        assert!(buf.iter().all(|&b| b == b' '), "write_spaces({}) emitted non-space bytes: {:?}", n, buf);
    }
}

#[test]
fn push_spaces_emits_exact_count_for_boundary_values() {
    for n in [0usize, 1, 31, 32, 33, 100] {
        let mut s = String::new();
        push_spaces(&mut s, n);
        assert_eq!(s.len(), n);
        assert!(s.chars().all(|c| c == ' '));
    }
}

#[test]
fn code_header_has_cyan_fg() {
    let s = colorize_code_header("In [1] code (python)", true);
    assert!(s.contains("\x1b["));
    assert!(s.ends_with("\x1b[0m"));
}

#[test]
fn code_header_no_color_returns_plain() {
    let s = colorize_code_header("In [1] code (python)", false);
    assert_eq!(s, "In [1] code (python)");
}

#[test]
fn dim_text_wraps_when_color() {
    assert!(dim("hi", true).contains("\x1b["));
    assert_eq!(dim("hi", false), "hi");
}

#[test]
fn header_colors_are_exact() {
    assert_eq!(colorize_code_header("x", true), "\x1b[1m\x1b[36mx\x1b[0m");
    assert_eq!(colorize_output_header("x", true), "\x1b[1m\x1b[32mx\x1b[0m");
    assert_eq!(colorize_error_header("x", true), "\x1b[1m\x1b[31mx\x1b[0m");
    assert_eq!(colorize_markdown_header("x", true), "\x1b[1m\x1b[34mx\x1b[0m");
    assert_eq!(dim("x", true), "\x1b[2mx\x1b[0m");
}

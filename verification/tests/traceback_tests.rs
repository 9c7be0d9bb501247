use nbv::env::{ImageBackend, RenderCtx};
use nbv::render::traceback::{render, strip_ansi, strip_ansi_pub};

fn ctx(use_color: bool) -> RenderCtx {
    RenderCtx {
        is_tty: true,
        use_color,
        width: 60,
        image_backend: ImageBackend::Placeholder,
        code_theme: "base16-ocean.dark".into(),
    }
}

fn rendered(tb: &Vec<String>, c: &RenderCtx) -> String {
    let mut s = String::new();
    render(tb, c, &mut s);
    s
}

#[test]
fn renders_each_traceback_line() {
    let tb: Vec<String> = vec!["ValueError: bad".into(), "  at line 1".into()];
    let s = rendered(&tb, &ctx(true));
    assert!(s.contains("ValueError"));
    assert!(s.contains("at line 1"));
}

#[test]
fn preserves_existing_ansi_escapes_when_color() {
    let tb: Vec<String> = vec!["\x1b[31mred text\x1b[0m".into()];
    let s = rendered(&tb, &ctx(true));
    assert!(s.contains("\x1b[31m"));
}

#[test]
fn strips_ansi_escapes_when_no_color() {
    let tb: Vec<String> = vec!["\x1b[31mred text\x1b[0m".into()];
    let s = rendered(&tb, &ctx(false));
    assert!(!s.contains("\x1b["));
    assert!(s.contains("red text"));
}

#[test]
fn handles_lines_with_embedded_newlines() {
    let tb: Vec<String> = vec!["line1\nline2".into()];
    let s = rendered(&tb, &ctx(false));
    assert!(s.contains("line1"));
    assert!(s.contains("line2"));
    assert!(s.matches('\n').count() >= 2);
}

#[test]
fn strips_csi_m() {
    assert_eq!(strip_ansi("\x1b[31mhi\x1b[0m"), "hi");
}

#[test]
fn passes_through_plain() {
    assert_eq!(strip_ansi("abc"), "abc");
}

#[test]
fn strips_osc_terminated_by_bel() {
    assert_eq!(strip_ansi("before\x1b]0;title\x07after"), "beforeafter");
}

#[test]
fn strips_osc_terminated_by_st() {
    assert_eq!(strip_ansi("\x1b]0;t\x1b\\x"), "x");
}

#[test]
fn strips_bare_escape() {
    assert_eq!(strip_ansi("a\x1bb"), "ab");
}

#[test]
fn stripping_twice_equals_stripping_once() {
    for s in ["\x1b[31mhi", "a\x1b]x\x07b", "\x1b\x1b[[m", "plain", "\x1b[1;2"] {
        let once = strip_ansi_pub(s);
        assert_eq!(strip_ansi_pub(&once), once);
        assert!(!once.contains('\x1b'));
    }
}

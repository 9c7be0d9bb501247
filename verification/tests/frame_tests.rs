use nbv::env::{ImageBackend, RenderCtx};
use nbv::render::frame::{ansi_width, bare_line, close, open, wrap_line};
use nbv::theme;
use unicode_width::UnicodeWidthStr;

fn ctx(width: usize) -> RenderCtx {
    RenderCtx {
        is_tty: true,
        use_color: false,
        width,
        image_backend: ImageBackend::Placeholder,
        code_theme: "base16-ocean.dark".into(),
    }
}

fn color_ctx(width: usize) -> RenderCtx {
    RenderCtx { use_color: true, ..ctx(width) }
}

#[test]
fn open_writes_full_width_top_border() {
    let mut s = String::new();
    open("In [1] code", &ctx(30), &mut s);
    let line = s.trim_end_matches('\n');
    assert_eq!(line.chars().count(), 30);
    assert!(line.starts_with("┌─"));
    assert!(line.contains("In [1] code"));
    assert!(line.ends_with("┐"));
}

#[test]
fn close_writes_full_width_bottom_border() {
    let mut s = String::new();
    close(&ctx(30), &mut s);
    let line = s.trim_end_matches('\n');
    assert_eq!(line.chars().count(), 30);
    assert!(line.starts_with("└"));
    assert!(line.ends_with("┘"));
}

#[test]
fn wrap_line_pads_to_width() {
    let mut s = String::new();
    wrap_line("hello", &ctx(30), &mut s);
    let line = s.trim_end_matches('\n');
    assert_eq!(line.chars().count(), 30);
    assert!(line.starts_with("│ hello"));
    assert!(line.ends_with(" │"));
}

#[test]
fn wrap_line_truncates_long_content() {
    let mut s = String::new();
    wrap_line(&"x".repeat(100), &ctx(20), &mut s);
    let line = s.trim_end_matches('\n');
    assert_eq!(line.chars().count(), 20);
}

#[test]
fn wrap_line_handles_cjk_wide_chars() {
    let mut s = String::new();
    wrap_line("가나다", &ctx(20), &mut s);
    let line = s.trim_end_matches('\n');
    assert_eq!(line.width(), 20);
}

#[test]
fn open_with_colored_label_still_fills_full_width() {
    let mut s = String::new();
    let label = theme::colorize_code_header("In [1] code (python)", true);
    open(&label, &color_ctx(30), &mut s);
    let line = s.trim_end_matches('\n');
    let visible = ansi_width(line);
    assert_eq!(visible, 30, "visible width should equal ctx.width, got {visible}");
}

#[test]
fn wrap_line_with_colored_content_keeps_visible_width() {
    let mut s = String::new();
    let content = format!("{}red{}", theme::FG_RED, theme::RESET);
    wrap_line(&content, &color_ctx(30), &mut s);
    let line = s.trim_end_matches('\n');
    let visible = ansi_width(line);
    assert_eq!(visible, 30, "visible width should equal ctx.width, got {visible}");
}

#[test]
fn wrap_line_truncates_colored_content_at_visible_width() {
    let mut s = String::new();
    let content = format!("{}abcdefghijklmnop", theme::FG_RED);
    wrap_line(&content, &color_ctx(12), &mut s);
    assert!(s.contains("\x1b[0m"), "RESET should be injected after truncated colored content");
    let line = s.trim_end_matches('\n');
    assert_eq!(ansi_width(line), 12);
}

#[test]
fn wrap_line_expands_tab_to_next_8col_stop() {
    let mut s = String::new();
    wrap_line("hello\tworld", &ctx(40), &mut s);
    assert!(!s.contains('\t'), "tab must be expanded; got {:?}", s);
    let line = s.trim_end_matches('\n');
    assert_eq!(line.chars().count(), 40);
    assert!(line.contains("hello   world"));
}

#[test]
fn wrap_line_tab_aligned_correctly_after_long_content() {
    let mut s = String::new();
    wrap_line("123456789\tnext", &ctx(60), &mut s);
    assert!(s.contains("123456789       next"), "tab to col 16, got {:?}", s);
}

#[test]
fn wrap_line_drops_carriage_return() {
    let mut s = String::new();
    wrap_line("hello\r", &ctx(30), &mut s);
    assert!(!s.contains('\r'), "output must not contain CR; got {:?}", s);
    let line = s.trim_end_matches('\n');
    assert_eq!(line.chars().count(), 30);
    assert!(line.starts_with("│ hello"));
    assert!(line.ends_with(" │"));
}

#[test]
fn wrap_line_handles_long_syntect_like_escapes_without_phantom_width() {
    let mut s = String::new();
    let content = "\x1b[38;2;192;197;206mx\x1b[0m \x1b[38;2;192;197;206m=\x1b[0m \x1b[38;2;192;197;206m1\x1b[0m";
    wrap_line(content, &color_ctx(30), &mut s);
    let line = s.trim_end_matches('\n');
    assert_eq!(ansi_width(line), 30);
    assert!(s.contains("x"));
    assert!(s.contains("="));
    assert!(s.contains("1"));
}

#[test]
fn bare_line_writes_content_without_borders() {
    let mut s = String::new();
    bare_line("hello", &ctx(30), &mut s);
    let line = s.trim_end_matches('\n');
    assert!(!line.contains('│'), "bare_line must not emit │ borders");
    assert!(line.starts_with("hello"));
}

#[test]
fn bare_line_truncates_to_ctx_width() {
    let mut s = String::new();
    bare_line(&"x".repeat(100), &ctx(20), &mut s);
    let line = s.trim_end_matches('\n');
    assert_eq!(ansi_width(line), 20);
}

#[test]
fn bare_line_drops_carriage_return() {
    let mut s = String::new();
    bare_line("hello\r", &ctx(30), &mut s);
    assert!(!s.contains('\r'));
}

#[test]
fn bare_line_expands_tab_to_next_8col_stop() {
    let mut s = String::new();
    bare_line("hello\tworld", &ctx(40), &mut s);
    assert!(!s.contains('\t'));
    assert!(s.contains("hello   world"));
}

#[test]
fn bare_line_preserves_ansi_and_visible_width() {
    let content = format!("{}red{}", theme::FG_RED, theme::RESET);
    let mut s = String::new();
    bare_line(&content, &color_ctx(30), &mut s);
    assert!(s.contains("red"));
    let line = s.trim_end_matches('\n');
    assert!(ansi_width(line) <= 30);
}

#[test]
fn every_framed_line_is_exactly_the_context_width() {
    for content in ["", "a", "tab\there", "가나다라마바사아자차카타파하", "\x1b[31mred\x1b[0m"] {
        for w in [4usize, 10, 33] {
            let mut s = String::new();
            wrap_line(content, &color_ctx(w), &mut s);
            assert_eq!(ansi_width(s.trim_end_matches('\n')), w, "content {content:?} width {w}");
        }
    }
}

use nbv::env::{ImageBackend, RenderCtx};
use nbv::render::frame::{bare_line, wrap_line};
use nbv::render::sink::{BareSink, BoxedSink, LineSink};
use nbv::render::text::{lines_with_endings, render};

fn ctx(width: usize) -> RenderCtx {
    RenderCtx {
        is_tty: true,
        use_color: false,
        width,
        image_backend: ImageBackend::Placeholder,
        code_theme: "base16-ocean.dark".into(),
    }
}

fn text(t: &str) -> String {
    let mut s = String::new();
    render(t, &ctx(30), &mut s);
    s
}

#[test]
fn renders_single_line_in_box_line() {
    let s = text("hello");
    assert!(s.contains("hello"));
    assert!(s.starts_with("│ "));
}

#[test]
fn renders_multiline_as_multiple_box_lines() {
    let s = text("a\nb\nc");
    assert_eq!(s.matches('\n').count(), 3);
}

#[test]
fn trailing_newline_does_not_create_empty_line() {
    let s = text("a\n");
    assert_eq!(s.matches('\n').count(), 1);
}

#[test]
fn empty_text_still_gets_one_line() {
    let mut b = String::new();
    wrap_line("", &ctx(30), &mut b);
    assert_eq!(text(""), b);
    assert_eq!(text("").matches('\n').count(), 1);
}

#[test]
fn trailing_newline_law_on_concrete_values() {
    for t in ["a", "a\nb", "x\r", "first\n\nthird"] {
        assert_eq!(text(t), text(&format!("{t}\n")));
    }
}

#[test]
fn lines_with_endings_keep_their_newlines() {
    assert_eq!(lines_with_endings("a\nb\n"), vec!["a\n", "b\n"]);
    assert_eq!(lines_with_endings("a\n\nb"), vec!["a\n", "\n", "b"]);
    assert!(lines_with_endings("").is_empty());
}

#[test]
fn boxed_text_line_matches_wrap_line() {
    let mut sink = BoxedSink::new(String::new());
    sink.text_line("hello", &ctx(60));
    let mut b = String::new();
    wrap_line("hello", &ctx(60), &mut b);
    assert_eq!(sink.into_string(), b);
}

#[test]
fn boxed_raw_line_matches_wrap_line() {
    let mut sink = BoxedSink::new(String::new());
    sink.raw_line("│ inner │", &ctx(60));
    let mut b = String::new();
    wrap_line("│ inner │", &ctx(60), &mut b);
    assert_eq!(sink.into_string(), b);
}

#[test]
fn bare_sink_lines_match_bare_line() {
    let mut sink = BareSink::new(String::from("start\n"));
    sink.text_line("prose", &ctx(20));
    sink.raw_line("raw", &ctx(20));
    let mut b = String::from("start\n");
    bare_line("prose", &ctx(20), &mut b);
    bare_line("raw", &ctx(20), &mut b);
    assert_eq!(sink.into_string(), b);
}

#[test]
fn bare_sink_wraps_prose_at_word_boundaries() {
    let mut sink = BareSink::new(String::new());
    sink.text_line("the quick brown fox jumps", &ctx(10));
    assert_eq!(sink.into_string(), "the quick\nbrown fox\njumps\n");
}

#[test]
fn bare_sink_breaks_long_words_and_keeps_raw_lines() {
    let mut sink = BareSink::new(String::new());
    sink.text_line("abcdefghijkl xy", &ctx(5));
    sink.raw_line("0123456789", &ctx(5));
    assert_eq!(sink.into_string(), "abcde\nfghij\nkl xy\n01234\n");
}

#[test]
fn bare_sink_wraps_styled_prose_by_visible_width() {
    let mut sink = BareSink::new(String::new());
    sink.text_line("\x1b[1mbold\x1b[0m text here", &ctx(9));
    assert_eq!(sink.into_string(), "\x1b[1mbold\x1b[0m text\x1b[0m\nhere\n");
}

use nbv::env::{ImageBackend, RenderCtx};
use nbv::render::code::{render as render_code, sanitize_invisible_fg, Highlighting, Rgba, Span};
use nbv::render::document::{is_markdown_path, render_document, strip_frontmatter};
use nbv::render::markdown::{align_of, leaf_of, md_events, render as render_md, render_events, start_of, AlignRead, LeafRead, MdEvent, StartRead};
use nbv::render::sink::BoxedSink;
use nbv::render::table::Align;

fn ctx_w(use_color: bool, width: usize) -> RenderCtx {
    RenderCtx {
        is_tty: true,
        use_color,
        width,
        image_backend: ImageBackend::Placeholder,
        code_theme: "base16-ocean.dark".into(),
    }
}

fn code(src: &str, lang: &str, c: &RenderCtx) -> String {
    let hl = Highlighting::load();
    let mut sink = BoxedSink::new(String::new());
    render_code(src, lang, c, &hl, &mut sink);
    sink.into_string()
}

fn md(src: &str, c: &RenderCtx) -> String {
    let hl = Highlighting::load();
    let mut sink = BoxedSink::new(String::new());
    render_md(src, c, &hl, &mut sink);
    sink.into_string()
}

#[test]
fn renders_python_code_with_color() {
    let s = code("x = 1", "python", &ctx_w(true, 200));
    assert!(s.contains("x"));
    assert!(s.contains("="));
    assert!(s.contains("1"));
    assert!(s.contains("\x1b["));
}

#[test]
fn renders_code_without_color_strips_ansi() {
    let s = code("x = 1", "python", &ctx_w(false, 60));
    assert!(!s.contains("\x1b["));
    assert!(s.contains("x"));
}

#[test]
fn unknown_language_falls_back_to_plain() {
    let s = code("hello", "klingon-script", &ctx_w(false, 60));
    assert!(s.contains("hello"));
}

#[test]
fn each_line_emitted_as_box_line() {
    let s = code("a = 1\nb = 2", "python", &ctx_w(false, 60));
    assert!(s.contains("a"));
    assert!(s.contains("b"));
    assert!(s.matches("│ ").count() >= 2);
}

#[test]
fn code_without_color_shows_source_lines_verbatim() {
    let c = ctx_w(false, 40);
    let s = code("def f(x):\n    return x * 2\n", "python", &c);
    let mut want = String::new();
    nbv::render::frame::wrap_line("def f(x):", &c, &mut want);
    nbv::render::frame::wrap_line("    return x * 2", &c, &mut want);
    assert_eq!(s, want);
}

#[test]
fn sanitize_replaces_only_background_colored_foregrounds() {
    let bg = Rgba { r: 43, g: 48, b: 59, a: 255 };
    let fg = Rgba { r: 192, g: 197, b: 206, a: 255 };
    let dflt = Rgba { r: 220, g: 220, b: 220, a: 255 };
    let spans = vec![
        Span { fg: Rgba { r: 43, g: 48, b: 59, a: 10 }, bg, text: "./artifacts".into() },
        Span { fg, bg, text: "x".into() },
    ];
    let safe = sanitize_invisible_fg(spans, Some(bg), dflt);
    assert!(safe[0].fg == dflt);
    assert!(safe[1].fg == fg);
    assert_eq!(safe[0].text, "./artifacts");
    let spans = vec![Span { fg: bg, bg, text: "y".into() }];
    let kept = sanitize_invisible_fg(spans, None, dflt);
    assert!(kept[0].fg == bg);
}

#[test]
fn bundled_themes_include_the_default() {
    let hl = Highlighting::load();
    assert!(hl.has_theme("base16-ocean.dark"));
    assert!(hl.has_theme("InspiredGitHub"));
    assert!(!hl.has_theme("no-such-theme"));
    let names = hl.theme_names();
    let mut sorted = names.clone();
    sorted.sort();
    assert_eq!(names, sorted);
}

#[test]
fn heading_gets_hash_prefix() {
    let s = md("# Hello", &ctx_w(false, 60));
    assert!(s.contains("# Hello"));
}

#[test]
fn h2_gets_two_hashes() {
    let s = md("## Hello", &ctx_w(false, 60));
    assert!(s.contains("## Hello"));
}

#[test]
fn unordered_list_has_bullet() {
    let s = md("- one\n- two", &ctx_w(false, 60));
    assert!(s.contains("• one") || s.contains("- one"));
    assert!(s.contains("two"));
}

#[test]
fn ordered_list_has_numbers() {
    let s = md("1. one\n2. two", &ctx_w(false, 60));
    assert!(s.contains("1.") || s.contains("1)"));
    assert!(s.contains("two"));
}

#[test]
fn inline_code_preserved() {
    let s = md("use `foo()` here", &ctx_w(false, 60));
    assert!(s.contains("foo()"));
}

#[test]
fn fenced_code_block_handed_to_syntect() {
    let s = md("```python\nx = 1\n```", &ctx_w(true, 200));
    assert!(s.contains("x") && s.contains("="));
}

#[test]
fn blockquote_has_prefix() {
    let s = md("> quoted", &ctx_w(false, 60));
    assert!(s.contains("> quoted") || s.contains("│ > quoted"));
}

#[test]
fn bold_uses_ansi_when_color() {
    let s = md("**bold**", &ctx_w(true, 60));
    assert!(s.contains("\x1b[1m") || s.contains("bold"));
}

#[test]
fn gfm_table_renders_as_box() {
    let s = md("| Name | Age |\n|:-----|----:|\n| Alice | 30 |\n| Bob | 25 |", &ctx_w(false, 60));
    assert!(s.contains('┌') && s.contains('┬') && s.contains('┐'), "{s}");
    assert!(s.contains('├') && s.contains('┼') && s.contains('┤'), "{s}");
    assert!(s.contains("Name") && s.contains("Age"));
    assert!(s.contains("Alice") && s.contains("Bob"));
    assert!(s.contains("30") && s.contains("25"));
}

#[test]
fn gfm_table_ragged_row_does_not_panic() {
    let s = md("| A | B |\n|---|---|\n| x |", &ctx_w(false, 60));
    assert!(s.contains("x"));
}

#[test]
fn markdown_events_are_read_from_pulldown() {
    let evs = md_events("# T\n\n| a |\n|--:|\n| 1 |\n");
    assert!(matches!(evs[0], MdEvent::StartHeading(1)));
    assert!(evs.iter().any(|e| matches!(e, MdEvent::StartTable(a) if a == &vec![Align::Right])));
    assert!(evs.iter().any(|e| matches!(e, MdEvent::Text(t) if t == "T")));
}

#[test]
fn event_machine_exact_output() {
    let c = ctx_w(false, 20);
    let hl = Highlighting::load();
    let evs = vec![
        MdEvent::StartQuote,
        MdEvent::StartParagraph,
        MdEvent::Text("hi".into()),
        MdEvent::EndParagraph,
        MdEvent::EndQuote,
        MdEvent::StartList(Some(7)),
        MdEvent::StartItem,
        MdEvent::Text("a".into()),
        MdEvent::EndItem,
        MdEvent::StartItem,
        MdEvent::Text("b".into()),
        MdEvent::EndItem,
        MdEvent::EndList,
        MdEvent::Rule,
        MdEvent::Text("   ".into()),
        MdEvent::Break,
    ];
    let mut sink = BoxedSink::new(String::new());
    render_events(evs, &c, &hl, &mut sink);
    let mut want = String::new();
    for l in ["> hi", "7. a", "8. b"] {
        nbv::render::frame::wrap_line(l, &c, &mut want);
    }
    nbv::render::frame::wrap_line(&"─".repeat(16), &c, &mut want);
    assert_eq!(sink.into_string(), want);
}

#[test]
fn strips_leading_frontmatter() {
    let s = "---\ntitle: x\ndate: y\n---\n# Body\n";
    assert_eq!(strip_frontmatter(s), "# Body\n");
}

#[test]
fn strips_with_dotdotdot_close() {
    let s = "---\ntitle: x\n...\nBody\n";
    assert_eq!(strip_frontmatter(s), "Body\n");
}

#[test]
fn leaves_mid_document_rule() {
    let s = "# Title\n\n---\n\nMore\n";
    assert_eq!(strip_frontmatter(s), s);
}

#[test]
fn leaves_unterminated_block() {
    let s = "---\ntitle: x\n# no close\n";
    assert_eq!(strip_frontmatter(s), s);
}

#[test]
fn frontmatter_with_crlf_is_stripped() {
    assert_eq!(strip_frontmatter("---\r\na: b\r\n---\r\nrest"), "rest");
    assert_eq!(strip_frontmatter(""), "");
}

#[test]
fn render_document_emits_no_box_borders() {
    let c = ctx_w(false, 40);
    let hl = Highlighting::load();
    let mut s = String::new();
    render_document("# Hi\n\nSome **bold** text.\n", &c, &hl, &mut s);
    assert!(!s.contains('│'));
    assert!(!s.contains('┌'));
    assert!(s.contains("# Hi"));
    assert!(s.contains("bold"));
}

#[test]
fn markdown_paths_by_extension() {
    assert!(is_markdown_path("notes.md"));
    assert!(is_markdown_path("/tmp/nbv_sample.MD"));
    assert!(!is_markdown_path("analysis.ipynb"));
    assert!(!is_markdown_path(".md"));
    assert!(!is_markdown_path("dir.md/file"));
}

#[test]
fn code_theme_from_context_is_used() {
    let mut a = ctx_w(true, 200);
    let mut b = ctx_w(true, 200);
    a.code_theme = "InspiredGitHub".into();
    b.code_theme = "base16-ocean.dark".into();
    let src = "def f(x):\n    return x + 1\n";
    assert_ne!(code(src, "python", &a), code(src, "python", &b));
    // an unknown theme falls back to base16-ocean.dark
    let mut c = ctx_w(true, 200);
    c.code_theme = "no-such-theme".into();
    assert_eq!(code(src, "python", &c), code(src, "python", &b));
}

#[test]
fn code_language_selects_the_grammar() {
    let c = ctx_w(true, 200);
    let src = "fn main() { let x = 1; }";
    assert_ne!(code(src, "rust", &c), code(src, "txt", &c));
    // an unknown language falls back to python
    assert_eq!(code(src, "no-such-language", &c), code(src, "python", &c));
}

#[test]
fn markdown_reads_are_merged_by_the_library() {
    assert!(matches!(align_of(AlignRead::Unset), Align::Left));
    assert!(matches!(align_of(AlignRead::Center), Align::Center));
    assert!(matches!(start_of(StartRead::Head), MdEvent::StartRow));
    assert!(matches!(start_of(StartRead::IndentedCode), MdEvent::StartCodeBlock(l) if l.is_empty()));
    assert!(matches!(start_of(StartRead::FencedCode("py".into())), MdEvent::StartCodeBlock(l) if l == "py"));
    assert!(matches!(leaf_of(LeafRead::SoftBreak), MdEvent::Break));
    assert!(matches!(leaf_of(LeafRead::HardBreak), MdEvent::Break));
}

#[test]
fn highlighted_lines_keep_their_text() {
    let c = ctx_w(false, 200);
    let src = "def f(x):\n    return x + 1\n";
    let s = code(src, "python", &c);
    assert!(s.contains("def f(x):"));
    assert!(s.contains("    return x + 1"));
}

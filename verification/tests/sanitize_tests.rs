use nbv::render::code::{sanitize_invisible_fg, Rgba, Span};
use syntect::easy::HighlightLines;
use syntect::highlighting::{Color, ThemeSet};
use syntect::parsing::SyntaxSet;

fn rgba(c: Color) -> Rgba {
    Rgba { r: c.r, g: c.g, b: c.b, a: c.a }
}

fn highlighted(line: &str) -> (Vec<Span>, Option<Rgba>, Rgba) {
    let ss = SyntaxSet::load_defaults_newlines();
    let ts = ThemeSet::load_defaults();
    let syntax = ss.find_syntax_by_token("python").unwrap();
    let theme = &ts.themes["base16-ocean.dark"];
    let mut hl = HighlightLines::new(syntax, theme);
    let ranges = hl.highlight_line(line, &ss).unwrap();
    let spans = ranges
        .into_iter()
        .map(|(st, t)| Span { fg: rgba(st.foreground), bg: rgba(st.background), text: t.to_string() })
        .collect();
    let bg = theme.settings.background.map(rgba);
    let default_fg = theme
        .settings
        .foreground
        .map(rgba)
        .unwrap_or(Rgba { r: 220, g: 220, b: 220, a: 255 });
    (spans, bg, default_fg)
}

#[test]
fn sanitize_replaces_bg_colored_fg_with_default() {
    let (ranges, bg, default_fg) = highlighted("!ls ./artifacts");
    let safe = sanitize_invisible_fg(ranges, bg, default_fg);
    let bg_color = bg.unwrap();
    for s in &safe {
        let fg = s.fg;
        let same = fg.r == bg_color.r && fg.g == bg_color.g && fg.b == bg_color.b;
        assert!(!same, "token {:?} still has fg=bg=({},{},{}) after sanitize", s.text, fg.r, fg.g, fg.b);
    }
}

#[test]
fn sanitize_leaves_normal_fg_alone() {
    let (ranges, bg, default_fg) = highlighted("x = 1");
    let before: Vec<_> = ranges.iter().map(|s| (s.fg, s.text.clone())).collect();
    let safe = sanitize_invisible_fg(ranges, bg, default_fg);
    for ((orig_fg, orig_text), s) in before.iter().zip(safe.iter()) {
        assert_eq!(orig_text, &s.text);
        assert_eq!(orig_fg.r, s.fg.r);
        assert_eq!(orig_fg.g, s.fg.g);
        assert_eq!(orig_fg.b, s.fg.b);
    }
}

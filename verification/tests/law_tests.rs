use nbv::env::{ImageBackend, RenderCtx};
use nbv::ipynb::model::{Cell, JsonText, MimeBundle, Notebook, NotebookMetadata};
use nbv::render::code::Highlighting;
use nbv::render::document::strip_frontmatter;
use nbv::render::plain::render_notebook_plain;
use nbv::render::{render_notebook, RenderFilters};
use nbv::cli::parse_cells_spec;
use nbv::render::image::kitty::KittyRenderer;
use nbv::render::image::ImageRenderer;
use nbv::render::plain::emit_block;
use nbv::render::traceback::{render as render_traceback, strip_ansi};
use nbv::setup::flow::rc_block;
use nbv::setup::{rc_already_references, ShellKind};

fn ctx() -> RenderCtx {
    RenderCtx {
        is_tty: true,
        use_color: true,
        width: 50,
        image_backend: ImageBackend::Placeholder,
        code_theme: "base16-ocean.dark".into(),
    }
}

fn nb() -> Notebook {
    Notebook {
        cells: vec![
            Cell::Markdown { source: "# M".into() },
            Cell::Code { source: "x = 1".into(), outputs: vec![], execution_count: Some(3) },
            Cell::Raw { source: "raw".into() },
        ],
        metadata: NotebookMetadata::default(),
    }
}

#[test]
fn written_setup_line_is_found_again() {
    for k in [ShellKind::Zsh, ShellKind::Bash, ShellKind::Fish] {
        for dir in ["/u/.cargo/bin", "/opt/my tools/bin", ""] {
            let rc = format!("alias l=ls\n# Added by `nbv setup`\n{}\n", k.path_line(dir));
            assert!(rc_already_references(&rc, dir));
        }
    }
}

#[test]
fn full_range_matches_unfiltered() {
    let n = nb();
    let mut a = String::new();
    let mut b = String::new();
    render_notebook_plain(&n, Some(0..200), false, false, &mut a);
    render_notebook_plain(&n, None, false, false, &mut b);
    assert_eq!(a, b);
    let hl = Highlighting::load();
    let mut c = String::new();
    let mut d = String::new();
    render_notebook(&n, &RenderFilters { cells_range: Some(0..3), ..Default::default() }, &ctx(), &hl, &mut c);
    render_notebook(&n, &RenderFilters::default(), &ctx(), &hl, &mut d);
    assert_eq!(c, d);
}

#[test]
fn range_past_end_renders_nothing() {
    let n = nb();
    let mut a = String::new();
    render_notebook_plain(&n, Some(3..9999), false, false, &mut a);
    assert!(a.is_empty());
    let hl = Highlighting::load();
    let mut b = String::from("kept");
    render_notebook(&n, &RenderFilters { cells_range: Some(5..6), ..Default::default() }, &ctx(), &hl, &mut b);
    assert_eq!(b, "kept");
}

#[test]
fn frontmatter_strip_leaves_a_suffix() {
    for s in ["---\na\n---\nbody", "---\n...\n", "no front", "---\nopen", "---\r\n---\r\nx"] {
        let r = strip_frontmatter(s);
        assert!(s.ends_with(&r));
    }
}

#[test]
fn last_duplicate_entry_wins_in_a_bundle() {
    let b = MimeBundle::from_entries(vec![
        ("text/plain".into(), JsonText::Str("first".into())),
        ("x/y".into(), JsonText::Other),
        ("text/plain".into(), JsonText::Str("second".into())),
    ]);
    assert_eq!(b.text_plain.as_deref(), Some("second"));
    assert_eq!(b.other, vec!["x/y".to_string()]);
}

#[test]
fn markdown_never_emits_blank_prose_lines() {
    let hl = Highlighting::load();
    let c = RenderCtx { use_color: false, ..ctx() };
    let mut sink = nbv::render::sink::BoxedSink::new(String::new());
    nbv::render::markdown::render("para one\n\n   \n\n> \n\npara two\n", &c, &hl, &mut sink);
    let s = sink.into_string();
    for line in s.lines() {
        let inner = line.trim_start_matches('│').trim_end_matches('│');
        assert!(!inner.trim().is_empty(), "blank prose line in {s:?}");
    }
}

#[test]
fn every_listed_theme_is_accepted() {
    let hl = Highlighting::load();
    let names = hl.theme_names();
    assert!(!names.is_empty());
    for n in &names {
        assert!(hl.has_theme(n));
    }
    assert!(names.iter().any(|n| n == "base16-ocean.dark"));
    assert!(!hl.has_theme("base16-ocean"));
}

#[test]
fn bundled_themes_are_the_documented_seven() {
    let hl = Highlighting::load();
    let names = hl.theme_names();
    let want = vec![
        "InspiredGitHub",
        "Solarized (dark)",
        "Solarized (light)",
        "base16-eighties.dark",
        "base16-mocha.dark",
        "base16-ocean.dark",
        "base16-ocean.light",
    ];
    assert_eq!(names, want);
}

#[test]
fn traceback_takes_one_line_per_entry_line() {
    let tb = vec!["a\nb".to_string(), "\x1b[31mc\x1b[0m".to_string(), "d\n".to_string()];
    let mut out = String::new();
    render_traceback(&tb, &ctx(), &mut out);
    assert_eq!(out.matches('\n').count(), 2 + 1 + 2);
}

#[test]
fn stripping_keeps_characters_in_order() {
    let s = "a\x1b[1mb\x1b]0;t\x07c";
    let r = strip_ansi(s);
    assert_eq!(r, "abc");
    let mut it = s.chars();
    for c in r.chars() {
        assert!(it.any(|x| x == c));
    }
}

#[test]
fn kitty_chunks_in_closed_form() {
    let mut out = String::new();
    KittyRenderer.render("", 0, 0, &ctx(), &mut out);
    assert_eq!(out, "\n");
    let payload = "A".repeat(5000);
    let mut out = String::new();
    KittyRenderer.render(&payload, 0, 0, &ctx(), &mut out);
    let want = format!("\x1b_Gf=100,a=T,m=1;{}\x1b\\\x1b_Gm=0;{}\x1b\\\n", "A".repeat(4096), "A".repeat(904));
    assert_eq!(out, want);
}

#[test]
fn cells_parse_exactly_on_well_formed_ranges() {
    assert_eq!(parse_cells_spec("3"), Ok((3, 3)));
    assert_eq!(parse_cells_spec("2-5"), Ok((2, 5)));
    for bad in ["0", "5-2", "-3", "3-", "1-2-3", "a", "1,2"] {
        let e = parse_cells_spec(bad).unwrap_err();
        assert!(e.contains(bad));
    }
    assert!(parse_cells_spec("").is_err());
}

#[test]
fn emit_block_separates_and_terminates_blocks() {
    let mut first = true;
    let mut out = String::new();
    emit_block("stdout", "x", &mut first, &mut out);
    emit_block("stderr", "y\n", &mut first, &mut out);
    assert!(!first);
    assert_eq!(out, "[stdout]\nx\n\n[stderr]\ny\n");
}

#[test]
fn appended_setup_block_is_found_again() {
    for existing in ["", "alias x=y", "alias x=y\n"] {
        let line = ShellKind::Zsh.path_line("/opt/nbv");
        let after = format!("{}{}", existing, rc_block(Some(existing), &line));
        assert!(rc_already_references(&after, "/opt/nbv"));
    }
}

#[test]
fn table_takes_rows_plus_four_lines() {
    let c = RenderCtx { use_color: false, width: 30, ..ctx() };
    let t = nbv::render::table::Table::new(vec!["a".into(), "b".into()], vec![], vec![]);
    let mut sink = nbv::render::sink::BoxedSink::new(String::new());
    nbv::render::table::render(&t, &c, &mut sink);
    assert_eq!(sink.into_string().matches('\n').count(), 4);
    let t = nbv::render::table::Table::new(
        vec!["a".into(), "b".into()],
        vec![vec!["1".into(), "2".into()], vec!["3".into(), "4".into()]],
        vec![],
    );
    let mut sink = nbv::render::sink::BoxedSink::new(String::new());
    nbv::render::table::render(&t, &c, &mut sink);
    assert_eq!(sink.into_string().matches('\n').count(), 6);
}

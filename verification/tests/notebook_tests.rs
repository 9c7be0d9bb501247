use nbv::env::{ImageBackend, RenderCtx};
use nbv::ipynb::model::{value_to_string, Cell, JsonText, MimeBundle, Notebook, NotebookMetadata, Output, StreamName};
use nbv::render::code::Highlighting;
use nbv::render::output::render as render_output;
use nbv::render::{render_notebook, unknown_outputs, RenderFilters};

const ONE_PIXEL: &str = "iVBORw0KGgoAAAANSUhEUgAAAAEAAAABCAYAAAAfFcSJAAAADUlEQVR42mP8/5+hHgAHggJ/PchI7wAAAABJRU5ErkJggg==";

fn ctx() -> RenderCtx {
    RenderCtx {
        is_tty: true,
        use_color: false,
        width: 60,
        image_backend: ImageBackend::Placeholder,
        code_theme: "base16-ocean.dark".into(),
    }
}

fn nb(cells: Vec<Cell>) -> Notebook {
    Notebook { cells, metadata: NotebookMetadata::default() }
}

fn md(s: &str) -> Cell {
    Cell::Markdown { source: s.into() }
}

fn code(s: &str, n: Option<u64>, outputs: Vec<Output>) -> Cell {
    Cell::Code { source: s.into(), outputs, execution_count: n }
}

fn stdout(t: &str) -> Output {
    Output::Stream { name: StreamName::Stdout, text: t.into() }
}

fn bundle(plain: Option<&str>, html: Option<&str>, png: Option<&str>, other: Vec<&str>) -> MimeBundle {
    MimeBundle {
        text_plain: plain.map(|s| s.into()),
        text_html: html.map(|s| s.into()),
        image_png: png.map(|s| s.into()),
        other: other.into_iter().map(|s| s.to_string()).collect(),
    }
}

fn render(n: &Notebook, f: &RenderFilters) -> String {
    let hl = Highlighting::load();
    let mut s = String::new();
    render_notebook(n, f, &ctx(), &hl, &mut s);
    s
}

fn plain() -> RenderFilters {
    RenderFilters { plain: true, ..Default::default() }
}

fn out(o: &Output) -> String {
    let mut s = String::new();
    render_output(o, 0, 0, &ctx(), &mut s);
    s
}

#[test]
fn renders_minimal_notebook_without_panicking() {
    let s = render(&nb(vec![md("# Hi")]), &RenderFilters::default());
    assert!(s.contains("Hi"));
}

#[test]
fn renders_code_with_outputs() {
    let s = render(&nb(vec![code("print(1)", Some(1), vec![stdout("1\n")])]), &RenderFilters::default());
    assert!(s.contains("print(1)") || s.contains("print"));
    assert!(s.contains("In [1]"));
}

#[test]
fn unknown_cell_logs_to_stderr_and_continues() {
    let n = nb(vec![Cell::Unknown, md("normal")]);
    let hl = Highlighting::load();
    let mut s = String::new();
    let skipped = render_notebook(&n, &RenderFilters::default(), &ctx(), &hl, &mut s);
    assert_eq!(skipped, vec![0]);
    assert!(s.contains("Unknown") || s.contains("skipped"));
    assert!(s.contains("normal"));
}

#[test]
fn default_filters_render_all_cells() {
    let s = render(&nb(vec![md("# A"), code("x=1", Some(1), vec![])]), &RenderFilters::default());
    assert!(s.contains("# A"));
    assert!(s.contains("x=1"));
}

fn fixture_5_cells() -> Notebook {
    nb(vec![md("MD0"), md("MD1"), md("MD2"), md("MD3"), md("MD4")])
}

#[test]
fn cells_range_renders_only_slice() {
    let f = RenderFilters { cells_range: Some(1..3), ..Default::default() };
    let s = render(&fixture_5_cells(), &f);
    assert!(!s.contains("MD0"));
    assert!(s.contains("MD1"));
    assert!(s.contains("MD2"));
    assert!(!s.contains("MD3"));
    assert!(!s.contains("MD4"));
}

#[test]
fn empty_cells_range_renders_nothing() {
    let f = RenderFilters { cells_range: Some(10..20), ..Default::default() };
    assert!(render(&fixture_5_cells(), &f).is_empty());
}

fn fixture_md_code_code() -> Notebook {
    nb(vec![
        md("INTRO_MD"),
        code("print('A')", Some(1), vec![stdout("A\n")]),
        code("print('B')", Some(2), vec![stdout("B\n")]),
    ])
}

#[test]
fn no_output_hides_stream_outputs_keeps_md_and_code() {
    let f = RenderFilters { no_output: true, ..Default::default() };
    let s = render(&fixture_md_code_code(), &f);
    assert!(s.contains("INTRO_MD"));
    assert!(s.contains("print('A')"));
    assert!(!s.contains("stream (stdout)"), "no-output must hide Out frames: {s}");
}

#[test]
fn mod_code_only_drops_markdown_and_outputs() {
    let f = RenderFilters { code_only: true, no_output: true, ..Default::default() };
    let s = render(&fixture_md_code_code(), &f);
    assert!(!s.contains("INTRO_MD"));
    assert!(s.contains("print('A')"));
    assert!(s.contains("print('B')"));
    assert!(!s.contains("stream (stdout)"));
}

#[test]
fn plain_renders_markdown_with_prefix() {
    let s = render(&nb(vec![md("# Hello\nWorld")]), &plain());
    assert!(s.starts_with("[markdown]\n"));
    assert!(s.contains("# Hello\nWorld"));
    assert!(!s.contains('┌'), "plain must not draw frames: {s}");
}

#[test]
fn plain_renders_code_source_with_prefix() {
    let s = render(&nb(vec![code("x = 1", Some(1), vec![])]), &plain());
    assert!(s.contains("[code]\nx = 1"));
    assert!(!s.contains('\x1b'), "plain must not contain ANSI: {s}");
}

#[test]
fn plain_separates_blocks_with_one_blank_line() {
    let s = render(&nb(vec![md("A"), md("B")]), &plain());
    assert_eq!(s, "[markdown]\nA\n\n[markdown]\nB\n");
}

#[test]
fn plain_emits_stream_with_stdout_prefix() {
    let s = render(&nb(vec![code("print(1)", Some(1), vec![stdout("1\n")])]), &plain());
    assert!(s.contains("[code]\nprint(1)"));
    assert!(s.contains("[stdout]\n1"));
}

#[test]
fn plain_emits_stderr_with_stderr_prefix() {
    let o = Output::Stream { name: StreamName::Stderr, text: "warn\n".into() };
    let s = render(&nb(vec![code("x", Some(1), vec![o])]), &plain());
    assert!(s.contains("[stderr]\nwarn"));
}

#[test]
fn plain_emits_execute_result_text_plain() {
    let o = Output::ExecuteResult { data: bundle(Some("42"), None, None, vec![]), execution_count: Some(1) };
    let s = render(&nb(vec![code("42", Some(1), vec![o])]), &plain());
    assert!(s.contains("[result]\n42"));
}

#[test]
fn plain_emits_error_with_traceback() {
    let o = Output::Error {
        ename: "ValueError".into(),
        evalue: "bad".into(),
        traceback: vec!["Traceback...".into(), "ValueError: bad".into()],
    };
    let s = render(&nb(vec![code("raise", Some(1), vec![o])]), &plain());
    assert!(s.contains("[error]"));
    assert!(s.contains("ValueError: bad"));
}

#[test]
fn plain_image_emits_dimensions_placeholder() {
    let o = Output::DisplayData { data: bundle(None, None, Some(ONE_PIXEL), vec![]) };
    let s = render(&nb(vec![code("plt.show()", Some(1), vec![o])]), &plain());
    assert!(s.contains("[image]"));
    assert!(s.contains("PNG"));
}

#[test]
fn plain_exact_output_for_mixed_notebook() {
    let o1 = Output::Error {
        ename: "E".into(),
        evalue: "v".into(),
        traceback: vec!["\x1b[31mline1\x1b[0m".into(), "line2".into()],
    };
    let o2 = Output::DisplayData { data: bundle(None, None, Some(ONE_PIXEL), vec![]) };
    let o3 = Output::DisplayData { data: bundle(None, None, None, vec!["application/json"]) };
    let n = nb(vec![Cell::Unknown, code("c", None, vec![o1, o2, o3]), Cell::Raw { source: "r\n".into() }]);
    let s = render(&n, &plain());
    assert_eq!(s, "[code]\nc\n\n[error]\nline1\nline2\n\n[image]\nPNG 1x1\n\n[raw]\nr\n");
    let f = RenderFilters { plain: true, code_only: true, no_output: true, cells_range: Some(1..9) };
    assert_eq!(render(&n, &f), "[code]\nc\n");
}

#[test]
fn stream_stdout_renders_text() {
    let s = out(&stdout("hello\n"));
    assert!(s.contains("stream (stdout)"), "{s}");
    assert!(s.contains("hello"));
    assert!(!s.contains("Out ["), "stream must not be numbered: {s}");
}

#[test]
fn execute_result_picks_image_when_present() {
    let o = Output::ExecuteResult { data: bundle(Some("ignored"), None, Some(ONE_PIXEL), vec![]), execution_count: Some(1) };
    let s = out(&o);
    assert!(s.contains("PNG"));
    assert!(!s.contains("ignored"));
}

#[test]
fn execute_result_falls_back_to_text_plain() {
    let o = Output::ExecuteResult { data: bundle(Some("42"), None, None, vec![]), execution_count: Some(1) };
    assert!(out(&o).contains("42"));
}

#[test]
fn execute_result_unknown_mime_shows_placeholder() {
    let o = Output::ExecuteResult { data: bundle(None, None, None, vec!["application/json"]), execution_count: Some(1) };
    let s = out(&o);
    assert!(s.contains("unsupported") || s.contains("application/json"));
}

#[test]
fn error_renders_traceback() {
    let o = Output::Error { ename: "ValueError".into(), evalue: "bad".into(), traceback: vec!["line1".into(), "line2".into()] };
    let s = out(&o);
    assert!(s.contains("Error"));
    assert!(s.contains("ValueError") || s.contains("line1"));
}

#[test]
fn execute_result_renders_html_table_over_text_plain() {
    let html = "<table><thead><tr><th>c</th></tr></thead><tbody><tr><td>v</td></tr></tbody></table>";
    let o = Output::ExecuteResult { data: bundle(Some("PLAIN_REPR"), Some(html), None, vec![]), execution_count: Some(1) };
    let s = out(&o);
    assert!(s.contains('┌'), "should render a table box: {s}");
    assert!(s.contains("v"));
    assert!(!s.contains("PLAIN_REPR"), "should prefer html table: {s}");
}

#[test]
fn execute_result_unparseable_html_falls_back_to_text_plain() {
    let o = Output::ExecuteResult {
        data: bundle(Some("PLAIN_REPR"), Some("<div>not a table</div>"), None, vec![]),
        execution_count: Some(1),
    };
    assert!(out(&o).contains("PLAIN_REPR"));
}

#[test]
fn unsupported_mime_is_named_by_priority_then_order() {
    let pick = |keys: Vec<&str>| {
        let o = Output::DisplayData { data: bundle(None, None, None, keys) };
        out(&o)
    };
    assert!(pick(vec!["zeta/x", "application/json", "text/latex"]).contains("(unsupported: text/latex)"));
    assert!(pick(vec!["zeta/x", "application/json"]).contains("(unsupported: application/json)"));
    assert!(pick(vec!["zeta/x", "beta/y", "gamma/z"]).contains("(unsupported: beta/y)"));
    assert!(pick(vec![]).contains("(unsupported: (empty))"));
}

#[test]
fn out_labels_carry_execution_counts() {
    let o = Output::ExecuteResult { data: bundle(Some("1"), None, None, vec![]), execution_count: Some(12) };
    assert!(out(&o).contains("Out [12] ── text/plain"));
    let o = Output::DisplayData { data: bundle(Some("1"), None, None, vec![]) };
    assert!(out(&o).contains("Out ── text/plain"));
}

#[test]
fn code_label_uses_kernel_language() {
    let mut n = nb(vec![code("x", None, vec![])]);
    n.metadata.language_info = Some(nbv::ipynb::model::LanguageInfo { name: "julia".into() });
    let s = render(&n, &RenderFilters::default());
    assert!(s.contains("In [ ] ── code (julia)"), "{s}");
}

#[test]
fn filters_from_flags_apply_implications() {
    let f = RenderFilters::from_flags(Some((2, 4)), false, true, false);
    assert_eq!(f.cells_range, Some(1..4));
    assert!(f.no_output && f.code_only && !f.plain);
    let f = RenderFilters::from_flags(None, false, false, true);
    assert_eq!(f.cells_range, None);
    assert!(!f.no_output && f.plain);
}

#[test]
fn text_fields_read_strings_and_arrays() {
    assert_eq!(value_to_string(JsonText::Str("a".into())), Some("a".to_string()));
    assert_eq!(
        value_to_string(JsonText::Array(vec![Some("a=1\n".into()), None, Some("b=2".into())])),
        Some("a=1\nb=2".to_string())
    );
    assert_eq!(value_to_string(JsonText::Other), None);
}

#[test]
fn mime_bundle_reads_known_types_and_keeps_other_keys() {
    let b = MimeBundle::from_entries(vec![
        ("text/plain".into(), JsonText::Array(vec![Some("4".into()), Some("2".into())])),
        ("image/png".into(), JsonText::Array(vec![Some("x".into())])),
        ("text/html".into(), JsonText::Str("<table/>".into())),
        ("application/json".into(), JsonText::Other),
    ]);
    assert_eq!(b.text_plain.as_deref(), Some("42"));
    assert_eq!(b.image_png, None);
    assert_eq!(b.text_html.as_deref(), Some("<table/>"));
    assert_eq!(b.other, vec!["application/json".to_string()]);
}

#[test]
fn unknown_outputs_are_reported_for_warnings() {
    let n = nb(vec![
        md("m"),
        code("a", None, vec![stdout("x"), Output::Unknown]),
        code("b", None, vec![Output::Unknown, Output::Unknown]),
    ]);
    assert_eq!(unknown_outputs(&n, &RenderFilters::default()), vec![(1, 1), (2, 0), (2, 1)]);
    let only_last = RenderFilters { cells_range: Some(2..9), ..Default::default() };
    assert_eq!(unknown_outputs(&n, &only_last), vec![(2, 0), (2, 1)]);
    let hidden = RenderFilters { no_output: true, ..Default::default() };
    assert!(unknown_outputs(&n, &hidden).is_empty());
    assert!(unknown_outputs(&n, &plain()).is_empty());
}

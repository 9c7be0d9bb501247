use nbv::render::html_table::{decode_entities, parse};
use nbv::render::table::Align;

#[test]
fn decodes_named_entities() {
    assert_eq!(decode_entities("&lt;a&gt;"), "<a>");
    assert_eq!(decode_entities("x &amp; y"), "x & y");
    assert_eq!(decode_entities("say &quot;hi&quot;"), "say \"hi\"");
    assert_eq!(decode_entities("it&#39;s"), "it's");
    assert_eq!(decode_entities("a&nbsp;b"), "a b");
}

#[test]
fn decodes_numeric_entities() {
    assert_eq!(decode_entities("&#65;&#66;"), "AB");
}

#[test]
fn leaves_unknown_or_unterminated_alone() {
    assert_eq!(decode_entities("100% &done"), "100% &done");
    assert_eq!(decode_entities("&notanentity;"), "&notanentity;");
    assert_eq!(decode_entities("plain text"), "plain text");
}

const PANDAS_HTML: &str = r#"<table border="1" class="dataframe"><thead><tr style="text-align: right;"><th></th><th>name</th><th>age</th></tr></thead><tbody><tr><th>0</th><td>Alice</td><td>30</td></tr><tr><th>1</th><td>Bob</td><td>25</td></tr></tbody></table>"#;

#[test]
fn parses_pandas_dataframe_table() {
    let t = parse(PANDAS_HTML).expect("should parse");
    assert_eq!(t.headers, vec!["", "name", "age"]);
    assert_eq!(t.rows[0], vec!["0", "Alice", "30"]);
    assert_eq!(t.rows[1], vec!["1", "Bob", "25"]);
}

#[test]
fn numeric_columns_are_right_aligned() {
    let t = parse(PANDAS_HTML).expect("should parse");
    assert_eq!(t.align, vec![Align::Right, Align::Left, Align::Right]);
}

#[test]
fn decodes_entities_in_cells() {
    let html = "<table><thead><tr><th>op</th></tr></thead><tbody><tr><td>a &lt; b</td></tr></tbody></table>";
    let t = parse(html).expect("should parse");
    assert_eq!(t.rows[0], vec!["a < b"]);
}

#[test]
fn rejects_multiindex_header() {
    let html = "<table><thead><tr><th>a</th></tr><tr><th>b</th></tr></thead><tbody><tr><td>1</td></tr></tbody></table>";
    assert!(parse(html).is_none());
}

#[test]
fn rejects_non_table_html() {
    assert!(parse("<div>not a table</div>").is_none());
}

#[test]
fn rejects_table_with_no_body_rows() {
    let html = "<table><thead><tr><th>a</th></tr></thead></table>";
    assert!(parse(html).is_none());
}

#[test]
fn strips_nested_tags_inside_cells() {
    let html = "<table><thead><tr><th>v</th></tr></thead><tbody><tr><td><b>bold</b></td></tr></tbody></table>";
    let t = parse(html).expect("should parse");
    assert_eq!(t.rows[0], vec!["bold"]);
}

#[test]
fn text_without_ampersand_is_unchanged_by_decoding() {
    for s in ["", "plain", "<b>x</b>", "a;b#c", "가나다"] {
        assert_eq!(decode_entities(s), s);
    }
}

#[test]
fn table_tag_case_is_ignored() {
    let html = "<TABLE><THEAD><TR><TH>h</TH></TR></THEAD><TBODY><TR><TD>1.5</TD></TR></TBODY></TABLE>";
    let t = parse(html).expect("should parse");
    assert_eq!(t.headers, vec!["h"]);
    assert_eq!(t.rows[0], vec!["1.5"]);
    assert_eq!(t.align, vec![Align::Right]);
}

//! One cell output in its own box.

use vstd::prelude::*;

use crate::env::RenderCtx;
use crate::ipynb::model::{stream_label, MimeBundle, Output, StreamName};
use crate::render::frame::{close, close_text, open, open_text, wrap_line, wrap_line_text};
use crate::render::html_table::{parse, parse_spec};
use crate::render::image::{dispatch, dispatch_text};
use crate::render::sink::BoxedSink;
use crate::render::table::{normalized_row, row_texts, table_text, Align};
use crate::render::text::{render as render_text, text_block};
use crate::render::traceback::{render as render_traceback, traceback_text};
use crate::strs::{chars_of, decimal, push_decimal, str_is};
use crate::theme::{bold_colored, colorize_error_header, colorize_output_header, FG_GREEN, FG_RED};

verus! {

/// An output box's label: `Out [n] ── mime` for an output with an execution
/// count, `Out ── mime` for one without (display data, streams).
pub open spec fn out_label_text(exec_count: Option<u64>, mime: Seq<char>) -> Seq<char> {
    match exec_count {
        Some(n) => "Out ["@ + decimal(n as nat) + "] ── "@ + mime,
        None => "Out ── "@ + mime,
    }
}

/// The top border of an output box.
pub open spec fn header_text(label: Seq<char>, ctx: RenderCtx) -> Seq<char> {
    open_text(bold_colored(FG_GREEN@, label, ctx.use_color), ctx)
}

/// Character order: by code point, which is the byte order of UTF-8.
pub open spec fn seq_lt(a: Seq<char>, b: Seq<char>) -> bool
    decreases a.len(),
{
    if b.len() == 0 {
        false
    } else if a.len() == 0 {
        true
    } else if (a[0] as u32) != (b[0] as u32) {
        (a[0] as u32) < (b[0] as u32)
    } else {
        seq_lt(a.drop_first(), b.drop_first())
    }
}

/// The least key.
pub open spec fn min_key(keys: Seq<Seq<char>>) -> Seq<char>
    decreases keys.len(),
{
    if keys.len() <= 1 {
        if keys.len() == 1 {
            keys[0]
        } else {
            Seq::empty()
        }
    } else {
        let m = min_key(keys.drop_last());
        if seq_lt(keys.last(), m) {
            keys.last()
        } else {
            m
        }
    }
}

/// The MIME type named for a bundle with nothing the renderer shows:
/// `text/latex` or `application/json` when present, else the least key,
/// else `(empty)`.
pub open spec fn unsupported_mime(keys: Seq<Seq<char>>) -> Seq<char> {
    if keys.contains("text/latex"@) {
        "text/latex"@
    } else if keys.contains("application/json"@) {
        "application/json"@
    } else if keys.len() == 0 {
        "(empty)"@
    } else {
        min_key(keys)
    }
}

/// A parsed HTML table, drawn.
pub open spec fn html_table_text(p: (Seq<Seq<char>>, Seq<Seq<Seq<char>>>, Seq<Align>), ctx: RenderCtx) -> Seq<char> {
    table_text::<BoxedSink>(p.0, p.1.map_values(|r: Seq<Seq<char>>| normalized_row(r, p.0.len())), p.2, ctx)
}

/// A box around `body`, under an output label.
pub open spec fn output_box(exec_count: Option<u64>, mime: Seq<char>, body: Seq<char>, ctx: RenderCtx) -> Seq<char> {
    header_text(out_label_text(exec_count, mime), ctx) + body + close_text(ctx)
}

/// What a MIME bundle renders as, by priority: the image; the HTML when it
/// holds a table; the plain text; else an empty box naming the MIME type.
pub open spec fn bundle_text(
    b: MimeBundle,
    exec_count: Option<u64>,
    cell_idx: usize,
    out_idx: usize,
    ctx: RenderCtx,
) -> Seq<char> {
    match b.image_png {
        Some(b64) => output_box(exec_count, "image/png"@, dispatch_text(b64@, cell_idx, out_idx, ctx), ctx),
        None => {
            let html_table = match b.text_html {
                Some(h) => parse_spec(h@),
                None => None,
            };
            match html_table {
                Some(p) => output_box(exec_count, "text/html"@, html_table_text(p, ctx), ctx),
                None => match b.text_plain {
                    Some(t) => output_box(exec_count, "text/plain"@, text_block(t@, ctx), ctx),
                    None => output_box(
                        exec_count,
                        "(unsupported: "@ + unsupported_mime(b.other@.map_values(|k: String| k@))
                            + ")"@,
                        wrap_line_text(Seq::empty(), ctx),
                        ctx,
                    ),
                },
            }
        },
    }
}

/// What `render` writes for one output.
pub open spec fn output_text(o: Output, cell_idx: usize, out_idx: usize, ctx: RenderCtx) -> Seq<char> {
    match o {
        Output::Stream { name, text } => output_box(
            None,
            "stream ("@ + stream_label(name) + ")"@,
            text_block(text@, ctx),
            ctx,
        ),
        Output::ExecuteResult { data, execution_count } => bundle_text(
            data,
            execution_count,
            cell_idx,
            out_idx,
            ctx,
        ),
        Output::DisplayData { data } => bundle_text(data, None, cell_idx, out_idx, ctx),
        Output::Error { ename, evalue, traceback } => open_text(
            bold_colored(FG_RED@, "Error: "@ + ename@ + " — "@ + evalue@, ctx.use_color),
            ctx,
        ) + traceback_text(traceback@.map_values(|t: String| t@), ctx) + close_text(ctx),
        Output::Unknown => output_box(None, "unknown output"@, wrap_line_text("(skipped)"@, ctx), ctx),
    }
}

/// Build an output box label. Outputs with a real execution count get
/// `Out [n] ── mime`; outputs without one (display_data, streams) get
/// `Out ── mime`.
fn out_label(exec_count: Option<u64>, mime: &str) -> (r: String)
    ensures
        r@ == out_label_text(exec_count, mime@),
{
    match exec_count {
        Some(n) => {
            let mut r = String::from_str("Out [");
            push_decimal(&mut r, n);
            r.append("] ── ");
            r.append(mime);
            r
        },
        None => {
            let mut r = String::from_str("Out ── ");
            r.append(mime);
            r
        },
    }
}

fn header(label: &str, ctx: &RenderCtx, out: &mut String)
    ensures
        final(out)@ == old(out)@ + header_text(label@, *ctx),
{
    let label = colorize_output_header(label, ctx.use_color);
    open(label.as_str(), ctx, out);
}

fn less(a: &Vec<char>, b: &Vec<char>) -> (r: bool)
    ensures
        r == seq_lt(a@, b@),
{
    proof {
        assert(a@.subrange(0, a@.len() as int) =~= a@);
        assert(b@.subrange(0, b@.len() as int) =~= b@);
    }
    let mut i: usize = 0;
    while i < a.len() && i < b.len() && (a[i] as u32) == (b[i] as u32)
        invariant
            i <= a@.len(),
            i <= b@.len(),
            seq_lt(a@, b@) == seq_lt(a@.subrange(i as int, a@.len() as int), b@.subrange(
                i as int,
                b@.len() as int,
            )),
        decreases a@.len() - i,
    {
        proof {
            let sa = a@.subrange(i as int, a@.len() as int);
            let sb = b@.subrange(i as int, b@.len() as int);
            assert(sa.drop_first() =~= a@.subrange(i + 1, a@.len() as int));
            assert(sb.drop_first() =~= b@.subrange(i + 1, b@.len() as int));
        }
        i += 1;
    }
    proof {
        let sa = a@.subrange(i as int, a@.len() as int);
        let sb = b@.subrange(i as int, b@.len() as int);
        if i < a@.len() && i < b@.len() {
            assert(sa[0] == a@[i as int]);
            assert(sb[0] == b@[i as int]);
        }
    }
    if i >= b.len() {
        false
    } else if i >= a.len() {
        true
    } else {
        (a[i] as u32) < (b[i] as u32)
    }
}

fn contains_key(keys: &Vec<String>, k: &str) -> (r: bool)
    ensures
        r == keys@.map_values(|s: String| s@).contains(k@),
{
    let ghost ks = keys@.map_values(|s: String| s@);
    let mut i: usize = 0;
    while i < keys.len()
        invariant
            i <= keys@.len(),
            ks == keys@.map_values(|s: String| s@),
            forall|j: int| 0 <= j < i ==> ks[j] != k@,
        decreases keys@.len() - i,
    {
        if str_is(keys[i].as_str(), k) {
            assert(ks[i as int] == k@);
            return true;
        }
        i += 1;
    }
    false
}

fn unsupported_mime_exec(keys: &Vec<String>) -> (r: String)
    ensures
        r@ == unsupported_mime(keys@.map_values(|s: String| s@)),
{
    let ghost ks = keys@.map_values(|s: String| s@);
    if contains_key(keys, "text/latex") {
        return String::from_str("text/latex");
    }
    if contains_key(keys, "application/json") {
        return String::from_str("application/json");
    }
    if keys.len() == 0 {
        return String::from_str("(empty)");
    }
    let mut best = chars_of(keys[0].as_str());
    let mut i: usize = 1;
    while i < keys.len()
        invariant
            1 <= i <= keys@.len(),
            ks == keys@.map_values(|s: String| s@),
            best@ == min_key(ks.subrange(0, i as int)),
        decreases keys@.len() - i,
    {
        let cand = chars_of(keys[i].as_str());
        proof {
            assert(ks.subrange(0, i + 1).drop_last() =~= ks.subrange(0, i as int));
        }
        if less(&cand, &best) {
            best = cand;
        }
        i += 1;
    }
    assert(ks.subrange(0, i as int) =~= ks);
    crate::strs::string_of(best.as_slice())
}

fn boxed_label(exec_count: Option<u64>, mime: &str, ctx: &RenderCtx, out: &mut String)
    ensures
        final(out)@ == old(out)@ + header_text(out_label_text(exec_count, mime@), *ctx),
{
    let label = out_label(exec_count, mime);
    header(label.as_str(), ctx, out);
}

fn image_box(b64: &str, exec_count: Option<u64>, cell_idx: usize, out_idx: usize, ctx: &RenderCtx, out: &mut String)
    ensures
        final(out)@ == old(out)@ + output_box(exec_count, "image/png"@, dispatch_text(b64@, cell_idx, out_idx, *ctx), *ctx),
{
    boxed_label(exec_count, "image/png", ctx, out);
    dispatch(b64, cell_idx, out_idx, ctx, out);
    close(ctx, out);
}

fn html_box(html: &str, exec_count: Option<u64>, ctx: &RenderCtx, out: &mut String) -> (shown: bool)
    ensures
        shown == parse_spec(html@) is Some,
        shown ==> final(out)@ == old(out)@ + output_box(exec_count, "text/html"@, html_table_text(parse_spec(html@)->0, *ctx), *ctx),
        !shown ==> final(out)@ == old(out)@,
{
    match parse(html) {
        Some(parsed) => {
            proof {
                let p = parse_spec(html@)->0;
                assert(row_texts(parsed.rows@) =~= p.1.map_values(
                    |r: Seq<Seq<char>>| normalized_row(r, p.0.len()),
                ));
            }
            boxed_label(exec_count, "text/html", ctx, out);
            let mut taken = String::new();
            std::mem::swap(&mut taken, out);
            let mut sink = BoxedSink::new(taken);
            crate::render::table::render(&parsed, ctx, &mut sink);
            *out = sink.into_string();
            close(ctx, out);
            true
        },
        None => false,
    }
}

fn plain_box(t: &str, exec_count: Option<u64>, ctx: &RenderCtx, out: &mut String)
    ensures
        final(out)@ == old(out)@ + output_box(exec_count, "text/plain"@, text_block(t@, *ctx), *ctx),
{
    boxed_label(exec_count, "text/plain", ctx, out);
    render_text(t, ctx, out);
    close(ctx, out);
}

fn unsupported_box(keys: &Vec<String>, exec_count: Option<u64>, ctx: &RenderCtx, out: &mut String)
    ensures
        final(out)@ == old(out)@ + output_box(
            exec_count,
            "(unsupported: "@ + unsupported_mime(keys@.map_values(|k: String| k@)) + ")"@,
            wrap_line_text(Seq::empty(), *ctx),
            *ctx,
        ),
{
    let mime = unsupported_mime_exec(keys);
    let mut m = String::from_str("(unsupported: ");
    m.append(mime.as_str());
    m.append(")");
    boxed_label(exec_count, m.as_str(), ctx, out);
    proof {
        reveal_strlit("");
        assert(""@ =~= Seq::<char>::empty());
    }
    wrap_line("", ctx, out);
    close(ctx, out);
}

fn render_bundle(
    bundle: &MimeBundle,
    exec_count: Option<u64>,
    cell_idx: usize,
    out_idx: usize,
    ctx: &RenderCtx,
    out: &mut String,
)
    ensures
        final(out)@ == old(out)@ + bundle_text(*bundle, exec_count, cell_idx, out_idx, *ctx),
{
    if let Some(b64) = &bundle.image_png {
        image_box(b64.as_str(), exec_count, cell_idx, out_idx, ctx, out);
        return ;
    }
    if let Some(html) = &bundle.text_html {
        if html_box(html.as_str(), exec_count, ctx, out) {
            return ;
        }
    }
    if let Some(t) = &bundle.text_plain {
        plain_box(t.as_str(), exec_count, ctx, out);
        return ;
    }
    unsupported_box(&bundle.other, exec_count, ctx, out);
}

fn stream_box(name: StreamName, text: &str, ctx: &RenderCtx, out: &mut String)
    ensures
        final(out)@ == old(out)@ + output_box(None, "stream ("@ + stream_label(name) + ")"@, text_block(text@, *ctx), *ctx),
{
    let mut kind = String::from_str("stream (");
    kind.append(name.display_name());
    kind.append(")");
    boxed_label(None, kind.as_str(), ctx, out);
    render_text(text, ctx, out);
    close(ctx, out);
}

fn error_box(ename: &str, evalue: &str, traceback: &Vec<String>, ctx: &RenderCtx, out: &mut String)
    ensures
        final(out)@ == old(out)@ + open_text(
            bold_colored(FG_RED@, "Error: "@ + ename@ + " — "@ + evalue@, ctx.use_color),
            *ctx,
        ) + traceback_text(traceback@.map_values(|t: String| t@), *ctx) + close_text(*ctx),
{
    let mut label = String::from_str("Error: ");
    label.append(ename);
    label.append(" — ");
    label.append(evalue);
    let label = colorize_error_header(label.as_str(), ctx.use_color);
    open(label.as_str(), ctx, out);
    render_traceback(traceback, ctx, out);
    close(ctx, out);
}

fn unknown_box(ctx: &RenderCtx, out: &mut String)
    ensures
        final(out)@ == old(out)@ + output_box(None, "unknown output"@, wrap_line_text("(skipped)"@, *ctx), *ctx),
{
    boxed_label(None, "unknown output", ctx, out);
    wrap_line("(skipped)", ctx, out);
    close(ctx, out);
}

/// Render one output in its own box.
pub fn render(o: &Output, cell_idx: usize, out_idx: usize, ctx: &RenderCtx, out: &mut String)
    ensures
        final(out)@ == old(out)@ + output_text(*o, cell_idx, out_idx, *ctx),
{
    match o {
        Output::Stream { name, text } => stream_box(*name, text.as_str(), ctx, out),
        Output::ExecuteResult { data, execution_count } => {
            render_bundle(data, *execution_count, cell_idx, out_idx, ctx, out);
        },
        Output::DisplayData { data } => {
            render_bundle(data, None, cell_idx, out_idx, ctx, out);
        },
        Output::Error { ename, evalue, traceback } => error_box(ename.as_str(), evalue.as_str(), traceback, ctx, out),
        Output::Unknown => unknown_box(ctx, out),
    }
}

} // verus!

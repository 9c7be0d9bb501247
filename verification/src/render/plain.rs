//! Plain-text rendering: no frames, no color, no images. Prefixed blocks
//! (`[markdown]`, `[code]`, ...) separated by a single blank line, for
//! piping into another program.

use vstd::prelude::*;

use crate::escape::stripped;
use crate::ipynb::model::{stream_label, Cell, Notebook, Output};
use crate::render::image::png_info::{dimensions, png_dims};
use crate::render::image::{b64_decode, base64_decoded};
use crate::render::traceback::strip_ansi_pub;
use crate::strs::{decimal, push_decimal};

verus! {

/// One block: its prefix and its body.
pub type Block = (Seq<char>, Seq<char>);

/// A block's text: a blank line before it unless it is the first, the
/// prefix in brackets on a line of its own, then the body, which gets a
/// newline when it does not end with one.
pub open spec fn block_text(prefix: Seq<char>, body: Seq<char>, first: bool) -> Seq<char> {
    (if first {
        Seq::empty()
    } else {
        seq!['\n']
    }) + "["@ + prefix + "]\n"@ + body + (if body.len() > 0 && body.last() != '\n' {
        seq!['\n']
    } else {
        Seq::empty()
    })
}

/// Blocks one after another; only the very first of the whole output goes
/// without the blank line.
pub open spec fn blocks_text(bs: Seq<Block>, first: bool) -> Seq<char>
    decreases bs.len(),
{
    if bs.len() == 0 {
        Seq::empty()
    } else {
        blocks_text(bs.drop_last(), first) + block_text(bs.last().0, bs.last().1, first && bs.len() == 1)
    }
}

/// Lines joined with `\n` between them.
pub open spec fn joined(lines: Seq<Seq<char>>) -> Seq<char>
    decreases lines.len(),
{
    if lines.len() == 0 {
        Seq::empty()
    } else if lines.len() == 1 {
        lines[0]
    } else {
        joined(lines.drop_last()) + seq!['\n'] + lines.last()
    }
}

/// The traceback's entries without their escape sequences.
pub open spec fn stripped_entries(tb: Seq<String>) -> Seq<Seq<char>> {
    tb.map_values(|t: String| stripped(t@))
}

/// `PNG WxH` when the payload decodes to a PNG; `PNG (size unknown)`
/// otherwise.
pub open spec fn image_body(b64: Seq<char>) -> Seq<char> {
    match base64_decoded(b64) {
        Some(bytes) => match png_dims(bytes) {
            Some((w, h)) => "PNG "@ + decimal(w as nat) + "x"@ + decimal(h as nat),
            None => "PNG (size unknown)"@,
        },
        None => "PNG (size unknown)"@,
    }
}

/// The blocks of one output: a stream under its name; a result as its
/// image, else its `text/plain`, else its `text/html`, else nothing; an
/// error as its traceback without escapes; nothing for an unknown output.
pub open spec fn output_blocks(out: Output) -> Seq<Block> {
    match out {
        Output::Stream { name, text } => seq![(stream_label(name), text@)],
        Output::ExecuteResult { data, .. } | Output::DisplayData { data } => match data.image_png {
            Some(b64) => seq![("image"@, image_body(b64@))],
            None => match data.text_plain {
                Some(t) => seq![("result"@, t@)],
                None => match data.text_html {
                    Some(h) => seq![("result"@, h@)],
                    None => Seq::empty(),
                },
            },
        },
        Output::Error { traceback, .. } => seq![("error"@, joined(stripped_entries(traceback@)))],
        Output::Unknown => Seq::empty(),
    }
}

/// The blocks of a list of outputs, in order.
pub open spec fn outputs_blocks(outs: Seq<Output>) -> Seq<Block>
    decreases outs.len(),
{
    if outs.len() == 0 {
        Seq::empty()
    } else {
        outputs_blocks(outs.drop_last()) + output_blocks(outs.last())
    }
}

/// The blocks of one cell: its source under its kind, then for a code cell
/// its outputs unless they are hidden; nothing for an unknown cell.
pub open spec fn cell_blocks(cell: Cell, no_output: bool) -> Seq<Block> {
    match cell {
        Cell::Markdown { source } => seq![("markdown"@, source@)],
        Cell::Code { source, outputs, .. } => seq![("code"@, source@)] + (if no_output {
            Seq::empty()
        } else {
            outputs_blocks(outputs@)
        }),
        Cell::Raw { source } => seq![("raw"@, source@)],
        Cell::Unknown => Seq::empty(),
    }
}

/// The blocks of cells `lo..hi`, skipping non-code cells under `code_only`.
pub open spec fn cells_blocks(cells: Seq<Cell>, lo: int, hi: int, no_output: bool, code_only: bool) -> Seq<Block>
    decreases hi - lo,
{
    if hi <= lo {
        Seq::empty()
    } else {
        cells_blocks(cells, lo, hi - 1, no_output, code_only) + (if code_only && !(cells[hi - 1] is Code) {
            Seq::empty()
        } else {
            cell_blocks(cells[hi - 1], no_output)
        })
    }
}

/// The cells a range selects: `start..end` cut at the notebook's end, all of
/// them without a range.
pub open spec fn selected(len: nat, range: Option<core::ops::Range<usize>>) -> (int, int) {
    match range {
        Some(r) => (r.start as int, if r.end <= len {
            r.end as int
        } else {
            len as int
        }),
        None => (0, len as int),
    }
}

/// Everything the plain renderer writes for a notebook.
pub open spec fn plain_text(nb: Notebook, range: Option<core::ops::Range<usize>>, no_output: bool, code_only: bool) -> Seq<char> {
    let (lo, hi) = selected(nb.cells@.len(), range);
    blocks_text(cells_blocks(nb.cells@, lo, hi, no_output, code_only), true)
}

/// Blocks written in two runs read as if written in one.
pub proof fn lemma_blocks_text_concat(a: Seq<Block>, b: Seq<Block>, first: bool)
    ensures
        blocks_text(a + b, first) == blocks_text(a, first) + blocks_text(b, first && a.len() == 0),
    decreases b.len(),
{
    if b.len() == 0 {
        assert(a + b =~= a);
    } else {
        lemma_blocks_text_concat(a, b.drop_last(), first);
        assert((a + b).drop_last() =~= a + b.drop_last());
    }
}

/// Write one prefixed block. Inserts a single blank line before every
/// block except the very first.
pub fn emit_block(prefix: &str, body: &str, first: &mut bool, out: &mut String)
    ensures
        final(out)@ == old(out)@ + block_text(prefix@, body@, *old(first)),
        !*final(first),
{
    proof {
        reveal_strlit("\n");
        reveal_strlit("[");
        reveal_strlit("]\n");
    }
    let ghost start = out@;
    let ghost first0 = *old(first);
    if !*first {
        out.append("\n");
    }
    *first = false;
    out.append("[");
    out.append(prefix);
    out.append("]\n");
    out.append(body);
    let v = crate::strs::chars_of(body);
    if v.len() > 0 && v[v.len() - 1] != '\n' {
        out.append("\n");
    }
    assert(out@ =~= start + block_text(prefix@, body@, first0));
}

fn image_body_exec(b64: &str) -> (r: String)
    ensures
        r@ == image_body(b64@),
{
    let dims = match b64_decode(b64) {
        Some(bytes) => dimensions(bytes.as_slice()),
        None => None,
    };
    match dims {
        Some((w, h)) => {
            let mut r = String::from_str("PNG ");
            push_decimal(&mut r, w as u64);
            r.append("x");
            push_decimal(&mut r, h as u64);
            r
        },
        None => String::from_str("PNG (size unknown)"),
    }
}

fn join_stripped(tb: &Vec<String>) -> (r: String)
    ensures
        r@ == joined(stripped_entries(tb@)),
{
    let ghost lines = stripped_entries(tb@);
    let mut r = String::new();
    let mut i: usize = 0;
    while i < tb.len()
        invariant
            i <= tb@.len(),
            lines == stripped_entries(tb@),
            r@ == joined(lines.subrange(0, i as int)),
        decreases tb@.len() - i,
    {
        proof {
            reveal_strlit("\n");
        }
        if i > 0 {
            r.append("\n");
        }
        let s = strip_ansi_pub(tb[i].as_str());
        r.append(s.as_str());
        proof {
            let sub = lines.subrange(0, i + 1);
            assert(sub.drop_last() =~= lines.subrange(0, i as int));
            assert(sub.last() == s@);
            if i == 0 {
                assert(joined(sub) == sub[0]);
            }
        }
        i += 1;
    }
    assert(lines.subrange(0, i as int) =~= lines);
    r
}

fn render_output_plain(out_item: &Output, first: &mut bool, out: &mut String)
    ensures
        final(out)@ == old(out)@ + blocks_text(output_blocks(*out_item), *old(first)),
        *final(first) == (*old(first) && output_blocks(*out_item).len() == 0),
{
    proof {
        reveal_with_fuel(blocks_text, 2);
    }
    match out_item {
        Output::Stream { name, text } => {
            emit_block(name.display_name(), text.as_str(), first, out);
        },
        Output::ExecuteResult { data, .. } | Output::DisplayData { data } => {
            if let Some(b64) = &data.image_png {
                let body = image_body_exec(b64.as_str());
                emit_block("image", body.as_str(), first, out);
                return ;
            }
            if let Some(t) = &data.text_plain {
                emit_block("result", t.as_str(), first, out);
                return ;
            }
            if let Some(h) = &data.text_html {
                emit_block("result", h.as_str(), first, out);
                return ;
            }
        },
        Output::Error { traceback, .. } => {
            let joined_tb = join_stripped(traceback);
            emit_block("error", joined_tb.as_str(), first, out);
        },
        Output::Unknown => {},
    }
}

fn render_cell_plain(cell: &Cell, no_output: bool, first: &mut bool, out: &mut String)
    ensures
        final(out)@ == old(out)@ + blocks_text(cell_blocks(*cell, no_output), *old(first)),
        *final(first) == (*old(first) && cell_blocks(*cell, no_output).len() == 0),
{
    proof {
        reveal_with_fuel(blocks_text, 2);
    }
    match cell {
        Cell::Markdown { source } => {
            emit_block("markdown", source.as_str(), first, out);
        },
        Cell::Code { source, outputs, .. } => {
            let ghost first0 = *first;
            let ghost start = out@;
            emit_block("code", source.as_str(), first, out);
            let ghost head: Seq<Block> = seq![("code"@, source@)];
            if !no_output {
                let mut i: usize = 0;
                while i < outputs.len()
                    invariant
                        i <= outputs@.len(),
                        head.len() == 1,
                        !*first,
                        out@ == start + blocks_text(head + outputs_blocks(outputs@.subrange(0, i as int)), first0),
                    decreases outputs@.len() - i,
                {
                    let ghost before = out@;
                    render_output_plain(&outputs[i], first, out);
                    proof {
                        let done = outputs_blocks(outputs@.subrange(0, i as int));
                        let more = output_blocks(outputs@[i as int]);
                        assert(outputs@.subrange(0, i + 1).drop_last() =~= outputs@.subrange(0, i as int));
                        assert(outputs@.subrange(0, i + 1).last() == outputs@[i as int]);
                        assert(outputs_blocks(outputs@.subrange(0, i + 1)) == done + more);
                        assert((head + done).len() >= 1);
                        lemma_blocks_text_concat(head + done, more, first0);
                        assert(head + done + more =~= head + (done + more));
                    }
                    i += 1;
                }
                assert(outputs@.subrange(0, i as int) =~= outputs@);
            } else {
                assert(head + Seq::<Block>::empty() =~= head);
            }
        },
        Cell::Raw { source } => {
            emit_block("raw", source.as_str(), first, out);
        },
        Cell::Unknown => {},
    }
}

/// Plain-text renderer: no frames, no color, no images.
/// Emits prefixed blocks (`[markdown]`, `[code]`, ...) separated by a
/// single blank line. Suitable for piping into an LLM or grep.
pub fn render_notebook_plain(
    nb: &Notebook,
    cells_range: Option<core::ops::Range<usize>>,
    no_output: bool,
    code_only: bool,
    out: &mut String,
)
    ensures
        final(out)@ == old(out)@ + plain_text(*nb, cells_range, no_output, code_only),
{
    let (lo, hi) = match cells_range {
        Some(r) => (r.start, if r.end <= nb.cells.len() {
            r.end
        } else {
            nb.cells.len()
        }),
        None => (0, nb.cells.len()),
    };
    let ghost start = out@;
    let mut first = true;
    let mut idx = lo;
    if idx < hi {
        while idx < hi
            invariant
                lo <= idx <= hi <= nb.cells@.len(),
                first == (cells_blocks(nb.cells@, lo as int, idx as int, no_output, code_only).len() == 0),
                out@ == start + blocks_text(cells_blocks(nb.cells@, lo as int, idx as int, no_output, code_only), true),
            decreases hi - idx,
        {
            let cell = &nb.cells[idx];
            let skip = code_only && !matches!(cell, Cell::Code { .. });
            let ghost done = cells_blocks(nb.cells@, lo as int, idx as int, no_output, code_only);
            if !skip {
                render_cell_plain(cell, no_output, &mut first, out);
                proof {
                    lemma_blocks_text_concat(done, cell_blocks(*cell, no_output), true);
                }
            } else {
                assert(done + Seq::<Block>::empty() =~= done);
            }
            idx += 1;
        }
    }
}


/// A range that reaches the notebook's end selects the same cells as no
/// range at all.
pub proof fn lemma_full_range(nb: Notebook, end: usize, no_output: bool, code_only: bool)
    requires
        end >= nb.cells@.len(),
    ensures
        plain_text(nb, Some(0..end), no_output, code_only) == plain_text(nb, None, no_output, code_only),
        selected(nb.cells@.len(), Some(0..end)) == selected(nb.cells@.len(), None),
{
}

/// A range that starts at or past the notebook's end renders nothing.
pub proof fn lemma_range_past_end(nb: Notebook, start: usize, end: usize, no_output: bool, code_only: bool)
    requires
        start >= nb.cells@.len(),
    ensures
        plain_text(nb, Some(start..end), no_output, code_only) == Seq::<char>::empty(),
{
}

} // verus!

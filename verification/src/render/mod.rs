//! Notebook rendering: framed cells, outputs, tables, images.

pub mod code;
pub mod document;
pub mod frame;
pub mod html_table;
pub mod image;
pub mod markdown;
pub mod output;
pub mod pad;
pub mod plain;
pub mod reflow;
pub mod sink;
pub mod table;
pub mod text;
pub mod traceback;

use vstd::prelude::*;

use crate::env::RenderCtx;
use crate::ipynb::model::{Cell, Notebook, Output};
use crate::render::code::{code_emitted, Highlighting};
use crate::render::frame::{close, close_text, open, open_text, wrap_line, wrap_line_text};
use crate::render::markdown::{blocks_emitted, markdown_events, md_blocks};
use crate::render::output::output_text;
use crate::render::plain::{plain_text, render_notebook_plain};
use crate::render::sink::BoxedSink;
use crate::render::text::text_block;
use crate::strs::{decimal, push_decimal};
use crate::theme::{bold_colored, colorize_code_header, colorize_markdown_header, dim, dimmed, FG_BLUE, FG_CYAN};

verus! {

/// Render-time filtering decisions, resolved by the program after flag/env
/// precedence and after applying implications (`--code-only` ⟹ `--no-output`).
pub struct RenderFilters {
    /// 0-based half-open cell range. `None` = all cells.
    pub cells_range: Option<core::ops::Range<usize>>,
    /// Skip the `outputs[]` of every code cell.
    pub no_output: bool,
    /// Only render `Cell::Code`; drop everything else.
    pub code_only: bool,
    /// Use the plain-text render path instead of box-drawing.
    pub plain: bool,
}

impl RenderFilters {
    /// The filters for the command-line flags: `cells` is the 1-based
    /// inclusive `--cells` range, turned 0-based and half-open;
    /// `--code-only` implies `--no-output`.
    pub fn from_flags(cells: Option<(usize, usize)>, no_output: bool, code_only: bool, plain: bool) -> (f: Self)
        requires
            cells matches Some(c) ==> 1 <= c.0,
        ensures
            f.cells_range matches Some(r) ==> cells matches Some(c) && r.start == c.0 - 1 && r.end == c.1,
            f.cells_range is None <==> cells is None,
            f.no_output == (no_output || code_only),
            f.code_only == code_only,
            f.plain == plain,
    {
        let cells_range = match cells {
            Some((start, end)) => Some(core::ops::Range { start: start - 1, end }),
            None => None,
        };
        RenderFilters { cells_range, no_output: no_output || code_only, code_only, plain }
    }
}

impl Default for RenderFilters {
    fn default() -> (f: Self)
        ensures
            f.cells_range is None,
            !f.no_output,
            !f.code_only,
            !f.plain,
    {
        RenderFilters { cells_range: None, no_output: false, code_only: false, plain: false }
    }
}

/// The notebook's language: the kernel's, else the language info's, else
/// Python.
pub open spec fn notebook_lang(nb: Notebook) -> Seq<char> {
    match nb.metadata.kernelspec {
        Some(k) if k.language is Some => k.language->0@,
        _ => match nb.metadata.language_info {
            Some(l) => l.name@,
            None => "python"@,
        },
    }
}

/// A code cell's label: `In [n] ── code (lang)`, with a blank for a cell
/// never run.
pub open spec fn code_label(exec_count: Option<u64>, lang: Seq<char>) -> Seq<char> {
    "In ["@ + match exec_count {
        Some(n) => decimal(n as nat),
        None => " "@,
    } + "] ── code ("@ + lang + ")"@
}

/// The outputs of a code cell, each in its box.
pub open spec fn outputs_text(outs: Seq<crate::ipynb::model::Output>, cell_idx: usize, ctx: RenderCtx) -> Seq<char>
    decreases outs.len(),
{
    if outs.len() == 0 {
        Seq::empty()
    } else {
        outputs_text(outs.drop_last(), cell_idx, ctx) + output_text(
            outs.last(),
            cell_idx,
            (outs.len() - 1) as usize,
            ctx,
        )
    }
}

/// What `render_cell` writes: the cell's box — a code cell's highlighted
/// source and then its outputs unless they are hidden; a Markdown cell's
/// rendered events; a raw cell's text; a `(skipped)` line for an unknown
/// cell.
pub open spec fn cell_piece(piece: Seq<char>, cell: Cell, idx: usize, lang: Seq<char>, ctx: RenderCtx, hl: Highlighting, no_output: bool) -> bool {
    match cell {
        Cell::Code { source, outputs, execution_count } => exists|body: Seq<char>|
            #[trigger] code_emitted::<BoxedSink>(Seq::empty(), body, source@, lang, hl, ctx) && piece == open_text(
                bold_colored(FG_CYAN@, code_label(execution_count, lang), ctx.use_color),
                ctx,
            ) + body + close_text(ctx) + (if no_output {
                Seq::empty()
            } else {
                outputs_text(outputs@, idx, ctx)
            }),
        Cell::Markdown { source } => exists|body: Seq<char>|
            #[trigger] blocks_emitted::<BoxedSink>(
                Seq::empty(),
                body,
                md_blocks(markdown_events(source@), ctx.use_color, ctx.width),
                ctx,
                hl,
            ) && piece == open_text(bold_colored(FG_BLUE@, "markdown"@, ctx.use_color), ctx) + body + close_text(ctx),
        Cell::Raw { source } => piece == open_text(dimmed("raw"@, ctx.use_color), ctx) + text_block(source@, ctx)
            + close_text(ctx),
        Cell::Unknown => piece == open_text(dimmed("Unknown cell"@, ctx.use_color), ctx) + wrap_line_text(
            "(skipped)"@,
            ctx,
        ) + close_text(ctx),
    }
}

/// Whether `after` is `before` followed by a piece that `ok` accepts.
pub open spec fn appended(before: Seq<char>, after: Seq<char>) -> bool {
    before.len() <= after.len() && after.subrange(0, before.len() as int) == before
}

pub open spec fn added(before: Seq<char>, after: Seq<char>) -> Seq<char> {
    after.subrange(before.len() as int, after.len() as int)
}

fn code_label_exec(exec_count: Option<u64>, lang: &str) -> (r: String)
    ensures
        r@ == code_label(exec_count, lang@),
{
    let mut label = String::from_str("In [");
    match exec_count {
        Some(n) => push_decimal(&mut label, n),
        None => label.append(" "),
    }
    label.append("] ── code (");
    label.append(lang);
    label.append(")");
    label
}

/// Render one cell in its box. Returns whether the cell was of an unknown
/// type (the caller warns about it).
pub fn render_cell(
    cell: &Cell,
    idx: usize,
    lang: &str,
    ctx: &RenderCtx,
    hl: &Highlighting,
    no_output: bool,
    out: &mut String,
) -> (unknown: bool)
    ensures
        unknown == (*cell is Unknown),
        appended(old(out)@, final(out)@),
        cell_piece(added(old(out)@, final(out)@), *cell, idx, lang@, *ctx, *hl, no_output),
{
    let ghost start = out@;
    let mut piece = String::new();
    let unknown = match cell {
        Cell::Code { source, outputs, execution_count } => {
            let label = code_label_exec(*execution_count, lang);
            let label = colorize_code_header(label.as_str(), ctx.use_color);
            open(label.as_str(), ctx, &mut piece);
            let mut sink = BoxedSink::new(String::new());
            crate::render::code::render(source.as_str(), lang, ctx, hl, &mut sink);
            let body = sink.into_string();
            piece.append(body.as_str());
            close(ctx, &mut piece);
            let ghost mid = piece@;
            if !no_output {
                let mut i: usize = 0;
                while i < outputs.len()
                    invariant
                        i <= outputs@.len(),
                        piece@ == mid + outputs_text(outputs@.subrange(0, i as int), idx, *ctx),
                    decreases outputs@.len() - i,
                {
                    crate::render::output::render(&outputs[i], idx, i, ctx, &mut piece);
                    proof {
                        let sub = outputs@.subrange(0, i + 1);
                        assert(sub.drop_last() =~= outputs@.subrange(0, i as int));
                        assert(sub.last() == outputs@[i as int]);
                    }
                    i += 1;
                }
                assert(outputs@.subrange(0, i as int) =~= outputs@);
            } else {
                assert(mid + Seq::<char>::empty() =~= mid);
            }
            assert(code_emitted::<BoxedSink>(Seq::empty(), body@, source@, lang@, *hl, *ctx));
            false
        },
        Cell::Markdown { source } => {
            let label = colorize_markdown_header("markdown", ctx.use_color);
            open(label.as_str(), ctx, &mut piece);
            let mut sink = BoxedSink::new(String::new());
            crate::render::markdown::render(source.as_str(), ctx, hl, &mut sink);
            let body = sink.into_string();
            piece.append(body.as_str());
            close(ctx, &mut piece);
            assert(blocks_emitted::<BoxedSink>(
                Seq::empty(),
                body@,
                md_blocks(markdown_events(source@), ctx.use_color, ctx.width),
                *ctx,
                *hl,
            ));
            false
        },
        Cell::Raw { source } => {
            let label = dim("raw", ctx.use_color);
            open(label.as_str(), ctx, &mut piece);
            crate::render::text::render(source.as_str(), ctx, &mut piece);
            close(ctx, &mut piece);
            false
        },
        Cell::Unknown => {
            let label = dim("Unknown cell", ctx.use_color);
            open(label.as_str(), ctx, &mut piece);
            wrap_line("(skipped)", ctx, &mut piece);
            close(ctx, &mut piece);
            true
        },
    };
    out.append(piece.as_str());
    proof {
        assert(added(start, out@) =~= piece@);
        assert(out@.subrange(0, start.len() as int) =~= start);
    }
    unknown
}

/// The pieces, one after another.
pub open spec fn concat(pieces: Seq<Seq<char>>) -> Seq<char>
    decreases pieces.len(),
{
    if pieces.len() == 0 {
        Seq::empty()
    } else {
        concat(pieces.drop_last()) + pieces.last()
    }
}

/// Whether `piece` is what cell `i` contributes: nothing for a non-code
/// cell under `code_only`, its box otherwise.
pub open spec fn selected_piece(
    piece: Seq<char>,
    cells: Seq<Cell>,
    i: int,
    lang: Seq<char>,
    ctx: RenderCtx,
    hl: Highlighting,
    no_output: bool,
    code_only: bool,
) -> bool {
    if code_only && !(cells[i] is Code) {
        piece == Seq::<char>::empty()
    } else {
        cell_piece(piece, cells[i], i as usize, lang, ctx, hl, no_output)
    }
}

/// Cells `lo..hi` rendered one after another.
pub open spec fn cells_rendered(
    before: Seq<char>,
    after: Seq<char>,
    cells: Seq<Cell>,
    lo: int,
    hi: int,
    lang: Seq<char>,
    ctx: RenderCtx,
    hl: Highlighting,
    no_output: bool,
    code_only: bool,
) -> bool {
    exists|pieces: Seq<Seq<char>>|
        {
            &&& pieces.len() == (if hi > lo {
                hi - lo
            } else {
                0
            })
            &&& after == before + #[trigger] concat(pieces)
            &&& forall|k: int|
                0 <= k < pieces.len() ==> selected_piece(#[trigger] pieces[k], cells, lo + k, lang, ctx, hl, no_output, code_only)
        }
}

/// The indices of the unknown cells among cells `lo..hi` that are rendered.
pub open spec fn unknown_cells(cells: Seq<Cell>, lo: int, hi: int, code_only: bool) -> Seq<usize>
    decreases hi - lo,
{
    if hi <= lo {
        Seq::empty()
    } else {
        let rest = unknown_cells(cells, lo, hi - 1, code_only);
        if !code_only && cells[hi - 1] is Unknown {
            rest.push((hi - 1) as usize)
        } else {
            rest
        }
    }
}

fn notebook_lang_exec(nb: &Notebook) -> (r: String)
    ensures
        r@ == notebook_lang(*nb),
{
    if let Some(k) = &nb.metadata.kernelspec {
        if let Some(l) = &k.language {
            return String::from_str(l.as_str());
        }
    }
    match &nb.metadata.language_info {
        Some(l) => String::from_str(l.name.as_str()),
        None => String::from_str("python"),
    }
}

/// Render the whole notebook, cell by cell; with `plain`, as plain text.
/// Returns the indices of the cells skipped for an unknown type, for the
/// caller to warn about.
pub fn render_notebook(nb: &Notebook, filters: &RenderFilters, ctx: &RenderCtx, hl: &Highlighting, out: &mut String) -> (skipped: Vec<usize>)
    ensures
        filters.plain ==> final(out)@ == old(out)@ + plain_text(*nb, filters.cells_range, filters.no_output, filters.code_only)
            && skipped@.len() == 0,
        !filters.plain ==> {
            let (lo, hi) = crate::render::plain::selected(nb.cells@.len(), filters.cells_range);
            &&& cells_rendered(old(out)@, final(out)@, nb.cells@, lo, hi, notebook_lang(*nb), *ctx, *hl, filters.no_output, filters.code_only)
            &&& skipped@ == unknown_cells(nb.cells@, lo, hi, filters.code_only)
        },
{
    if filters.plain {
        let range = match &filters.cells_range {
            Some(r) => Some(r.start..r.end),
            None => None,
        };
        render_notebook_plain(nb, range, filters.no_output, filters.code_only, out);
        return Vec::new();
    }
    let lang = notebook_lang_exec(nb);
    let (lo, hi) = match &filters.cells_range {
        Some(r) => (r.start, if r.end <= nb.cells.len() {
            r.end
        } else {
            nb.cells.len()
        }),
        None => (0, nb.cells.len()),
    };
    let ghost start = out@;
    let mut skipped: Vec<usize> = Vec::new();
    if lo >= hi {
        assert(cells_rendered(out@, out@, nb.cells@, lo as int, hi as int, lang@, *ctx, *hl, filters.no_output, filters.code_only)) by {
            assert(concat(Seq::<Seq<char>>::empty()) =~= Seq::<char>::empty());
            assert(out@ =~= out@ + concat(Seq::<Seq<char>>::empty()));
        }
        return skipped;
    }
    let mut idx = lo;
    let ghost mut pieces: Seq<Seq<char>> = Seq::empty();
    while idx < hi
        invariant
            lo <= idx <= hi <= nb.cells@.len(),
            pieces.len() == idx - lo,
            out@ == start + concat(pieces),
            forall|k: int|
                0 <= k < pieces.len() ==> selected_piece(#[trigger] pieces[k], nb.cells@, lo + k, lang@, *ctx, *hl, filters.no_output, filters.code_only),
            skipped@ == unknown_cells(nb.cells@, lo as int, idx as int, filters.code_only),
            lang@ == notebook_lang(*nb),
        decreases hi - idx,
    {
        let ghost mid = out@;
        let cell = &nb.cells[idx];
        if filters.code_only && !matches!(cell, Cell::Code { .. }) {
            proof {
                let old_p = pieces;
                pieces = pieces.push(Seq::empty());
                assert(pieces.drop_last() =~= old_p);
                assert(concat(pieces) =~= concat(old_p));
            }
        } else {
            let unknown = render_cell(cell, idx, lang.as_str(), ctx, hl, filters.no_output, out);
            if unknown {
                skipped.push(idx);
            }
            proof {
                let old_p = pieces;
                let piece = added(mid, out@);
                pieces = pieces.push(piece);
                assert(pieces.drop_last() =~= old_p);
                assert(out@ =~= mid + piece);
                assert(pieces[pieces.len() - 1] == piece);
            }
        }
        idx += 1;
    }
    assert(cells_rendered(start, out@, nb.cells@, lo as int, hi as int, lang@, *ctx, *hl, filters.no_output, filters.code_only));
    skipped
}


/// The outputs among `outs[..n]` of unknown type, as (cell, output) index
/// pairs.
pub open spec fn unknown_in(outs: Seq<Output>, cell_idx: usize, n: int) -> Seq<(usize, usize)>
    decreases n,
{
    if n <= 0 {
        Seq::empty()
    } else {
        let rest = unknown_in(outs, cell_idx, n - 1);
        if outs[n - 1] is Unknown {
            rest.push((cell_idx, (n - 1) as usize))
        } else {
            rest
        }
    }
}

/// The outputs of unknown type that the box-drawn path draws as
/// `(skipped)` in cells `lo..hi`: none when outputs are hidden.
pub open spec fn unknown_outputs_in(cells: Seq<Cell>, lo: int, hi: int, no_output: bool) -> Seq<(usize, usize)>
    decreases hi - lo,
{
    if hi <= lo {
        Seq::empty()
    } else {
        let rest = unknown_outputs_in(cells, lo, hi - 1, no_output);
        match cells[hi - 1] {
            Cell::Code { outputs, .. } => if no_output {
                rest
            } else {
                rest + unknown_in(outputs@, (hi - 1) as usize, outputs@.len() as int)
            },
            _ => rest,
        }
    }
}

/// The (cell, output) indices of the outputs of unknown type that
/// `render_notebook` draws as `(skipped)`, for the caller to warn about.
/// The plain path skips them silently, so it reports none.
pub fn unknown_outputs(nb: &Notebook, filters: &RenderFilters) -> (r: Vec<(usize, usize)>)
    ensures
        r@ == (if filters.plain {
            Seq::empty()
        } else {
            let (lo, hi) = crate::render::plain::selected(nb.cells@.len(), filters.cells_range);
            unknown_outputs_in(nb.cells@, lo, hi, filters.no_output)
        }),
{
    let mut r: Vec<(usize, usize)> = Vec::new();
    if filters.plain {
        return r;
    }
    let (lo, hi) = match &filters.cells_range {
        Some(rg) => (rg.start, if rg.end <= nb.cells.len() {
            rg.end
        } else {
            nb.cells.len()
        }),
        None => (0, nb.cells.len()),
    };
    if lo >= hi {
        return r;
    }
    let mut idx = lo;
    while idx < hi
        invariant
            lo <= idx <= hi <= nb.cells@.len(),
            r@ == unknown_outputs_in(nb.cells@, lo as int, idx as int, filters.no_output),
        decreases hi - idx,
    {
        match &nb.cells[idx] {
            Cell::Code { outputs, .. } => {
                if !filters.no_output {
                    let ghost before = r@;
                    let mut k: usize = 0;
                    while k < outputs.len()
                        invariant
                            k <= outputs@.len(),
                            r@ == before + unknown_in(outputs@, idx, k as int),
                        decreases outputs@.len() - k,
                    {
                        if matches!(outputs[k], Output::Unknown) {
                            r.push((idx, k));
                        }
                        proof {
                            assert(unknown_in(outputs@, idx, k + 1) == (if outputs@[k as int] is Unknown {
                                unknown_in(outputs@, idx, k as int).push((idx, k))
                            } else {
                                unknown_in(outputs@, idx, k as int)
                            }));
                        }
                        k += 1;
                    }
                }
            },
            _ => {},
        }
        idx += 1;
    }
    r
}

} // verus!

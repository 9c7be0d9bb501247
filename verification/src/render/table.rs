//! Box-drawn terminal tables, shared by GFM markdown tables and pandas
//! DataFrame `text/html` outputs.

use vstd::prelude::*;

use crate::env::RenderCtx;
use crate::escape::{lemma_newlines_concat, newlines, no_newline, repeat, spaces};
use crate::render::frame::{clamp_usize, sat_sub};
use crate::render::frame::wrap_line_text;
use crate::render::sink::{BoxedSink, LineSink};
use crate::render::pad::push_spaces;
use crate::strs::{chars_of, decimal, decimal_string, lemma_decimal_len, push_char, push_repeat};
use crate::theme::{BOLD, DIM, RESET};
use crate::width::{char_cols, char_cols_exec, spec_str_width, str_width};

verus! {

/// Per-column text alignment.
#[derive(Debug, Clone, Copy, PartialEq, Eq, Structural)]
pub enum Align {
    Left,
    Center,
    Right,
}

/// A rectangular table: one header row, N body rows, per-column alignment.
/// Construct with `Table::new`, which guarantees every row and `align` are
/// exactly `headers.len()` wide.
pub struct Table {
    pub headers: Vec<String>,
    pub rows: Vec<Vec<String>>,
    pub align: Vec<Align>,
}

/// The texts of a list of strings.
pub open spec fn texts(v: Seq<String>) -> Seq<Seq<char>> {
    v.map_values(|s: String| s@)
}

/// The texts of a list of rows.
pub open spec fn row_texts(rows: Seq<Vec<String>>) -> Seq<Seq<Seq<char>>> {
    rows.map_values(|r: Vec<String>| texts(r@))
}

impl Table {
    /// Every body row and the alignment have exactly one entry per header.
    pub open spec fn wf(&self) -> bool {
        &&& self.align@.len() == self.headers@.len()
        &&& forall|r: int| 0 <= r < self.rows@.len() ==> #[trigger] self.rows@[r]@.len() == self.headers@.len()
    }
}

/// `row` padded with empty cells or cut so it has exactly `ncols` entries.
pub open spec fn normalized_row(row: Seq<Seq<char>>, ncols: nat) -> Seq<Seq<char>> {
    if row.len() < ncols {
        row + Seq::new((ncols - row.len()) as nat, |_k: int| Seq::<char>::empty())
    } else {
        row.subrange(0, ncols as int)
    }
}

/// `align` padded with `Left` or cut so it has exactly `ncols` entries.
pub open spec fn normalized_align(align: Seq<Align>, ncols: nat) -> Seq<Align> {
    if align.len() < ncols {
        align + Seq::new((ncols - align.len()) as nat, |_k: int| Align::Left)
    } else {
        align.subrange(0, ncols as int)
    }
}

/// Pad `row` with empty cells or truncate it so it has exactly `ncols` entries.
pub(crate) fn normalize_row(row: &mut Vec<String>, ncols: usize)
    ensures
        texts(final(row)@) == normalized_row(texts(old(row)@), ncols as nat),
        final(row)@.len() == ncols,
{
    if row.len() < ncols {
        let ghost before = row@;
        let empty = String::new();
        let ghost e = empty;
        row.resize(ncols, empty);
        assert forall|k: int| before.len() <= k < ncols implies row@[k]@ == Seq::<char>::empty() by {
            assert(cloned::<String>(e, row@[k]));
        }
        assert(texts(row@) =~= normalized_row(texts(before), ncols as nat)) by {
            assert forall|k: int| 0 <= k < before.len() implies row@[k] == before[k] by {
                assert(row@.subrange(0, before.len() as int)[k] == row@[k]);
            }
        }
    } else {
        row.truncate(ncols);
        assert(texts(row@) =~= normalized_row(texts(old(row)@), ncols as nat));
    }
}

impl Table {
    /// Build a `Table`, normalizing every body row and the alignment vector to
    /// `headers.len()` columns: short rows are padded with empty cells, long
    /// rows truncated; a short `align` is padded with `Align::Left`.
    pub fn new(headers: Vec<String>, rows: Vec<Vec<String>>, align: Vec<Align>) -> (t: Table)
        ensures
            t.wf(),
            texts(t.headers@) == texts(headers@),
            t.rows@.len() == rows@.len(),
            forall|r: int|
                0 <= r < rows@.len() ==> #[trigger] texts(t.rows@[r]@) == normalized_row(
                    texts(rows@[r]@),
                    headers@.len(),
                ),
            t.align@ == normalized_align(align@, headers@.len()),
    {
        let ncols = headers.len();
        let mut rows = rows;
        let ghost orig = rows@;
        let mut i: usize = 0;
        while i < rows.len()
            invariant
                rows@.len() == orig.len(),
                i <= rows@.len(),
                ncols == headers@.len(),
                forall|r: int|
                    0 <= r < i ==> #[trigger] texts(rows@[r]@) == normalized_row(texts(orig[r]@), ncols as nat)
                        && rows@[r]@.len() == ncols,
                forall|r: int| i <= r < rows@.len() ==> #[trigger] rows@[r] == orig[r],
            decreases orig.len() - i,
        {
            normalize_row(&mut rows[i], ncols);
            i += 1;
        }
        assert forall|r: int| 0 <= r < rows@.len() implies #[trigger] rows@[r]@.len() == ncols by {
            assert(texts(rows@[r]@) == normalized_row(texts(orig[r]@), ncols as nat));
        }
        let mut align = align;
        let ghost orig_align = align@;
        if align.len() < ncols {
            align.resize(ncols, Align::Left);
            assert(align@ =~= normalized_align(orig_align, ncols as nat)) by {
                assert forall|k: int| orig_align.len() <= k < ncols implies align@[k] == Align::Left by {
                    assert(cloned::<Align>(Align::Left, align@[k]));
                }
                assert forall|k: int| 0 <= k < orig_align.len() implies align@[k] == orig_align[k] by {
                    assert(align@.subrange(0, orig_align.len() as int)[k] == align@[k]);
                }
            }
        } else {
            align.truncate(ncols);
        }
        assert(align@.len() == ncols);
        Table { headers, rows, align }
    }
}

/// The characters of `s[i..]` that fit in `budget` columns when `used` are
/// already filled, stopping before the first one that would overflow.
pub open spec fn fit_prefix(s: Seq<char>, i: int, used: nat, budget: nat) -> Seq<char>
    decreases s.len() - i,
{
    if i < 0 || i >= s.len() || used + char_cols(s[i]) > budget {
        Seq::empty()
    } else {
        seq![s[i]] + fit_prefix(s, i + 1, used + char_cols(s[i]), budget)
    }
}

/// `s` cut to `width` display columns with a trailing `…` when it does not fit.
pub open spec fn truncated_cell(s: Seq<char>, width: nat) -> Seq<char> {
    if spec_str_width(s) <= width {
        s
    } else if width == 0 {
        Seq::empty()
    } else {
        fit_prefix(s, 0, 0, (width - 1) as nat) + seq!['…']
    }
}

/// Truncate `s` to at most `width` display columns, appending `…` if it was cut.
/// Unicode-width aware: a CJK char counts as 2 columns.
pub fn truncate_cell(s: &str, width: usize) -> (r: String)
    ensures
        r@ == truncated_cell(s@, width as nat),
{
    if str_width(s) <= width {
        return String::from_str(s);
    }
    if width == 0 {
        return String::new();
    }
    let budget = width - 1;
    let v = chars_of(s);
    let mut out = String::new();
    let mut used: usize = 0;
    let mut i: usize = 0;
    while i < v.len()
        invariant_except_break
            i <= v@.len(),
            used <= budget,
            out@ + fit_prefix(v@, i as int, used as nat, budget as nat) == fit_prefix(v@, 0, 0, budget as nat),
        ensures
            out@ == fit_prefix(v@, 0, 0, budget as nat),
        decreases v@.len() - i,
    {
        let cw = char_cols_exec(v[i]);
        if cw > budget - used {
            break;
        }
        let ghost rest = fit_prefix(v@, i + 1, (used + cw) as nat, budget as nat);
        push_char(&mut out, v[i]);
        used += cw;
        i += 1;
        assert(out@ + rest =~= fit_prefix(v@, 0, 0, budget as nat));
    }
    push_char(&mut out, '…');
    out
}

/// `s` padded to `width` display columns according to `align`; unchanged
/// when it is already that wide.
pub open spec fn padded_cell(s: Seq<char>, width: nat, align: Align) -> Seq<char> {
    let w = spec_str_width(s);
    if w >= width {
        s
    } else {
        let pad = (width - w) as nat;
        match align {
            Align::Left => s + spaces(pad),
            Align::Right => spaces(pad) + s,
            Align::Center => spaces(pad / 2) + s + spaces((pad - pad / 2) as nat),
        }
    }
}

/// Pad `s` to exactly `width` display columns according to `align`.
/// Assumes `s` already fits within `width` (the caller truncates first).
pub fn pad_cell(s: &str, width: usize, align: Align) -> (r: String)
    ensures
        r@ == padded_cell(s@, width as nat, align),
{
    let w = str_width(s);
    if w >= width {
        return String::from_str(s);
    }
    let pad = width - w;
    let mut out = String::new();
    match align {
        Align::Left => {
            out.append(s);
            push_spaces(&mut out, pad);
        },
        Align::Right => {
            push_spaces(&mut out, pad);
            out.append(s);
        },
        Align::Center => {
            let left = pad / 2;
            push_spaces(&mut out, left);
            out.append(s);
            push_spaces(&mut out, pad - left);
        },
    }
    out
}

/// Largest natural width a single column is allowed before shrinking kicks in.
pub const MAX_COL: usize = 40;

/// Smallest width a column may be shrunk to before columns get dropped instead.
pub const MIN_COL: usize = 5;

/// Result of fitting a table's columns to a width budget.
pub struct Fit {
    /// Final display width of each kept column.
    pub widths: Vec<usize>,
    /// Number of columns dropped from the right (0 if all fit).
    pub dropped: usize,
}

/// Total rendered width of a table whose columns have the given widths:
/// a leading `│`, then `" {content} │"` (content + 3) per column.
pub open spec fn rendered_width_spec(ws: Seq<usize>) -> nat
    decreases ws.len(),
{
    if ws.len() == 0 {
        1
    } else {
        rendered_width_spec(ws.drop_last()) + ws.last() as nat + 3
    }
}

/// Total rendered width of a table whose columns have the given widths.
pub fn rendered_width(widths: &Vec<usize>) -> (r: usize)
    ensures
        r == clamp_usize(rendered_width_spec(widths@)),
{
    let mut total: usize = 1;
    let mut i: usize = 0;
    while i < widths.len()
        invariant
            i <= widths@.len(),
            total == clamp_usize(rendered_width_spec(widths@.subrange(0, i as int))),
        decreases widths@.len() - i,
    {
        assert(widths@.subrange(0, i + 1).drop_last() =~= widths@.subrange(0, i as int));
        total = total.saturating_add(widths[i]).saturating_add(3);
        i += 1;
    }
    assert(widths@.subrange(0, i as int) =~= widths@);
    total
}

/// The widest display width among a column's body cells.
pub open spec fn max_cell_width(rows: Seq<Seq<Seq<char>>>, c: int) -> nat
    decreases rows.len(),
{
    if rows.len() == 0 {
        0
    } else {
        let prev = max_cell_width(rows.drop_last(), c);
        let w = spec_str_width(rows.last()[c]) as nat;
        if w > prev {
            w
        } else {
            prev
        }
    }
}

/// A column's natural width: its widest cell or header, between 1 and `MAX_COL`.
pub open spec fn natural_width(headers: Seq<Seq<char>>, rows: Seq<Seq<Seq<char>>>, c: int) -> usize {
    let h = spec_str_width(headers[c]) as nat;
    let m = max_cell_width(rows, c);
    let w = if h > m {
        h
    } else {
        m
    };
    if w < 1 {
        1
    } else if w > MAX_COL {
        MAX_COL
    } else {
        w as usize
    }
}

/// The natural widths of every column.
pub open spec fn natural_widths(headers: Seq<Seq<char>>, rows: Seq<Seq<Seq<char>>>) -> Seq<usize> {
    Seq::new(headers.len(), |c: int| natural_width(headers, rows, c))
}

/// The widest column (the last one on ties) among the first `n` that is
/// still wider than `MIN_COL`.
pub open spec fn widest_in(ws: Seq<usize>, n: int) -> Option<int>
    decreases n,
{
    if n <= 0 || n > ws.len() {
        None
    } else {
        let prev = widest_in(ws, n - 1);
        if ws[n - 1] > MIN_COL && (prev is None || ws[n - 1] >= ws[prev->0]) {
            Some(n - 1)
        } else {
            prev
        }
    }
}

pub proof fn lemma_widest_in(ws: Seq<usize>, n: int)
    requires
        0 <= n <= ws.len(),
    ensures
        widest_in(ws, n) matches Some(i) ==> (0 <= i < n && n <= ws.len() && ws[i] > MIN_COL),
        widest_in(ws, n) is None ==> forall|k: int| 0 <= k < n && k < ws.len() ==> ws[k] <= MIN_COL,
    decreases n,
{
    if 0 < n {
        lemma_widest_in(ws, n - 1);
    }
}

/// The column each shrinking step narrows is a widest one among those
/// wider than `MIN_COL` — the last such, as `max_by_key` picks — and there
/// is one exactly when some column is wider than `MIN_COL`.
pub proof fn lemma_widest_is_widest(ws: Seq<usize>, n: int)
    requires
        0 <= n <= ws.len(),
    ensures
        widest_in(ws, n) matches Some(i) ==> {
            &&& 0 <= i < n
            &&& ws[i] > MIN_COL
            &&& forall|k: int| 0 <= k < n && #[trigger] ws[k] > MIN_COL ==> ws[k] <= ws[i]
            &&& forall|k: int| i < k < n && #[trigger] ws[k] > MIN_COL ==> ws[k] < ws[i]
        },
        widest_in(ws, n) is None <==> forall|k: int| 0 <= k < n ==> #[trigger] ws[k] <= MIN_COL,
    decreases n,
{
    if 0 < n {
        lemma_widest_is_widest(ws, n - 1);
        let prev = widest_in(ws, n - 1);
        if ws[n - 1] > MIN_COL && (prev is None || ws[n - 1] >= ws[prev->0]) {
            assert(widest_in(ws, n) == Some(n - 1));
        } else {
            assert(widest_in(ws, n) == prev);
        }
    }
}

/// Narrowing one column by one column narrows the table by one.
pub proof fn lemma_rendered_width_update(ws: Seq<usize>, i: int, w: usize)
    requires
        0 <= i < ws.len(),
    ensures
        rendered_width_spec(ws.update(i, w)) + ws[i] == rendered_width_spec(ws) + w,
    decreases ws.len(),
{
    let u = ws.update(i, w);
    if i == ws.len() - 1 {
        assert(u.drop_last() =~= ws.drop_last());
    } else {
        lemma_rendered_width_update(ws.drop_last(), i, w);
        assert(u.drop_last() =~= ws.drop_last().update(i, w));
    }
}

/// Repeatedly narrow the widest column wider than `MIN_COL` until the table
/// fits `budget` or every column is at most `MIN_COL`.
pub open spec fn shrink(ws: Seq<usize>, budget: nat) -> Seq<usize>
    decreases rendered_width_spec(ws),
{
    if clamp_usize(rendered_width_spec(ws)) <= budget {
        ws
    } else {
        match widest_in(ws, ws.len() as int) {
            None => ws,
            Some(i) => {
                if 0 <= i < ws.len() && ws[i] > 0 {
                    proof {
                        lemma_rendered_width_update(ws, i, (ws[i] - 1) as usize);
                    }
                    shrink(ws.update(i, (ws[i] - 1) as usize), budget)
                } else {
                    ws
                }
            },
        }
    }
}

/// Columns of the `+N` indicator that replaces `dropped` columns.
pub open spec fn indicator_width(dropped: nat) -> nat {
    decimal(dropped).len() + 1 + 3
}

/// Drop columns from the right until the kept ones plus a `+N` indicator
/// fit `budget`, keeping at least one column.
pub open spec fn drop_columns(ws: Seq<usize>, dropped: nat, budget: nat) -> (Seq<usize>, nat)
    decreases ws.len(),
{
    if ws.len() <= 1 {
        (ws, dropped)
    } else {
        let kept = ws.drop_last();
        let d = dropped + 1;
        if clamp_usize(rendered_width_spec(kept) + indicator_width(d)) <= budget {
            (kept, d)
        } else {
            drop_columns(kept, d, budget)
        }
    }
}

/// Per-column display widths that fit a table into `budget` columns, and
/// how many columns were dropped from the right.
pub open spec fn fit_spec(headers: Seq<Seq<char>>, rows: Seq<Seq<Seq<char>>>, budget: nat) -> (
    Seq<usize>,
    nat,
) {
    if headers.len() == 0 {
        (Seq::empty(), 0)
    } else {
        let natural = natural_widths(headers, rows);
        if clamp_usize(rendered_width_spec(natural)) <= budget {
            (natural, 0)
        } else {
            let narrowed = shrink(natural, budget);
            if clamp_usize(rendered_width_spec(narrowed)) <= budget {
                (narrowed, 0)
            } else {
                drop_columns(narrowed, 0, budget)
            }
        }
    }
}

/// Saturating twice is saturating once.
proof fn lemma_clamp_add(a: nat, b: nat)
    ensures
        clamp_usize((clamp_usize(a) + b) as nat) == clamp_usize(a + b),
{
}

/// Compute per-column display widths that fit the table into `budget` columns.
///
/// 1. natural width = min(widest cell in the column, `MAX_COL`), at least 1
/// 2. if the table already fits, done
/// 3. otherwise repeatedly shrink the widest column down toward `MIN_COL`
/// 4. if every column at `MIN_COL` still overflows, drop columns from the
///    right, reserving room for a trailing `+N` indicator column
pub fn fit_columns(table: &Table, budget: usize) -> (fit: Fit)
    requires
        table.wf(),
    ensures
        fit.widths@ == fit_spec(texts(table.headers@), row_texts(table.rows@), budget as nat).0,
        fit.dropped == fit_spec(texts(table.headers@), row_texts(table.rows@), budget as nat).1,
{
    let ghost headers = texts(table.headers@);
    let ghost rows = row_texts(table.rows@);
    let n = table.headers.len();
    if n == 0 {
        return Fit { widths: Vec::new(), dropped: 0 };
    }
    let mut widths: Vec<usize> = Vec::new();
    let mut c: usize = 0;
    while c < n
        invariant
            c <= n == table.headers@.len(),
            table.wf(),
            headers == texts(table.headers@),
            rows == row_texts(table.rows@),
            widths@ == natural_widths(headers, rows).subrange(0, c as int),
        decreases n - c,
    {
        let header_w = str_width(table.headers[c].as_str());
        let mut cell_w: usize = 0;
        let mut r: usize = 0;
        while r < table.rows.len()
            invariant
                c < n == table.headers@.len(),
                table.wf(),
                rows == row_texts(table.rows@),
                r <= table.rows@.len(),
                cell_w == max_cell_width(rows.subrange(0, r as int), c as int),
            decreases table.rows@.len() - r,
        {
            assert(table.rows@[r as int]@.len() == n);
            let w = str_width(table.rows[r][c].as_str());
            assert(rows.subrange(0, r + 1).drop_last() =~= rows.subrange(0, r as int));
            assert(rows.subrange(0, r + 1).last()[c as int] == table.rows@[r as int]@[c as int]@);
            if w > cell_w {
                cell_w = w;
            }
            r += 1;
        }
        assert(rows.subrange(0, r as int) =~= rows);
        let mut w = if header_w > cell_w {
            header_w
        } else {
            cell_w
        };
        if w < 1 {
            w = 1;
        } else if w > MAX_COL {
            w = MAX_COL;
        }
        widths.push(w);
        c += 1;
        assert(widths@ =~= natural_widths(headers, rows).subrange(0, c as int));
    }
    let ghost natural = natural_widths(headers, rows);
    assert(widths@ =~= natural);
    if rendered_width(&widths) <= budget {
        return Fit { widths, dropped: 0 };
    }
    // Shrink the widest column (above the floor) until it fits or all are at MIN_COL.
    while rendered_width(&widths) > budget
        invariant_except_break
            shrink(widths@, budget as nat) == shrink(natural, budget as nat),
            widths@.len() == n,
        ensures
            widths@ == shrink(natural, budget as nat),
            widths@.len() == n,
        decreases rendered_width_spec(widths@),
    {
        let mut best: Option<usize> = None;
        let mut i: usize = 0;
        while i < widths.len()
            invariant
                i <= widths@.len(),
                best matches Some(b) ==> b < i,
                best == (match widest_in(widths@, i as int) {
                    Some(k) => Some(k as usize),
                    None => None::<usize>,
                }),
            decreases widths@.len() - i,
        {
            proof {
                lemma_widest_in(widths@, i as int);
            }
            let better = match best {
                None => true,
                Some(b) => widths[i] >= widths[b],
            };
            if widths[i] > MIN_COL && better {
                best = Some(i);
            }
            i += 1;
        }
        proof {
            lemma_widest_in(widths@, widths@.len() as int);
        }
        match best {
            Some(b) => {
                let w = widths[b];
                proof {
                    lemma_rendered_width_update(widths@, b as int, (w - 1) as usize);
                }
                widths.set(b, w - 1);
            },
            None => break,
        }
    }
    if rendered_width(&widths) <= budget {
        return Fit { widths, dropped: 0 };
    }
    let ghost narrowed = widths@;
    // Drop columns from the right, leaving room for a "+N" indicator column.
    let mut dropped: usize = 0;
    while widths.len() > 1
        invariant_except_break
            drop_columns(widths@, dropped as nat, budget as nat) == drop_columns(narrowed, 0, budget as nat),
            widths@.len() + dropped == n,
        ensures
            (widths@, dropped as nat) == drop_columns(narrowed, 0, budget as nat),
        decreases widths@.len(),
    {
        widths.pop();
        dropped += 1;
        let digits = decimal_string(dropped as u64);
        proof {
            lemma_decimal_len(dropped as nat);
        }
        let indicator_w = digits.unicode_len() + 1 + 3;
        proof {
            lemma_clamp_add(rendered_width_spec(widths@), indicator_width(dropped as nat));
        }
        if rendered_width(&widths).saturating_add(indicator_w) <= budget {
            break;
        }
    }
    Fit { widths, dropped }
}

/// Narrowing keeps the number of columns, never widens a column, never
/// takes a column wider than `MIN_COL` below `MIN_COL`, leaves narrower
/// columns alone, and stops only once the table fits or every column is at
/// most `MIN_COL`.
pub proof fn lemma_shrink(ws: Seq<usize>, budget: nat)
    ensures
        shrink(ws, budget).len() == ws.len(),
        forall|k: int|
            0 <= k < ws.len() ==> #[trigger] shrink(ws, budget)[k] <= ws[k] && (ws[k] <= MIN_COL
                ==> shrink(ws, budget)[k] == ws[k]) && (ws[k] > MIN_COL ==> shrink(ws, budget)[k]
                >= MIN_COL),
        clamp_usize(rendered_width_spec(shrink(ws, budget))) <= budget || forall|k: int|
            0 <= k < ws.len() ==> #[trigger] shrink(ws, budget)[k] <= MIN_COL,
    decreases rendered_width_spec(ws),
{
    if clamp_usize(rendered_width_spec(ws)) > budget {
        lemma_widest_in(ws, ws.len() as int);
        match widest_in(ws, ws.len() as int) {
            None => {},
            Some(i) => {
                let u = ws.update(i, (ws[i] - 1) as usize);
                lemma_rendered_width_update(ws, i, (ws[i] - 1) as usize);
                lemma_shrink(u, budget);
                assert forall|k: int| 0 <= k < ws.len() implies #[trigger] shrink(ws, budget)[k] <= ws[k]
                    && (ws[k] <= MIN_COL ==> shrink(ws, budget)[k] == ws[k]) && (ws[k] > MIN_COL
                    ==> shrink(ws, budget)[k] >= MIN_COL) by {
                    assert(shrink(ws, budget)[k] == shrink(u, budget)[k]);
                }
            },
        }
    }
}

/// Dropping keeps a non-empty prefix of the columns, counts what it drops,
/// and stops once the prefix plus the `+N` indicator fits or one column is left.
pub proof fn lemma_drop_columns(ws: Seq<usize>, dropped: nat, budget: nat)
    requires
        ws.len() >= 1,
    ensures
        drop_columns(ws, dropped, budget).1 >= dropped,
        ws.len() > 1 ==> drop_columns(ws, dropped, budget).1 > dropped,
        drop_columns(ws, dropped, budget).0.len() + drop_columns(ws, dropped, budget).1 == ws.len() + dropped,
        drop_columns(ws, dropped, budget).0.len() >= 1,
        drop_columns(ws, dropped, budget).0 == ws.subrange(0, drop_columns(ws, dropped, budget).0.len() as int),
        drop_columns(ws, dropped, budget).1 > dropped ==> (clamp_usize(
            rendered_width_spec(drop_columns(ws, dropped, budget).0) + indicator_width(
                drop_columns(ws, dropped, budget).1,
            ),
        ) <= budget || drop_columns(ws, dropped, budget).0.len() == 1),
    decreases ws.len(),
{
    if ws.len() <= 1 {
        assert(ws.subrange(0, ws.len() as int) =~= ws);
    } else {
        let kept = ws.drop_last();
        if clamp_usize(rendered_width_spec(kept) + indicator_width(dropped + 1)) > budget {
            lemma_drop_columns(kept, dropped + 1, budget);
            let r = drop_columns(kept, dropped + 1, budget).0;
            assert(r =~= ws.subrange(0, r.len() as int));
        } else {
            assert(drop_columns(ws, dropped, budget) == (kept, dropped + 1));
            assert(kept =~= ws.subrange(0, kept.len() as int));
        }
    }
}

/// Fitting a table: each column is kept or counted as dropped (from the
/// right); kept columns are between 1 and `MAX_COL` wide and never narrowed
/// below `MIN_COL` unless naturally narrower; a table that fits keeps its
/// natural widths; and the kept columns fit the budget — with room for the
/// `+N` indicator when columns were dropped — unless nothing more can give:
/// one column is left, or every column is already at most `MIN_COL`; with
/// no column dropped they fit unless the table has a single column.
pub proof fn lemma_fit_columns(headers: Seq<Seq<char>>, rows: Seq<Seq<Seq<char>>>, budget: nat)
    ensures
        fit_spec(headers, rows, budget).0.len() + fit_spec(headers, rows, budget).1 == headers.len(),
        headers.len() > 0 ==> fit_spec(headers, rows, budget).0.len() >= 1,
        forall|k: int|
            0 <= k < fit_spec(headers, rows, budget).0.len() ==> 1 <= #[trigger] fit_spec(
                headers,
                rows,
                budget,
            ).0[k] <= MAX_COL && fit_spec(headers, rows, budget).0[k] >= (if natural_width(
                headers,
                rows,
                k,
            ) <= MIN_COL {
                natural_width(headers, rows, k)
            } else {
                MIN_COL
            }),
        clamp_usize(rendered_width_spec(natural_widths(headers, rows))) <= budget ==> fit_spec(
            headers,
            rows,
            budget,
        ) == (natural_widths(headers, rows), 0nat),
        fit_spec(headers, rows, budget).1 == 0 ==> (clamp_usize(
            rendered_width_spec(fit_spec(headers, rows, budget).0),
        ) <= budget || forall|k: int|
            0 <= k < fit_spec(headers, rows, budget).0.len() ==> #[trigger] fit_spec(
                headers,
                rows,
                budget,
            ).0[k] <= MIN_COL),
        fit_spec(headers, rows, budget).1 > 0 ==> (clamp_usize(
            rendered_width_spec(fit_spec(headers, rows, budget).0) + indicator_width(
                fit_spec(headers, rows, budget).1,
            ),
        ) <= budget || fit_spec(headers, rows, budget).0.len() == 1),
        fit_spec(headers, rows, budget).1 == 0 ==> (clamp_usize(
            rendered_width_spec(fit_spec(headers, rows, budget).0),
        ) <= budget || headers.len() <= 1),
{
    if headers.len() > 0 {
        let natural = natural_widths(headers, rows);
        if clamp_usize(rendered_width_spec(natural)) > budget {
            lemma_shrink(natural, budget);
            let narrowed = shrink(natural, budget);
            if clamp_usize(rendered_width_spec(narrowed)) > budget {
                lemma_drop_columns(narrowed, 0, budget);
                let f = drop_columns(narrowed, 0, budget);
                assert forall|k: int| 0 <= k < f.0.len() implies f.0[k] == narrowed[k] by {
                    assert(f.0 == narrowed.subrange(0, f.0.len() as int));
                }
                if f.1 == 0 {
                    assert(f.0.len() == narrowed.len());
                }
            }
        }
    }
}

/// The segments of a border after its left corner: `─` runs two wider than
/// each of the first `n` columns, each closed by `mid` or, for the last
/// column, by `right`.
pub open spec fn border_segments(ws: Seq<usize>, n: int, mid: char, right: char) -> Seq<char>
    decreases n,
{
    if n <= 0 || n > ws.len() {
        Seq::empty()
    } else {
        border_segments(ws, n - 1, mid, right) + repeat('─', clamp_usize((ws[n - 1] + 2) as nat) as nat)
            + seq![
            if n == ws.len() {
                right
            } else {
                mid
            },
        ]
    }
}

/// A horizontal border line such as `┌───┬───┐`, dimmed with color.
pub open spec fn border_content(ws: Seq<usize>, left: char, mid: char, right: char, color: bool) -> Seq<
    char,
> {
    let line = seq![left] + border_segments(ws, ws.len() as int, mid, right);
    if color {
        DIM@ + line + RESET@
    } else {
        line
    }
}

/// Emit a horizontal border line, e.g. `┌───┬───┐`, as a raw line.
fn border_line<S: LineSink>(widths: &Vec<usize>, left: char, mid: char, right: char, ctx: &RenderCtx, sink: &mut S)
    ensures
        final(sink).output() == old(sink).output() + S::line_text(
            border_content(widths@, left, mid, right, ctx.use_color),
            *ctx,
            true,
        ),
{
    let mut line = String::new();
    push_char(&mut line, left);
    let mut i: usize = 0;
    while i < widths.len()
        invariant
            i <= widths@.len(),
            line@ == seq![left] + border_segments(widths@, i as int, mid, right),
        decreases widths@.len() - i,
    {
        push_repeat(&mut line, '─', widths[i].saturating_add(2));
        if i + 1 == widths.len() {
            push_char(&mut line, right);
        } else {
            push_char(&mut line, mid);
        }
        i += 1;
    }
    let line = if ctx.use_color {
        let mut l = String::from_str(DIM);
        l.append(line.as_str());
        l.append(RESET);
        l
    } else {
        line
    };
    sink.raw_line(line.as_str(), ctx);
}

/// The cells of the first `n` entries of a row, each followed by ` ` and a bar.
pub open spec fn data_segments(cells: Seq<Seq<char>>, n: int, bold: bool, bar: Seq<char>) -> Seq<char>
    decreases n,
{
    if n <= 0 || n > cells.len() {
        Seq::empty()
    } else {
        let cell = if bold {
            BOLD@ + cells[n - 1] + RESET@
        } else {
            cells[n - 1]
        };
        data_segments(cells, n - 1, bold, bar) + seq![' '] + cell + seq![' '] + bar
    }
}

/// The `│` separator, dimmed with color.
pub open spec fn bar_text(color: bool) -> Seq<char> {
    if color {
        DIM@ + "│"@ + RESET@
    } else {
        "│"@
    }
}

/// A content row such as `│ a │ b │`; header cells are bold.
pub open spec fn data_content(cells: Seq<Seq<char>>, bold: bool, color: bool) -> Seq<char> {
    bar_text(color) + data_segments(cells, cells.len() as int, bold, bar_text(color))
}

/// Emit a content row, e.g. `│ a │ b │`, as a raw line.
/// When `bold` is true each cell is wrapped in BOLD/RESET (the header row).
fn data_line<S: LineSink>(cells: &Vec<String>, bold: bool, ctx: &RenderCtx, sink: &mut S)
    ensures
        final(sink).output() == old(sink).output() + S::line_text(data_content(texts(cells@), bold, ctx.use_color), *ctx, true),
{
    let bar = if ctx.use_color {
        let mut b = String::from_str(DIM);
        b.append("│");
        b.append(RESET);
        b
    } else {
        String::from_str("│")
    };
    let ghost cs = texts(cells@);
    let mut line = String::new();
    line.append(bar.as_str());
    let mut i: usize = 0;
    while i < cells.len()
        invariant
            i <= cells@.len(),
            cs == texts(cells@),
            bar@ == bar_text(ctx.use_color),
            line@ == bar_text(ctx.use_color) + data_segments(cs, i as int, bold, bar@),
        decreases cells@.len() - i,
    {
        let ghost before = line@;
        push_char(&mut line, ' ');
        if bold {
            line.append(BOLD);
            line.append(cells[i].as_str());
            line.append(RESET);
        } else {
            line.append(cells[i].as_str());
        }
        push_char(&mut line, ' ');
        line.append(bar.as_str());
        i += 1;
        assert(line@ =~= bar_text(ctx.use_color) + data_segments(cs, i as int, bold, bar@));
    }
    sink.raw_line(line.as_str(), ctx);
}

/// The cells of a row as drawn: each truncated to its column and padded.
pub open spec fn drawn_cells(row: Seq<Seq<char>>, ws: Seq<usize>, aligns: Seq<Align>, n: nat) -> Seq<
    Seq<char>,
> {
    Seq::new(n, |i: int| padded_cell(truncated_cell(row[i], ws[i] as nat), ws[i] as nat, aligns[i]))
}

/// The `+N` label heading the indicator column.
pub open spec fn indicator_label(dropped: nat) -> Seq<char> {
    seq!['+'] + decimal(dropped)
}

/// Width of the indicator column.
pub open spec fn indicator_col(dropped: nat) -> usize {
    let w = spec_str_width(indicator_label(dropped));
    if w < 1 {
        1
    } else {
        w
    }
}

/// A body row as drawn: the kept cells, then `…` under the indicator.
pub open spec fn body_cells(row: Seq<Seq<char>>, ws: Seq<usize>, aligns: Seq<Align>, kept: nat, dropped: nat) -> Seq<
    Seq<char>,
> {
    let cells = drawn_cells(row, ws, aligns, kept);
    if dropped > 0 {
        cells.push(padded_cell(seq!['…'], ws[kept as int] as nat, Align::Left))
    } else {
        cells
    }
}

/// The body rows, each a framed content line.
pub open spec fn body_text<S: LineSink>(
    rows: Seq<Seq<Seq<char>>>,
    ws: Seq<usize>,
    aligns: Seq<Align>,
    kept: nat,
    dropped: nat,
    ctx: RenderCtx,
) -> Seq<char>
    decreases rows.len(),
{
    if rows.len() == 0 {
        Seq::empty()
    } else {
        body_text::<S>(rows.drop_last(), ws, aligns, kept, dropped, ctx) + S::line_text(
            data_content(body_cells(rows.last(), ws, aligns, kept, dropped), false, ctx.use_color),
            ctx,
            true,
        )
    }
}

/// The lines of a table with the given drawn columns.
pub open spec fn table_lines<S: LineSink>(
    ws: Seq<usize>,
    hs: Seq<Seq<char>>,
    aligns: Seq<Align>,
    rows: Seq<Seq<Seq<char>>>,
    kept: nat,
    dropped: nat,
    ctx: RenderCtx,
) -> Seq<char> {
    S::line_text(border_content(ws, '┌', '┬', '┐', ctx.use_color), ctx, true) + S::line_text(
        data_content(drawn_cells(hs, ws, aligns, hs.len()), ctx.use_color, ctx.use_color),
        ctx,
        true,
    ) + S::line_text(border_content(ws, '├', '┼', '┤', ctx.use_color), ctx, true) + body_text::<S>(
        rows,
        ws,
        aligns,
        kept,
        dropped,
        ctx,
    ) + S::line_text(border_content(ws, '└', '┴', '┘', ctx.use_color), ctx, true)
}

/// Everything `render` emits for a well-formed table: nothing when no column
/// is kept, else the grid of the kept columns plus the `+N` indicator.
pub open spec fn table_text<S: LineSink>(headers: Seq<Seq<char>>, rows: Seq<Seq<Seq<char>>>, align: Seq<Align>, ctx: RenderCtx) -> Seq<char> {
    let budget = sat_sub(ctx.width as nat, 4);
    let fit = fit_spec(headers, rows, budget);
    let kept = fit.0.len();
    if kept == 0 {
        Seq::empty()
    } else if fit.1 > 0 {
        table_lines::<S>(
            fit.0.push(indicator_col(fit.1)),
            headers.subrange(0, kept as int).push(indicator_label(fit.1)),
            align.subrange(0, kept as int).push(Align::Left),
            rows,
            kept,
            fit.1,
            ctx,
        )
    } else {
        table_lines::<S>(fit.0, headers.subrange(0, kept as int), align.subrange(0, kept as int), rows, kept, 0, ctx)
    }
}

/// Appending a string appends its text.
pub proof fn lemma_texts_push(v: Seq<String>, x: String)
    ensures
        texts(v.push(x)) == texts(v).push(x@),
{
    assert(texts(v.push(x)) =~= texts(v).push(x@));
}

/// The first `n` cells of `row`, truncated to their columns and padded.
fn draw_cells(row: &Vec<String>, widths: &Vec<usize>, align: &Vec<Align>, n: usize) -> (r: Vec<String>)
    requires
        n <= row@.len(),
        n <= widths@.len(),
        n <= align@.len(),
    ensures
        texts(r@) == drawn_cells(texts(row@), widths@, align@, n as nat),
{
    let mut cells: Vec<String> = Vec::new();
    let mut c: usize = 0;
    while c < n
        invariant
            c <= n <= row@.len(),
            n <= widths@.len(),
            n <= align@.len(),
            texts(cells@) == drawn_cells(texts(row@), widths@, align@, c as nat),
        decreases n - c,
    {
        let t = truncate_cell(row[c].as_str(), widths[c]);
        let p = pad_cell(t.as_str(), widths[c], align[c]);
        proof {
            lemma_texts_push(cells@, p);
        }
        cells.push(p);
        c += 1;
        assert(texts(cells@) =~= drawn_cells(texts(row@), widths@, align@, c as nat));
    }
    cells
}

/// Emit every body row.
fn body_lines<S: LineSink>(
    table: &Table,
    widths: &Vec<usize>,
    align: &Vec<Align>,
    kept: usize,
    dropped: usize,
    ctx: &RenderCtx,
    sink: &mut S,
)
    requires
        table.wf(),
        kept <= table.headers@.len(),
        widths@.len() == align@.len(),
        widths@.len() == kept + (if dropped > 0 {
            1int
        } else {
            0
        }),
    ensures
        final(sink).output() == old(sink).output() + body_text::<S>(
            row_texts(table.rows@),
            widths@,
            align@,
            kept as nat,
            dropped as nat,
            *ctx,
        ),
{
    let ghost rows = row_texts(table.rows@);
    let ghost start = sink.output();
    let mut r: usize = 0;
    while r < table.rows.len()
        invariant
            r <= table.rows@.len(),
            table.wf(),
            rows == row_texts(table.rows@),
            kept <= table.headers@.len(),
            widths@.len() == align@.len(),
            widths@.len() == kept + (if dropped > 0 {
                1int
            } else {
                0
            }),
            sink.output() == start + body_text::<S>(rows.subrange(0, r as int), widths@, align@, kept as nat, dropped as nat, *ctx),
        decreases table.rows@.len() - r,
    {
        let row = &table.rows[r];
        assert(row@.len() == table.headers@.len());
        let mut cells = draw_cells(row, widths, align, kept);
        if dropped > 0 {
            proof {
                reveal_strlit("…");
            }
            let p = pad_cell("…", widths[kept], Align::Left);
            assert("…"@ == seq!['…']);
            proof {
                lemma_texts_push(cells@, p);
            }
            cells.push(p);
        }
        assert(texts(cells@) =~= body_cells(texts(row@), widths@, align@, kept as nat, dropped as nat));
        data_line(&cells, false, ctx, sink);
        assert(rows.subrange(0, r + 1).drop_last() =~= rows.subrange(0, r as int));
        assert(rows.subrange(0, r + 1).last() == texts(row@));
        r += 1;
    }
    assert(rows.subrange(0, r as int) =~= rows);
}

/// The kept headers, widths and alignments, with the `+N` indicator column
/// appended when columns were dropped.
fn kept_columns(table: &Table, fit: Fit) -> (r: (Vec<String>, Vec<usize>, Vec<Align>))
    requires
        table.wf(),
        fit.widths@.len() <= table.headers@.len(),
    ensures
        r.0@.len() == r.1@.len(),
        r.1@.len() == r.2@.len(),
        r.1@.len() == fit.widths@.len() + (if fit.dropped > 0 {
            1int
        } else {
            0
        }),
        texts(r.0@) == (if fit.dropped > 0 {
            texts(table.headers@).subrange(0, fit.widths@.len() as int).push(indicator_label(fit.dropped as nat))
        } else {
            texts(table.headers@).subrange(0, fit.widths@.len() as int)
        }),
        r.1@ == (if fit.dropped > 0 {
            fit.widths@.push(indicator_col(fit.dropped as nat))
        } else {
            fit.widths@
        }),
        r.2@ == (if fit.dropped > 0 {
            table.align@.subrange(0, fit.widths@.len() as int).push(Align::Left)
        } else {
            table.align@.subrange(0, fit.widths@.len() as int)
        }),
{
    let kept = fit.widths.len();
    let ghost headers = texts(table.headers@);
    let mut widths = fit.widths;
    let mut headers_v: Vec<String> = Vec::new();
    let mut align: Vec<Align> = Vec::new();
    let mut i: usize = 0;
    while i < kept
        invariant
            i <= kept <= table.headers@.len(),
            table.wf(),
            headers == texts(table.headers@),
            texts(headers_v@) == headers.subrange(0, i as int),
            align@ == table.align@.subrange(0, i as int),
        decreases kept - i,
    {
        let h = table.headers[i].clone();
        proof {
            lemma_texts_push(headers_v@, h);
        }
        headers_v.push(h);
        align.push(table.align[i]);
        i += 1;
        assert(texts(headers_v@) =~= headers.subrange(0, i as int));
        assert(align@ =~= table.align@.subrange(0, i as int));
    }
    if fit.dropped > 0 {
        let mut label = String::from_str("+");
        proof {
            reveal_strlit("+");
        }
        let digits = decimal_string(fit.dropped as u64);
        label.append(digits.as_str());
        assert(label@ =~= indicator_label(fit.dropped as nat));
        let lw = str_width(label.as_str());
        widths.push(if lw < 1 {
            1
        } else {
            lw
        });
        proof {
            lemma_texts_push(headers_v@, label);
        }
        headers_v.push(label);
        align.push(Align::Left);
    }
    (headers_v, widths, align)
}

/// Render `table` as a box-drawn grid, emitting each full line as a raw
/// line, so it sits inside the surrounding cell box.
#[verifier::spinoff_prover]
#[verifier::rlimit(40)]
pub fn render<S: LineSink>(table: &Table, ctx: &RenderCtx, sink: &mut S)
    requires
        table.wf(),
    ensures
        final(sink).output() == old(sink).output() + table_text::<S>(
            texts(table.headers@),
            row_texts(table.rows@),
            table.align@,
            *ctx,
        ),
{
    let ghost headers = texts(table.headers@);
    let ghost rows = row_texts(table.rows@);
    let budget = ctx.width.saturating_sub(4);
    let fit = fit_columns(table, budget);
    assert(fit.widths@.len() <= table.headers@.len()) by {
        lemma_fit_columns(headers, rows, budget as nat);
    }
    if fit.widths.len() == 0 {
        return;
    }
    let kept = fit.widths.len();
    let dropped = fit.dropped;
    let (headers_v, widths, align) = kept_columns(table, fit);
    let ghost start = sink.output();
    border_line(&widths, '┌', '┬', '┐', ctx, sink);
    let header_cells = draw_cells(&headers_v, &widths, &align, headers_v.len());
    data_line(&header_cells, ctx.use_color, ctx, sink);
    border_line(&widths, '├', '┼', '┤', ctx, sink);
    body_lines(table, &widths, &align, kept, dropped, ctx, sink);
    border_line(&widths, '└', '┴', '┘', ctx, sink);
    let ghost lines = table_lines::<S>(widths@, texts(headers_v@), align@, rows, kept as nat, dropped as nat, *ctx);
    assert(sink.output() =~= start + lines);
    assert(table_text::<S>(headers, rows, table.align@, *ctx) == lines);
}


proof fn lemma_nn_concat(a: Seq<char>, b: Seq<char>)
    requires
        no_newline(a),
        no_newline(b),
    ensures
        no_newline(a + b),
{
    assert forall|i: int| 0 <= i < (a + b).len() implies (a + b)[i] != '\n' by {
        if i < a.len() {
            assert((a + b)[i] == a[i]);
        } else {
            assert((a + b)[i] == b[i - a.len()]);
        }
    }
}

proof fn lemma_nn_repeat(c: char, n: nat)
    requires
        c != '\n',
    ensures
        no_newline(repeat(c, n)),
{
}

proof fn lemma_nn_fit_prefix(s: Seq<char>, i: int, used: nat, budget: nat)
    requires
        no_newline(s),
    ensures
        no_newline(fit_prefix(s, i, used, budget)),
    decreases s.len() - i,
{
    if !(i < 0 || i >= s.len() || used + char_cols(s[i]) > budget) {
        lemma_nn_fit_prefix(s, i + 1, used + char_cols(s[i]), budget);
        lemma_nn_concat(seq![s[i]], fit_prefix(s, i + 1, used + char_cols(s[i]), budget));
    }
}

proof fn lemma_nn_cell(c: Seq<char>, w: nat, align: Align)
    requires
        no_newline(c),
    ensures
        no_newline(padded_cell(truncated_cell(c, w), w, align)),
{
    let t = truncated_cell(c, w);
    if !(spec_str_width(c) <= w) && w > 0 {
        lemma_nn_fit_prefix(c, 0, 0, (w - 1) as nat);
        lemma_nn_concat(fit_prefix(c, 0, 0, (w - 1) as nat), seq!['…']);
    }
    let tw = spec_str_width(t);
    if tw < w {
        let pad = (w - tw) as nat;
        lemma_nn_repeat(' ', pad);
        lemma_nn_repeat(' ', pad / 2);
        lemma_nn_repeat(' ', (pad - pad / 2) as nat);
        lemma_nn_concat(t, spaces(pad));
        lemma_nn_concat(spaces(pad), t);
        lemma_nn_concat(spaces(pad / 2), t);
        lemma_nn_concat(spaces(pad / 2) + t, spaces((pad - pad / 2) as nat));
    }
}

proof fn lemma_nn_sgr()
    ensures
        no_newline(DIM@),
        no_newline(RESET@),
        no_newline(BOLD@),
        no_newline("│"@),
{
    crate::theme::lemma_sgr_codes();
    reveal_strlit("│");
}

proof fn lemma_nn_border_segments(ws: Seq<usize>, n: int, mid: char, right: char)
    requires
        mid != '\n',
        right != '\n',
    ensures
        no_newline(border_segments(ws, n, mid, right)),
    decreases n,
{
    if !(n <= 0 || n > ws.len()) {
        lemma_nn_border_segments(ws, n - 1, mid, right);
        let r = repeat('─', clamp_usize((ws[n - 1] + 2) as nat) as nat);
        lemma_nn_repeat('─', clamp_usize((ws[n - 1] + 2) as nat) as nat);
        let last = seq![if n == ws.len() { right } else { mid }];
        lemma_nn_concat(border_segments(ws, n - 1, mid, right), r);
        lemma_nn_concat(border_segments(ws, n - 1, mid, right) + r, last);
    }
}

proof fn lemma_nn_border(ws: Seq<usize>, left: char, mid: char, right: char, color: bool)
    requires
        left != '\n',
        mid != '\n',
        right != '\n',
    ensures
        no_newline(border_content(ws, left, mid, right, color)),
{
    lemma_nn_sgr();
    lemma_nn_border_segments(ws, ws.len() as int, mid, right);
    let line = seq![left] + border_segments(ws, ws.len() as int, mid, right);
    lemma_nn_concat(seq![left], border_segments(ws, ws.len() as int, mid, right));
    lemma_nn_concat(DIM@, line);
    lemma_nn_concat(DIM@ + line, RESET@);
}

proof fn lemma_nn_data_segments(cells: Seq<Seq<char>>, n: int, bold: bool, bar: Seq<char>)
    requires
        no_newline(bar),
        forall|k: int| 0 <= k < cells.len() ==> no_newline(#[trigger] cells[k]),
    ensures
        no_newline(data_segments(cells, n, bold, bar)),
    decreases n,
{
    if !(n <= 0 || n > cells.len()) {
        lemma_nn_data_segments(cells, n - 1, bold, bar);
        lemma_nn_sgr();
        let c = cells[n - 1];
        lemma_nn_concat(BOLD@, c);
        lemma_nn_concat(BOLD@ + c, RESET@);
        let cell = if bold {
            BOLD@ + c + RESET@
        } else {
            c
        };
        let d = data_segments(cells, n - 1, bold, bar);
        lemma_nn_concat(d, seq![' ']);
        lemma_nn_concat(d + seq![' '], cell);
        lemma_nn_concat(d + seq![' '] + cell, seq![' ']);
        lemma_nn_concat(d + seq![' '] + cell + seq![' '], bar);
    }
}

proof fn lemma_nn_data(cells: Seq<Seq<char>>, bold: bool, color: bool)
    requires
        forall|k: int| 0 <= k < cells.len() ==> no_newline(#[trigger] cells[k]),
    ensures
        no_newline(data_content(cells, bold, color)),
{
    lemma_nn_sgr();
    lemma_nn_concat(DIM@, "│"@);
    lemma_nn_concat(DIM@ + "│"@, RESET@);
    lemma_nn_data_segments(cells, cells.len() as int, bold, bar_text(color));
    lemma_nn_concat(bar_text(color), data_segments(cells, cells.len() as int, bold, bar_text(color)));
}

proof fn lemma_nn_drawn(row: Seq<Seq<char>>, ws: Seq<usize>, aligns: Seq<Align>, n: nat)
    requires
        n <= row.len(),
        forall|k: int| 0 <= k < row.len() ==> no_newline(#[trigger] row[k]),
    ensures
        forall|k: int| 0 <= k < n ==> no_newline(#[trigger] drawn_cells(row, ws, aligns, n)[k]),
{
    assert forall|k: int| 0 <= k < n implies no_newline(#[trigger] drawn_cells(row, ws, aligns, n)[k]) by {
        lemma_nn_cell(row[k], ws[k] as nat, aligns[k]);
    }
}

proof fn lemma_body_lines(
    rows: Seq<Seq<Seq<char>>>,
    ws: Seq<usize>,
    aligns: Seq<Align>,
    kept: nat,
    dropped: nat,
    ctx: RenderCtx,
)
    requires
        forall|r: int| 0 <= r < rows.len() ==> kept <= (#[trigger] rows[r]).len(),
        forall|r: int, k: int| 0 <= r < rows.len() && 0 <= k < rows[r].len() ==> no_newline(#[trigger] rows[r][k]),
    ensures
        newlines(body_text::<BoxedSink>(rows, ws, aligns, kept, dropped, ctx)) == rows.len(),
    decreases rows.len(),
{
    if rows.len() > 0 {
        lemma_body_lines(rows.drop_last(), ws, aligns, kept, dropped, ctx);
        let row = rows.last();
        assert(forall|k: int| 0 <= k < row.len() ==> no_newline(#[trigger] row[k])) by {
            assert forall|k: int| 0 <= k < row.len() implies no_newline(#[trigger] row[k]) by {
                assert(row[k] == rows[rows.len() - 1][k]);
            }
        }
        lemma_nn_drawn(row, ws, aligns, kept);
        let cells = body_cells(row, ws, aligns, kept, dropped);
        assert forall|k: int| 0 <= k < cells.len() implies no_newline(#[trigger] cells[k]) by {
            if k >= kept {
                lemma_nn_padded_only(seq!['…'], ws[kept as int] as nat);
            }
        }
        let content = data_content(cells, false, ctx.use_color);
        lemma_nn_data(cells, false, ctx.use_color);
        crate::render::frame::lemma_wrap_line_one_newline(content, ctx);
        lemma_newlines_concat(body_text::<BoxedSink>(rows.drop_last(), ws, aligns, kept, dropped, ctx), wrap_line_text(content, ctx));
    }
}

proof fn lemma_nn_padded_only(c: Seq<char>, w: nat)
    requires
        no_newline(c),
    ensures
        no_newline(padded_cell(c, w, Align::Left)),
{
    if spec_str_width(c) < w {
        let pad = (w - spec_str_width(c)) as nat;
        lemma_nn_repeat(' ', pad);
        lemma_nn_concat(c, spaces(pad));
    }
}

/// Line count of a drawn table: a table with at least one column takes its
/// rows plus four lines — top border, header, separator, bottom border —
/// when no header or cell holds a line break; a table without columns draws
/// nothing.
pub proof fn lemma_table_line_count(headers: Seq<Seq<char>>, rows: Seq<Seq<Seq<char>>>, align: Seq<Align>, ctx: RenderCtx)
    requires
        forall|r: int| 0 <= r < rows.len() ==> (#[trigger] rows[r]).len() == headers.len(),
        forall|k: int| 0 <= k < headers.len() ==> no_newline(#[trigger] headers[k]),
        forall|r: int, k: int| 0 <= r < rows.len() && 0 <= k < rows[r].len() ==> no_newline(#[trigger] rows[r][k]),
    ensures
        newlines(table_text::<BoxedSink>(headers, rows, align, ctx)) == if headers.len() == 0 {
            0
        } else {
            rows.len() + 4
        },
{
    let budget = sat_sub(ctx.width as nat, 4);
    let fit = fit_spec(headers, rows, budget);
    lemma_fit_columns(headers, rows, budget);
    let kept = fit.0.len();
    if kept > 0 {
        let (ws, hs, al) = if fit.1 > 0 {
            (
                fit.0.push(indicator_col(fit.1)),
                headers.subrange(0, kept as int).push(indicator_label(fit.1)),
                align.subrange(0, kept as int).push(Align::Left),
            )
        } else {
            (fit.0, headers.subrange(0, kept as int), align.subrange(0, kept as int))
        };
        crate::numeric::lemma_decimal_reads_back(fit.1);
        assert(no_newline(indicator_label(fit.1))) by {
            let d = decimal(fit.1);
            assert forall|i: int| 0 <= i < indicator_label(fit.1).len() implies indicator_label(fit.1)[i] != '\n' by {
                if i > 0 {
                    assert(indicator_label(fit.1)[i] == d[i - 1]);
                    assert(crate::numeric::is_digit(d[i - 1]));
                }
            }
        }
        assert forall|k: int| 0 <= k < hs.len() implies no_newline(#[trigger] hs[k]) by {
            if k < kept {
                assert(hs[k] == headers[k]);
            }
        }
        lemma_nn_drawn(hs, ws, al, hs.len());
        let top = border_content(ws, '┌', '┬', '┐', ctx.use_color);
        let head = data_content(drawn_cells(hs, ws, al, hs.len()), ctx.use_color, ctx.use_color);
        let sep = border_content(ws, '├', '┼', '┤', ctx.use_color);
        let bot = border_content(ws, '└', '┴', '┘', ctx.use_color);
        lemma_nn_border(ws, '┌', '┬', '┐', ctx.use_color);
        lemma_nn_border(ws, '├', '┼', '┤', ctx.use_color);
        lemma_nn_border(ws, '└', '┴', '┘', ctx.use_color);
        lemma_nn_data(drawn_cells(hs, ws, al, hs.len()), ctx.use_color, ctx.use_color);
        crate::render::frame::lemma_wrap_line_one_newline(top, ctx);
        crate::render::frame::lemma_wrap_line_one_newline(head, ctx);
        crate::render::frame::lemma_wrap_line_one_newline(sep, ctx);
        crate::render::frame::lemma_wrap_line_one_newline(bot, ctx);
        lemma_body_lines(rows, ws, al, kept, fit.1, ctx);
        let body = body_text::<BoxedSink>(rows, ws, al, kept, fit.1, ctx);
        let a = wrap_line_text(top, ctx);
        let b = wrap_line_text(head, ctx);
        let c = wrap_line_text(sep, ctx);
        let e = wrap_line_text(bot, ctx);
        lemma_newlines_concat(a, b);
        lemma_newlines_concat(a + b, c);
        lemma_newlines_concat(a + b + c, body);
        lemma_newlines_concat(a + b + c + body, e);
        assert(table_text::<BoxedSink>(headers, rows, align, ctx) == a + b + c + body + e);
    }
}


proof fn lemma_fit_prefix_is_prefix(s: Seq<char>, i: int, used: nat, budget: nat)
    requires
        0 <= i <= s.len(),
    ensures
        i + fit_prefix(s, i, used, budget).len() <= s.len(),
        fit_prefix(s, i, used, budget) == s.subrange(i, i + fit_prefix(s, i, used, budget).len()),
    decreases s.len() - i,
{
    if !(i < 0 || i >= s.len() || used + char_cols(s[i]) > budget) {
        lemma_fit_prefix_is_prefix(s, i + 1, used + char_cols(s[i]), budget);
        let r = fit_prefix(s, i + 1, used + char_cols(s[i]), budget);
        assert(seq![s[i]] + r =~= s.subrange(i, i + 1 + r.len()));
    } else {
        assert(s.subrange(i, i) =~= Seq::<char>::empty());
    }
}

/// A cut cell keeps the start of its text: it is the text itself, or a
/// prefix of it followed by `…`, or empty in a column of width zero.
pub proof fn lemma_truncated_is_prefix(s: Seq<char>, width: nat)
    ensures
        truncated_cell(s, width) == s || (width == 0 && truncated_cell(s, width).len() == 0) || exists|k: int|
            0 <= k <= s.len() && truncated_cell(s, width) == #[trigger] s.subrange(0, k) + seq!['…'],
{
    if !(spec_str_width(s) <= width) && width > 0 {
        lemma_fit_prefix_is_prefix(s, 0, 0, (width - 1) as nat);
        let k = fit_prefix(s, 0, 0, (width - 1) as nat).len() as int;
        assert(truncated_cell(s, width) == s.subrange(0, k) + seq!['…']);
    }
}

/// Padding only adds spaces around the text: none before it when aligned
/// left, none after it when aligned right, and when centred the extra
/// space, if any, goes after it.
pub proof fn lemma_padded_adds_spaces(s: Seq<char>, width: nat, align: Align)
    ensures
        exists|p: nat, q: nat|
            #![trigger spaces(p), spaces(q)]
            {
                &&& padded_cell(s, width, align) == spaces(p) + s + spaces(q)
                &&& (align == Align::Left ==> p == 0)
                &&& (align == Align::Right ==> q == 0)
                &&& (align == Align::Center ==> p <= q <= p + 1)
            },
{
    let w = spec_str_width(s);
    if w >= width {
        assert(spaces(0) + s + spaces(0) =~= s);
        assert(padded_cell(s, width, align) == spaces(0) + s + spaces(0));
    } else {
        let pad = (width - w) as nat;
        match align {
            Align::Left => {
                assert(spaces(0) + s + spaces(pad) =~= s + spaces(pad));
                assert(padded_cell(s, width, align) == spaces(0) + s + spaces(pad));
            },
            Align::Right => {
                assert(spaces(pad) + s + spaces(0) =~= spaces(pad) + s);
                assert(padded_cell(s, width, align) == spaces(pad) + s + spaces(0));
            },
            Align::Center => {
                assert(padded_cell(s, width, align) == spaces(pad / 2) + s + spaces((pad - pad / 2) as nat));
            },
        }
    }
}

} // verus!

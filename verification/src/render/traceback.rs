//! Error tracebacks, with the kernel's ANSI colors kept or stripped.

use vstd::prelude::*;

use crate::env::RenderCtx;
use crate::escape::{
    lemma_csi_stop_bounds, lemma_next_newline_bounds, lemma_osc_stop_bounds,
    next_newline, osc_stop, split_from, strip_from, stripped,
};
use crate::render::frame::{csi_stop_exec, wrap_line, wrap_line_text};
use crate::strs::{chars_of, push_char, string_of};

verus! {

/// Where the OSC body starting at `from` stops.
fn osc_stop_exec(s: &Vec<char>, from: usize) -> (r: usize)
    requires
        from <= s@.len(),
    ensures
        r == osc_stop(s@, from as int),
{
    proof {
        lemma_osc_stop_bounds(s@, from as int);
    }
    let mut j = from;
    while j < s.len()
        invariant
            from <= j <= s@.len(),
            osc_stop(s@, from as int) == osc_stop(s@, j as int),
        decreases s@.len() - j,
    {
        let c = s[j];
        if c == '\x07' {
            return j + 1;
        }
        if c == '\x1b' {
            if j + 1 < s.len() && s[j + 1] == '\\' {
                return j + 2;
            }
            return j + 1;
        }
        j += 1;
    }
    s.len()
}

/// Remove CSI sequences (`\x1b[...m`), OSC sequences (`\x1b]...BEL` or
/// `\x1b]...\x1b\`) and lone ESC characters, so terminal control sequences
/// inside kernel tracebacks or stream output are fully removed in no-color mode.
pub fn strip_ansi(s: &str) -> (r: String)
    ensures
        r@ == stripped(s@),
{
    let v = chars_of(s);
    let mut out = String::new();
    let mut i: usize = 0;
    while i < v.len()
        invariant
            i <= v@.len(),
            out@ + strip_from(v@, i as int) == stripped(v@),
        decreases v@.len() - i,
    {
        let c = v[i];
        if c == '\x1b' {
            if i + 1 < v.len() && v[i + 1] == '[' {
                proof {
                    lemma_csi_stop_bounds(v@, i + 2);
                }
                i = csi_stop_exec(&v, i + 2);
            } else if i + 1 < v.len() && v[i + 1] == ']' {
                proof {
                    lemma_osc_stop_bounds(v@, i + 2);
                }
                i = osc_stop_exec(&v, i + 2);
            } else {
                i += 1;
            }
        } else {
            let ghost rest = strip_from(v@, i + 1);
            push_char(&mut out, c);
            i += 1;
            assert(out@ + rest =~= stripped(v@));
        }
    }
    out
}

/// Public entry point for the ANSI stripping, reused by the code renderer
/// and the plain-text renderer.
pub fn strip_ansi_pub(s: &str) -> (r: String)
    ensures
        r@ == stripped(s@),
{
    strip_ansi(s)
}

/// One traceback entry, split on `\n`, each piece framed after stripping
/// (when color is off).
pub open spec fn traceback_lines(pieces: Seq<Seq<char>>, ctx: RenderCtx) -> Seq<char>
    decreases pieces.len(),
{
    if pieces.len() == 0 {
        Seq::empty()
    } else {
        let line = if ctx.use_color {
            pieces.last()
        } else {
            stripped(pieces.last())
        };
        traceback_lines(pieces.drop_last(), ctx) + wrap_line_text(line, ctx)
    }
}

/// Every traceback entry, in order.
pub open spec fn traceback_text(tb: Seq<Seq<char>>, ctx: RenderCtx) -> Seq<char>
    decreases tb.len(),
{
    if tb.len() == 0 {
        Seq::empty()
    } else {
        traceback_text(tb.drop_last(), ctx) + traceback_lines(split_from(tb.last(), 0), ctx)
    }
}

/// Frames every line of one traceback entry.
fn render_entry(entry: &str, ctx: &RenderCtx, out: &mut String)
    ensures
        final(out)@ == old(out)@ + traceback_lines(split_from(entry@, 0), *ctx),
{
    let v = chars_of(entry);
    let ghost start = out@;
    let ghost pieces = split_from(v@, 0);
    let mut i: usize = 0;
    let ghost mut done: int = 0;
    let mut finished = false;
    while !finished
        invariant
            i <= v@.len(),
            split_from(v@, 0) == pieces,
            0 <= done <= pieces.len(),
            !finished ==> pieces.subrange(done, pieces.len() as int) == split_from(v@, i as int),
            finished ==> done == pieces.len(),
            out@ == start + traceback_lines(pieces.subrange(0, done), *ctx),
        decreases (if finished {
            0
        } else {
            v@.len() + 2 - i
        }),
    {
        proof {
            lemma_next_newline_bounds(v@, i as int);
        }
        let mut k = i;
        while k < v.len() && v[k] != '\n'
            invariant
                i <= k <= v@.len(),
                next_newline(v@, i as int) == next_newline(v@, k as int),
            decreases v@.len() - k,
        {
            k += 1;
        }
        let piece = string_of(vstd::slice::slice_subrange(v.as_slice(), i, k));
        let ghost rest = split_from(v@, i as int);
        assert(next_newline(v@, i as int) == k);
        assert(rest[0] == piece@);
        assert(rest.len() >= 1);
        let ghost rem = pieces.subrange(done, pieces.len() as int);
        assert(rem == rest);
        assert(rem[0] == pieces[done]);
        let line = if ctx.use_color {
            piece
        } else {
            strip_ansi(piece.as_str())
        };
        wrap_line(line.as_str(), ctx, out);
        proof {
            assert(pieces[done] == rest[0]);
            assert(pieces.subrange(0, done + 1) =~= pieces.subrange(0, done).push(piece@));
            assert(pieces.subrange(0, done + 1).drop_last() =~= pieces.subrange(0, done));
            done = done + 1;
        }
        if k >= v.len() {
            assert(rest.len() == 1);
            assert(done == pieces.len());
            finished = true;
        } else {
            assert(rest == seq![piece@] + split_from(v@, k + 1));
            assert(rem.subrange(1, rem.len() as int) =~= split_from(v@, k + 1));
            assert(pieces.subrange(done, pieces.len() as int) =~= rem.subrange(1, rem.len() as int));
            i = k + 1;
        }
    }
    assert(pieces.subrange(0, done) =~= pieces);
}

/// Render a traceback: every entry's lines framed, ANSI kept with color and
/// stripped without.
pub fn render(traceback: &Vec<String>, ctx: &RenderCtx, out: &mut String)
    ensures
        final(out)@ == old(out)@ + traceback_text(traceback@.map_values(|t: String| t@), *ctx),
{
    let ghost tb = traceback@.map_values(|t: String| t@);
    let ghost start = out@;
    let mut n: usize = 0;
    while n < traceback.len()
        invariant
            n <= traceback@.len(),
            tb == traceback@.map_values(|t: String| t@),
            out@ == start + traceback_text(tb.subrange(0, n as int), *ctx),
        decreases traceback@.len() - n,
    {
        render_entry(traceback[n].as_str(), ctx, out);
        assert(tb.subrange(0, n + 1).drop_last() =~= tb.subrange(0, n as int));
        n += 1;
    }
    assert(tb.subrange(0, n as int) =~= tb);
}


/// How many lines a traceback takes: each entry one more than the `\n`s it
/// holds.
pub open spec fn traceback_line_count(tb: Seq<Seq<char>>) -> nat
    decreases tb.len(),
{
    if tb.len() == 0 {
        0
    } else {
        traceback_line_count(tb.drop_last()) + crate::escape::newlines(tb.last()) + 1
    }
}

proof fn lemma_entry_lines(pieces: Seq<Seq<char>>, ctx: RenderCtx)
    requires
        forall|k: int| 0 <= k < pieces.len() ==> crate::escape::no_newline(#[trigger] pieces[k]),
    ensures
        crate::escape::newlines(traceback_lines(pieces, ctx)) == pieces.len(),
    decreases pieces.len(),
{
    if pieces.len() > 0 {
        lemma_entry_lines(pieces.drop_last(), ctx);
        let p = pieces.last();
        assert(crate::escape::no_newline(p)) by {
            assert(p == pieces[pieces.len() - 1]);
        }
        let line = if ctx.use_color {
            p
        } else {
            crate::escape::lemma_strip_no_newline(p);
            stripped(p)
        };
        crate::render::frame::lemma_wrap_line_one_newline(line, ctx);
        crate::escape::lemma_newlines_concat(traceback_lines(pieces.drop_last(), ctx), wrap_line_text(line, ctx));
    }
}

/// A traceback takes exactly one framed line per line of its entries: each
/// entry is split on `\n` and every piece becomes one line.
pub proof fn lemma_traceback_line_count(tb: Seq<Seq<char>>, ctx: RenderCtx)
    ensures
        crate::escape::newlines(traceback_text(tb, ctx)) == traceback_line_count(tb),
    decreases tb.len(),
{
    if tb.len() > 0 {
        lemma_traceback_line_count(tb.drop_last(), ctx);
        let e = tb.last();
        crate::escape::lemma_split_pieces(e, 0);
        assert(e.subrange(0, e.len() as int) =~= e);
        lemma_entry_lines(split_from(e, 0), ctx);
        crate::escape::lemma_newlines_concat(
            traceback_text(tb.drop_last(), ctx),
            traceback_lines(split_from(e, 0), ctx),
        );
    }
}

} // verus!

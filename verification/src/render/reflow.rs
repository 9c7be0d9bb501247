//! Word wrapping for border-free document lines: prose wider than the
//! terminal is broken at the last space that fits, or inside a word when no
//! space does.

use vstd::prelude::*;

use crate::env::RenderCtx;
use crate::escape::{csi_stop, esc, lemma_csi_stop_bounds, starts_csi, visible_width_from};
use crate::render::frame::{bare_line, bare_line_text, clamp_usize, csi_stop_exec};
use crate::strs::{chars_of, sub_string};
use crate::width::{char_cols, char_cols_exec};

verus! {

/// Where a line starting at `s[i]`, with `used` columns already filled,
/// must stop to stay within `w` columns: before the first character that
/// would overflow. Escape sequences take no columns.
pub open spec fn fit_end(s: Seq<char>, i: int, used: nat, w: nat) -> int
    decreases s.len() - i,
{
    if i < 0 || i >= s.len() {
        s.len() as int
    } else if starts_csi(s, i) {
        let stop = csi_stop(s, i + 2);
        if stop <= i || stop > s.len() {
            s.len() as int
        } else {
            fit_end(s, stop, used, w)
        }
    } else if s[i] == esc() {
        fit_end(s, i + 1, used, w)
    } else if used + char_cols(s[i]) > w {
        i
    } else {
        fit_end(s, i + 1, used + char_cols(s[i]), w)
    }
}

/// The last space in `s[lo + 1 ..= hi]`, if any.
pub open spec fn last_space(s: Seq<char>, lo: int, hi: int) -> Option<int>
    decreases hi - lo,
{
    if hi <= lo {
        None
    } else if hi < s.len() && s[hi] == ' ' {
        Some(hi)
    } else {
        last_space(s, lo, hi - 1)
    }
}

/// Where a line starting at `i` that does not fit is cut: where it stops
/// fitting, but after at least one character.
pub open spec fn cut_at(s: Seq<char>, i: int, w: nat) -> int {
    let p = fit_end(s, i, 0, w);
    if p <= i {
        i + 1
    } else {
        p
    }
}

/// The lines `s[i..]` is wrapped into for `w` columns: all of it when it
/// fits (or there is no room at all); else the part before the last space
/// that fits, the space dropped, or, with no such space, the part that
/// fits; then the rest, wrapped the same way.
pub open spec fn reflow_from(s: Seq<char>, i: int, w: nat) -> Seq<Seq<char>>
    decreases s.len() - i,
{
    if i < 0 || i >= s.len() || w == 0 || clamp_usize(visible_width_from(s, i)) <= w {
        seq![s.subrange(i, s.len() as int)]
    } else {
        let p = cut_at(s, i, w);
        match last_space(s, i, p) {
            Some(q) => seq![s.subrange(i, q)] + if i < q + 1 < s.len() {
                reflow_from(s, q + 1, w)
            } else {
                Seq::<Seq<char>>::empty()
            },
            None => seq![s.subrange(i, p)] + if i < p < s.len() {
                reflow_from(s, p, w)
            } else {
                Seq::<Seq<char>>::empty()
            },
        }
    }
}

/// Lines emitted border-free, one after another.
pub open spec fn bare_lines(ls: Seq<Seq<char>>, ctx: RenderCtx) -> Seq<char>
    decreases ls.len(),
{
    if ls.len() == 0 {
        Seq::empty()
    } else {
        bare_line_text(ls[0], ctx) + bare_lines(ls.drop_first(), ctx)
    }
}

/// A prose line of a document: wrapped to the terminal width, each piece
/// emitted border-free.
pub open spec fn reflowed_text(content: Seq<char>, ctx: RenderCtx) -> Seq<char> {
    bare_lines(reflow_from(content, 0, ctx.width as nat), ctx)
}

fn visible_width_from_exec(v: &Vec<char>, i: usize) -> (r: usize)
    requires
        i <= v@.len(),
    ensures
        r == clamp_usize(visible_width_from(v@, i as int)),
{
    let mut w: usize = 0;
    let mut k = i;
    while k < v.len()
        invariant
            i <= k <= v@.len(),
            clamp_usize((w + visible_width_from(v@, k as int)) as nat) == clamp_usize(visible_width_from(v@, i as int)),
        decreases v@.len() - k,
    {
        let c = v[k];
        if c == '\x1b' && k + 1 < v.len() && v[k + 1] == '[' {
            proof {
                lemma_csi_stop_bounds(v@, k + 2);
            }
            k = csi_stop_exec(v, k + 2);
        } else if c == '\x1b' {
            k += 1;
        } else {
            w = w.saturating_add(char_cols_exec(c));
            k += 1;
        }
    }
    w
}

fn fit_end_exec(v: &Vec<char>, i: usize, w: usize) -> (r: usize)
    requires
        i <= v@.len(),
    ensures
        r == fit_end(v@, i as int, 0, w as nat),
        i <= r <= v@.len(),
{
    let mut used: usize = 0;
    let mut k = i;
    while k < v.len()
        invariant
            i <= k <= v@.len(),
            used <= w,
            fit_end(v@, i as int, 0, w as nat) == fit_end(v@, k as int, used as nat, w as nat),
        decreases v@.len() - k,
    {
        let c = v[k];
        if c == '\x1b' && k + 1 < v.len() && v[k + 1] == '[' {
            proof {
                lemma_csi_stop_bounds(v@, k + 2);
            }
            k = csi_stop_exec(v, k + 2);
        } else if c == '\x1b' {
            k += 1;
        } else {
            let cols = char_cols_exec(c);
            if cols > w - used {
                return k;
            }
            used = used + cols;
            k += 1;
        }
    }
    v.len()
}

fn last_space_exec(v: &Vec<char>, lo: usize, hi: usize) -> (r: Option<usize>)
    requires
        lo <= hi,
    ensures
        r matches Some(q) ==> last_space(v@, lo as int, hi as int) == Some(q as int) && lo < q <= hi && q < v@.len(),
        r is None ==> last_space(v@, lo as int, hi as int) is None,
{
    let mut j = hi;
    while j > lo
        invariant
            lo <= j <= hi,
            last_space(v@, lo as int, hi as int) == last_space(v@, lo as int, j as int),
        decreases j - lo,
    {
        if j < v.len() && v[j] == ' ' {
            return Some(j);
        }
        j -= 1;
    }
    None
}

proof fn lemma_bare_lines_cons(x: Seq<char>, rest: Seq<Seq<char>>, ctx: RenderCtx)
    ensures
        bare_lines(seq![x] + rest, ctx) == bare_line_text(x, ctx) + bare_lines(rest, ctx),
{
    assert((seq![x] + rest).drop_first() =~= rest);
    assert((seq![x] + rest)[0] == x);
}

proof fn lemma_bare_lines_one(x: Seq<char>, ctx: RenderCtx)
    ensures
        bare_lines(seq![x], ctx) == bare_line_text(x, ctx),
{
    lemma_bare_lines_cons(x, Seq::empty(), ctx);
    assert(seq![x] + Seq::<Seq<char>>::empty() =~= seq![x]);
    assert(bare_lines(Seq::<Seq<char>>::empty(), ctx) == Seq::<char>::empty());
    assert(bare_line_text(x, ctx) + Seq::<char>::empty() =~= bare_line_text(x, ctx));
}

/// Emits a prose line border-free, wrapped to the terminal width.
pub fn reflow_line(content: &str, ctx: &RenderCtx, out: &mut String)
    ensures
        final(out)@ == old(out)@ + reflowed_text(content@, *ctx),
{
    let v = chars_of(content);
    let w = ctx.width;
    let ghost start = out@;
    let mut i: usize = 0;
    loop
        invariant
            i < v@.len() || (i == 0 && v@.len() == 0),
            v@ == content@,
            w == ctx.width,
            start == old(out)@,
            start + bare_lines(reflow_from(v@, 0, w as nat), *ctx) == out@ + bare_lines(
                reflow_from(v@, i as int, w as nat),
                *ctx,
            ),
        decreases v@.len() - i,
    {
        if i >= v.len() || w == 0 || visible_width_from_exec(&v, i) <= w {
            let piece = sub_string(&v, i, v.len());
            proof {
                lemma_bare_lines_one(piece@, *ctx);
            }
            bare_line(piece.as_str(), ctx, out);
            return;
        }
        let p0 = fit_end_exec(&v, i, w);
        let p = if p0 <= i {
            i + 1
        } else {
            p0
        };
        assert(p == cut_at(v@, i as int, w as nat));
        match last_space_exec(&v, i, p) {
            Some(q) => {
                let piece = sub_string(&v, i, q);
                proof {
                    lemma_bare_lines_cons(
                        piece@,
                        if i < q + 1 < v@.len() {
                            reflow_from(v@, q + 1, w as nat)
                        } else {
                            Seq::<Seq<char>>::empty()
                        },
                        *ctx,
                    );
                }
                bare_line(piece.as_str(), ctx, out);
                if q + 1 >= v.len() {
                    return;
                }
                i = q + 1;
            },
            None => {
                let piece = sub_string(&v, i, p);
                proof {
                    lemma_bare_lines_cons(
                        piece@,
                        if i < p < v@.len() {
                            reflow_from(v@, p as int, w as nat)
                        } else {
                            Seq::<Seq<char>>::empty()
                        },
                        *ctx,
                    );
                }
                bare_line(piece.as_str(), ctx, out);
                if p >= v.len() {
                    return;
                }
                i = p;
            },
        }
    }
}

} // verus!

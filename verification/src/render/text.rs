//! Plain text (streams, `text/plain`, raw cells) as framed lines.

use vstd::prelude::*;

use crate::env::RenderCtx;
use crate::escape::{lemma_next_newline_bounds, lines_from, next_newline};
use crate::render::frame::{wrap_line, wrap_line_text};
use crate::render::table::texts;
use crate::strs::{chars_of, string_of};

verus! {

/// The pieces of `s[i..]` as `split_inclusive('\n')` yields them: each keeps
/// its newline; there is none for empty text and none after a final newline.
pub open spec fn lwe_from(s: Seq<char>, i: int) -> Seq<Seq<char>>
    decreases s.len() - i,
{
    if i < 0 || i >= s.len() {
        Seq::empty()
    } else {
        let k = next_newline(s, i);
        if k < i || k > s.len() {
            Seq::empty()
        } else if k == s.len() {
            seq![s.subrange(i, k)]
        } else {
            seq![s.subrange(i, k + 1)] + lwe_from(s, k + 1)
        }
    }
}

/// A piece without its trailing newline, if it has one.
pub open spec fn without_newline(p: Seq<char>) -> Seq<char> {
    if p.len() > 0 && p.last() == '\n' {
        p.drop_last()
    } else {
        p
    }
}

/// Dropping each piece's newline gives the lines.
pub proof fn lemma_lines_of_pieces(s: Seq<char>, i: int)
    requires
        0 <= i <= s.len(),
    ensures
        lwe_from(s, i).map_values(|p: Seq<char>| without_newline(p)) == lines_from(s, i),
    decreases s.len() - i,
{
    if i < s.len() {
        lemma_next_newline_bounds(s, i);
        let k = next_newline(s, i);
        if k < s.len() {
            lemma_lines_of_pieces(s, k + 1);
            assert(s.subrange(i, k + 1).drop_last() =~= s.subrange(i, k));
            assert(lwe_from(s, i).map_values(|p: Seq<char>| without_newline(p)) =~= lines_from(s, i));
        } else {
            if k > i {
                assert(s.subrange(i, k).last() == s[k - 1]);
            }
            assert(lwe_from(s, i).map_values(|p: Seq<char>| without_newline(p)) =~= lines_from(s, i));
        }
    } else {
        assert(lwe_from(s, i).map_values(|p: Seq<char>| without_newline(p)) =~= lines_from(s, i));
    }
}

/// Splits text after every newline, as `str::split_inclusive('\n')` (and
/// syntect's `LinesWithEndings`) does.
pub fn lines_with_endings(s: &str) -> (r: Vec<String>)
    ensures
        texts(r@) == lwe_from(s@, 0),
{
    let v = chars_of(s);
    let mut r: Vec<String> = Vec::new();
    let mut i: usize = 0;
    while i < v.len()
        invariant
            i <= v@.len(),
            v@ == s@,
            texts(r@) + lwe_from(v@, i as int) == lwe_from(v@, 0),
        decreases v@.len() - i,
    {
        proof {
            lemma_next_newline_bounds(v@, i as int);
        }
        let mut k = i;
        while k < v.len() && v[k] != '\n'
            invariant
                i <= k <= v@.len(),
                next_newline(v@, i as int) == next_newline(v@, k as int),
            decreases v@.len() - k,
        {
            k += 1;
        }
        let end = if k < v.len() {
            k + 1
        } else {
            k
        };
        let piece = string_of(vstd::slice::slice_subrange(v.as_slice(), i, end));
        let ghost rest = lwe_from(v@, i as int);
        proof {
            if k < v@.len() {
                assert(rest == seq![piece@] + lwe_from(v@, end as int));
            } else {
                assert(rest == seq![piece@]);
                assert(lwe_from(v@, end as int) =~= Seq::<Seq<char>>::empty());
            }
        }
        let ghost before = r@;
        r.push(piece);
        proof {
            crate::render::table::lemma_texts_push(before, r@.last());
            assert(lwe_from(v@, i as int).subrange(1, lwe_from(v@, i as int).len() as int) =~= lwe_from(v@, end as int));
        }
        i = end;
    }
    assert(lwe_from(v@, i as int) =~= Seq::<Seq<char>>::empty());
    assert(texts(r@) + Seq::<Seq<char>>::empty() =~= texts(r@));
    r
}

/// Framed lines, one after another.
pub open spec fn framed_lines(lines: Seq<Seq<char>>, ctx: RenderCtx) -> Seq<char>
    decreases lines.len(),
{
    if lines.len() == 0 {
        Seq::empty()
    } else {
        framed_lines(lines.drop_last(), ctx) + wrap_line_text(lines.last(), ctx)
    }
}

/// What `render` writes: each line framed; empty text still gets one
/// (empty) framed line.
pub open spec fn text_block(text: Seq<char>, ctx: RenderCtx) -> Seq<char> {
    if text.len() == 0 {
        wrap_line_text(Seq::empty(), ctx)
    } else {
        framed_lines(lines_from(text, 0), ctx)
    }
}

fn strip_newline(p: String) -> (r: String)
    ensures
        r@ == without_newline(p@),
{
    let v = chars_of(p.as_str());
    if v.len() > 0 && v[v.len() - 1] == '\n' {
        string_of(vstd::slice::slice_subrange(v.as_slice(), 0, v.len() - 1))
    } else {
        p
    }
}

/// Frame every line of `text`.
pub fn render(text: &str, ctx: &RenderCtx, out: &mut String)
    ensures
        final(out)@ == old(out)@ + text_block(text@, *ctx),
{
    let pieces = lines_with_endings(text);
    let ghost lines = lines_from(text@, 0);
    proof {
        lemma_lines_of_pieces(text@, 0);
        assert(lines.len() == pieces@.len());
        assert forall|j: int| 0 <= j < lines.len() implies lines[j] == without_newline(#[trigger] pieces@[j]@) by {
            assert(texts(pieces@)[j] == pieces@[j]@);
        }
    }
    let ghost start = out@;
    let mut n: usize = 0;
    while n < pieces.len()
        invariant
            n <= pieces@.len(),
            lines.len() == pieces@.len(),
            forall|j: int| 0 <= j < lines.len() ==> lines[j] == without_newline(#[trigger] pieces@[j]@),
            out@ == start + framed_lines(lines.subrange(0, n as int), *ctx),
        decreases pieces@.len() - n,
    {
        let line = strip_newline(pieces[n].clone());
        wrap_line(line.as_str(), ctx, out);
        assert(lines.subrange(0, n + 1).drop_last() =~= lines.subrange(0, n as int));
        n += 1;
    }
    assert(lines.subrange(0, n as int) =~= lines);
    if pieces.len() == 0 {
        proof {
            if text@.len() > 0 {
                lemma_next_newline_bounds(text@, 0);
                assert(lwe_from(text@, 0).len() > 0);
            }
            assert(""@ =~= Seq::<char>::empty()) by {
                reveal_strlit("");
            }
        }
        wrap_line("", ctx, out);
    }
}


/// A final newline adds no line: text that does not already end with a
/// newline frames the same with one more.
pub proof fn lemma_final_newline_adds_no_line(s: Seq<char>)
    requires
        s.len() > 0,
        s.last() != '\n',
    ensures
        lines_from(s.push('\n'), 0) == lines_from(s, 0),
{
    lemma_final_newline_from(s, 0);
}

proof fn lemma_final_newline_from(s: Seq<char>, i: int)
    requires
        s.len() > 0,
        s.last() != '\n',
        0 <= i < s.len(),
    ensures
        lines_from(s.push('\n'), i) == lines_from(s, i),
    decreases s.len() - i,
{
    let t = s.push('\n');
    lemma_next_newline_bounds(s, i);
    lemma_next_newline_bounds(t, i);
    lemma_next_newline_same(s, i);
    let k = next_newline(s, i);
    if k < s.len() {
        assert(k + 1 < s.len()) by {
            if k + 1 == s.len() {
                assert(s[k] == '\n');
            }
        }
        lemma_final_newline_from(s, k + 1);
        assert(t.subrange(i, k) =~= s.subrange(i, k));
    } else {
        assert(next_newline(t, i) == s.len());
        assert(t.subrange(i, k) =~= s.subrange(i, k));
        assert(lines_from(t, k + 1) =~= Seq::<Seq<char>>::empty());
        assert(lines_from(t, i) =~= seq![t.subrange(i, k)] + lines_from(t, k + 1));
    }
}

/// Up to the end of `s`, newlines are found in `s` and in `s` with a newline
/// appended at the same places.
proof fn lemma_next_newline_same(s: Seq<char>, i: int)
    requires
        0 <= i <= s.len(),
    ensures
        next_newline(s.push('\n'), i) == next_newline(s, i),
    decreases s.len() - i,
{
    let t = s.push('\n');
    if i < s.len() {
        assert(t[i] == s[i]);
        if s[i] != '\n' {
            lemma_next_newline_same(s, i + 1);
        }
    } else {
        assert(t[i] == '\n');
    }
}


/// Each piece is non-empty, and a newline can only be its last character.
pub proof fn lemma_lwe_pieces(s: Seq<char>, i: int)
    requires
        0 <= i <= s.len(),
    ensures
        forall|k: int| 0 <= k < lwe_from(s, i).len() ==> (#[trigger] lwe_from(s, i)[k]).len() > 0,
        forall|k: int, j: int|
            0 <= k < lwe_from(s, i).len() && 0 <= j < lwe_from(s, i)[k].len() - 1 ==> #[trigger] lwe_from(s, i)[k][j]
                != '\n',
    decreases s.len() - i,
{
    if i < s.len() {
        lemma_next_newline_bounds(s, i);
        let k0 = next_newline(s, i);
        if k0 < s.len() {
            lemma_lwe_pieces(s, k0 + 1);
            let rest = lwe_from(s, k0 + 1);
            let all = lwe_from(s, i);
            assert forall|k: int| 0 <= k < all.len() implies (#[trigger] all[k]).len() > 0 by {
                if k > 0 {
                    assert(all[k] == rest[k - 1]);
                }
            }
            assert forall|k: int, j: int| 0 <= k < all.len() && 0 <= j < all[k].len() - 1 implies #[trigger] all[k][j] != '\n' by {
                if k > 0 {
                    assert(all[k] == rest[k - 1]);
                } else {
                    assert(all[0][j] == s[i + j]);
                }
            }
        } else {
            let all = lwe_from(s, i);
            assert forall|k: int, j: int| 0 <= k < all.len() && 0 <= j < all[k].len() - 1 implies #[trigger] all[k][j] != '\n' by {
                assert(all[0][j] == s[i + j]);
            }
        }
    }
}


/// Pieces of text without escapes hold none either.
pub proof fn lemma_lwe_plain(s: Seq<char>, i: int)
    requires
        0 <= i <= s.len(),
        crate::escape::no_escape(s),
    ensures
        forall|k: int| 0 <= k < lwe_from(s, i).len() ==> crate::escape::no_escape(#[trigger] lwe_from(s, i)[k]),
    decreases s.len() - i,
{
    if i < s.len() {
        lemma_next_newline_bounds(s, i);
        let k0 = next_newline(s, i);
        let all = lwe_from(s, i);
        if k0 < s.len() {
            lemma_lwe_plain(s, k0 + 1);
            let rest = lwe_from(s, k0 + 1);
            assert forall|k: int| 0 <= k < all.len() implies crate::escape::no_escape(#[trigger] all[k]) by {
                if k > 0 {
                    assert(all[k] == rest[k - 1]);
                } else {
                    assert forall|j: int| 0 <= j < all[0].len() implies all[0][j] != crate::escape::esc() by {
                        assert(all[0][j] == s[i + j]);
                    }
                }
            }
        } else {
            assert forall|k: int| 0 <= k < all.len() implies crate::escape::no_escape(#[trigger] all[k]) by {
                assert forall|j: int| 0 <= j < all[0].len() implies all[0][j] != crate::escape::esc() by {
                    assert(all[0][j] == s[i + j]);
                }
            }
        }
    }
}

} // verus!

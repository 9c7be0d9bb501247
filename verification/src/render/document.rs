//! Standalone Markdown documents: strip leading YAML frontmatter, then drive
//! the shared Markdown renderer through a border-free `BareSink`.

use vstd::prelude::*;

use crate::env::RenderCtx;
use crate::escape::{lemma_next_newline_bounds, next_newline};
use crate::render::code::Highlighting;
use crate::render::markdown::{blocks_emitted, markdown_events, md_blocks};
use crate::render::sink::BareSink;
use crate::strs::{chars_of, str_is, sub_string};

verus! {

/// `s` without its trailing `\r` and `\n` characters.
pub open spec fn trim_eol(s: Seq<char>) -> Seq<char>
    decreases s.len(),
{
    if s.len() > 0 && (s.last() == '\r' || s.last() == '\n') {
        trim_eol(s.drop_last())
    } else {
        s
    }
}

/// Where the line starting at `i` ends: after its newline, or at the end.
pub open spec fn line_end(s: Seq<char>, i: int) -> int {
    let k = next_newline(s, i);
    if k < s.len() {
        k + 1
    } else {
        s.len() as int
    }
}

/// Whether a line closes a frontmatter block: `---` or `...`.
pub open spec fn is_close(line: Seq<char>) -> bool {
    trim_eol(line) == "---"@ || trim_eol(line) == "..."@
}

/// The end of the first closing line at or after position `i`.
pub open spec fn fm_close(s: Seq<char>, i: int) -> Option<int>
    decreases s.len() - i,
{
    if i < 0 || i >= s.len() {
        None
    } else {
        let e = line_end(s, i);
        if e <= i {
            None
        } else if is_close(s.subrange(i, e)) {
            Some(e)
        } else {
            fm_close(s, e)
        }
    }
}

/// `source` after a leading frontmatter block — a first line of exactly
/// `---` closed by a later line of `---` or `...` — or `source` unchanged
/// when it does not open with one. Only a block at the very start counts.
pub open spec fn strip_fm(s: Seq<char>) -> Seq<char> {
    if s.len() == 0 {
        s
    } else {
        let e0 = line_end(s, 0);
        if trim_eol(s.subrange(0, e0)) != "---"@ {
            s
        } else {
            match fm_close(s, e0) {
                Some(e) => s.subrange(e, s.len() as int),
                None => s,
            }
        }
    }
}

fn line_end_exec(v: &Vec<char>, i: usize) -> (e: usize)
    requires
        i < v@.len(),
    ensures
        e == line_end(v@, i as int),
        i < e <= v@.len(),
{
    proof {
        lemma_next_newline_bounds(v@, i as int);
    }
    let mut k = i;
    while k < v.len() && v[k] != '\n'
        invariant
            i <= k <= v@.len(),
            next_newline(v@, i as int) == next_newline(v@, k as int),
        decreases v@.len() - k,
    {
        k += 1;
    }
    if k < v.len() {
        k + 1
    } else {
        k
    }
}

fn trim_eol_string(v: &Vec<char>, from: usize, to: usize) -> (r: String)
    requires
        from <= to <= v@.len(),
    ensures
        r@ == trim_eol(v@.subrange(from as int, to as int)),
{
    let mut n = to;
    proof {
        assert(v@.subrange(from as int, to as int) =~= v@.subrange(from as int, n as int));
    }
    while n > from && (v[n - 1] == '\r' || v[n - 1] == '\n')
        invariant
            from <= n <= to <= v@.len(),
            trim_eol(v@.subrange(from as int, to as int)) == trim_eol(v@.subrange(from as int, n as int)),
        decreases n,
    {
        proof {
            assert(v@.subrange(from as int, n as int).drop_last() =~= v@.subrange(from as int, n - 1));
        }
        n -= 1;
    }
    sub_string(v, from, n)
}

/// If `source` opens with a YAML frontmatter block — a first line of exactly
/// `---` closed by a later line of `---` or `...` — return the text after
/// it; otherwise return `source` unchanged. Only a block at the very start
/// counts.
pub fn strip_frontmatter(source: &str) -> (r: String)
    ensures
        r@ == strip_fm(source@),
{
    let v = chars_of(source);
    if v.len() == 0 {
        return String::from_str(source);
    }
    let e0 = line_end_exec(&v, 0);
    let first = trim_eol_string(&v, 0, e0);
    if !str_is(first.as_str(), "---") {
        return String::from_str(source);
    }
    let mut i = e0;
    while i < v.len()
        invariant
            e0 <= i <= v@.len(),
            v@ == source@,
            v@.len() > 0,
            e0 == line_end(v@, 0),
            trim_eol(v@.subrange(0, e0 as int)) == "---"@,
            fm_close(v@, e0 as int) == fm_close(v@, i as int),
        decreases v@.len() - i,
    {
        let e = line_end_exec(&v, i);
        let t = trim_eol_string(&v, i, e);
        if str_is(t.as_str(), "---") || str_is(t.as_str(), "...") {
            assert(is_close(v@.subrange(i as int, e as int)));
            assert(fm_close(v@, i as int) == Some(e as int));
            return sub_string(&v, e, v.len());
        }
        i = e;
    }
    String::from_str(source)
}

/// Render a Markdown document as bare text (no cell frame): the frontmatter
/// stripped, the rest through the Markdown renderer into a `BareSink`.
pub fn render_document(source: &str, ctx: &RenderCtx, hl: &Highlighting, out: &mut String)
    ensures
        blocks_emitted::<BareSink>(
            old(out)@,
            final(out)@,
            md_blocks(markdown_events(strip_fm(source@)), ctx.use_color, ctx.width),
            *ctx,
            *hl,
        ),
{
    let body = strip_frontmatter(source);
    let mut taken = String::new();
    std::mem::swap(&mut taken, out);
    let mut sink = BareSink::new(taken);
    crate::render::markdown::render(body.as_str(), ctx, hl, &mut sink);
    *out = sink.into_string();
}

/// The extension of a path's file name: what follows its last `.`, unless
/// that dot starts the name.
pub open spec fn extension(path: Seq<char>) -> Option<Seq<char>> {
    let name = crate::setup::last_part(path);
    let dot = last_dot(name, name.len() as int);
    if dot <= 0 {
        None
    } else {
        Some(name.subrange(dot + 1, name.len() as int))
    }
}

/// The index of the last `.` in `s[..n]`, or -1.
pub open spec fn last_dot(s: Seq<char>, n: int) -> int
    decreases n,
{
    if n <= 0 {
        -1
    } else if s[n - 1] == '.' {
        n - 1
    } else {
        last_dot(s, n - 1)
    }
}

pub proof fn lemma_last_dot(s: Seq<char>, n: int)
    requires
        0 <= n <= s.len(),
    ensures
        -1 <= last_dot(s, n) < n,
        last_dot(s, n) >= 0 ==> s[last_dot(s, n)] == '.',
    decreases n,
{
    if n > 0 && s[n - 1] != '.' {
        lemma_last_dot(s, n - 1);
    }
}

/// Whether a path names a Markdown document: its extension is `md`, in any
/// ASCII case.
pub fn is_markdown_path(path: &str) -> (r: bool)
    ensures
        r == (extension(path@) matches Some(e) && crate::strs::lower(e) == "md"@),
{
    let name = chars_of(crate::setup::file_name(path).as_str());
    let mut n = name.len();
    proof {
        lemma_last_dot(name@, n as int);
    }
    while n > 0 && name[n - 1] != '.'
        invariant
            n <= name@.len(),
            last_dot(name@, name@.len() as int) == last_dot(name@, n as int),
        decreases n,
    {
        n -= 1;
    }
    proof {
        lemma_last_dot(name@, name@.len() as int);
    }
    if n <= 1 {
        return false;
    }
    let ext = crate::strs::lower_vec(&crate::strs::sub_vec(&name, n, name.len()));
    let md = chars_of("md");
    crate::numeric::chars_eq(&ext, &md)
}


/// What is left after the frontmatter is a suffix of the source: stripping
/// only ever removes a leading block.
pub proof fn lemma_strip_fm_suffix(s: Seq<char>)
    ensures
        strip_fm(s).len() <= s.len(),
        strip_fm(s) == s.subrange(s.len() - strip_fm(s).len(), s.len() as int),
{
    if s.len() > 0 {
        let e0 = line_end(s, 0);
        lemma_next_newline_bounds(s, 0);
        if trim_eol(s.subrange(0, e0)) == "---"@ {
            lemma_fm_close_bounds(s, e0);
        }
    }
    assert(s.subrange(0, s.len() as int) =~= s);
}

proof fn lemma_fm_close_bounds(s: Seq<char>, i: int)
    ensures
        fm_close(s, i) matches Some(e) ==> 0 <= i < e <= s.len(),
    decreases s.len() - i,
{
    if 0 <= i < s.len() {
        lemma_next_newline_bounds(s, i);
        let e = line_end(s, i);
        if e > i && !is_close(s.subrange(i, e)) {
            lemma_fm_close_bounds(s, e);
        }
    }
}


/// Whether a line starts at `p`, counting from a line start `i`.
pub open spec fn line_start(s: Seq<char>, i: int, p: int) -> bool {
    p == i || (i < p && s[p - 1] == '\n')
}

/// `fm_close` finds the first closing line: it ends the first line,
/// starting at `i` or after it, that is `---` or `...`; none when no such
/// line starts there.
pub proof fn lemma_fm_close_first(s: Seq<char>, i: int)
    requires
        0 <= i <= s.len(),
    ensures
        fm_close(s, i) matches Some(e) ==> exists|j: int|
            {
                &&& i <= j < e
                &&& line_start(s, i, j)
                &&& line_end(s, j) == e
                &&& is_close(s.subrange(j, e))
                &&& forall|p: int|
                    i <= p < j && #[trigger] line_start(s, i, p) ==> !is_close(s.subrange(p, line_end(s, p)))
            },
        fm_close(s, i) is None ==> forall|p: int|
            i <= p < s.len() && #[trigger] line_start(s, i, p) ==> !is_close(s.subrange(p, line_end(s, p))),
    decreases s.len() - i,
{
    if i < s.len() {
        lemma_next_newline_bounds(s, i);
        let e1 = line_end(s, i);
        // no line starts strictly inside the first line
        assert forall|p: int| i < p < e1 implies !#[trigger] line_start(s, i, p) by {
            assert(p - 1 < next_newline(s, i));
        }
        if is_close(s.subrange(i, e1)) {
            assert(line_start(s, i, i));
        } else {
            lemma_fm_close_first(s, e1);
            if e1 < s.len() {
                assert(s[e1 - 1] == '\n');
            }
            assert forall|p: int| i <= p < e1 && #[trigger] line_start(s, i, p) implies !is_close(
                s.subrange(p, line_end(s, p)),
            ) by {
                assert(p == i);
            }
            assert forall|p: int| e1 <= p < s.len() && #[trigger] line_start(s, e1, p) implies line_start(s, i, p) by {}
            assert forall|p: int| e1 <= p && #[trigger] line_start(s, i, p) implies line_start(s, e1, p) by {}
            match fm_close(s, e1) {
                Some(e) => {
                    let j = choose|j: int|
                        {
                            &&& e1 <= j < e
                            &&& line_start(s, e1, j)
                            &&& line_end(s, j) == e
                            &&& is_close(s.subrange(j, e))
                            &&& forall|p: int|
                                e1 <= p < j && #[trigger] line_start(s, e1, p) ==> !is_close(
                                    s.subrange(p, line_end(s, p)),
                                )
                        };
                    assert(line_start(s, i, j));
                    assert forall|p: int| i <= p < j && #[trigger] line_start(s, i, p) implies !is_close(
                        s.subrange(p, line_end(s, p)),
                    ) by {
                        if p >= e1 {
                            assert(line_start(s, e1, p));
                        }
                    }
                },
                None => {
                    assert forall|p: int| i <= p < s.len() && #[trigger] line_start(s, i, p) implies !is_close(
                        s.subrange(p, line_end(s, p)),
                    ) by {
                        if p >= e1 {
                            assert(line_start(s, e1, p));
                        }
                    }
                },
            }
        }
    }
}


/// Frontmatter ends at the first closing line: when the first line is
/// `---` and a later line is `---` or `...`, what is left is the text after
/// the first such line; otherwise the source is left as it is.
pub proof fn lemma_frontmatter_ends_at_first_close(s: Seq<char>)
    ensures
        s.len() > 0 && trim_eol(s.subrange(0, line_end(s, 0))) == "---"@ && (exists|p: int|
            line_end(s, 0) <= p < s.len() && #[trigger] line_start(s, line_end(s, 0), p) && is_close(
                s.subrange(p, line_end(s, p)),
            )) ==> exists|j: int|
            {
                &&& line_end(s, 0) <= j < s.len()
                &&& #[trigger] line_start(s, line_end(s, 0), j)
                &&& is_close(s.subrange(j, line_end(s, j)))
                &&& forall|p: int|
                    line_end(s, 0) <= p < j && #[trigger] line_start(s, line_end(s, 0), p) ==> !is_close(
                        s.subrange(p, line_end(s, p)),
                    )
                &&& strip_fm(s) == s.subrange(line_end(s, j), s.len() as int)
            },
        !(s.len() > 0 && trim_eol(s.subrange(0, line_end(s, 0))) == "---"@ && (exists|p: int|
            line_end(s, 0) <= p < s.len() && #[trigger] line_start(s, line_end(s, 0), p) && is_close(
                s.subrange(p, line_end(s, p)),
            ))) ==> strip_fm(s) == s,
{
    if s.len() > 0 {
        let e0 = line_end(s, 0);
        lemma_next_newline_bounds(s, 0);
        lemma_fm_close_first(s, e0);
        lemma_fm_close_bounds(s, e0);
    }
}

} // verus!

//! Terminal escape sequences in rendered text: where a control sequence
//! ends, how wide a line looks once its escapes are skipped, and which
//! lines hold only complete sequences.

use vstd::prelude::*;

use crate::width::char_cols;

verus! {

/// The escape character that opens every terminal control sequence.
pub open spec fn esc() -> char {
    '\x1b'
}

/// A byte that ends a CSI sequence (`0x40..=0x7E`).
pub open spec fn is_final(c: char) -> bool {
    0x40 <= (c as u32) && (c as u32) <= 0x7e
}

/// `s[i..]` opens a CSI sequence: ESC followed by `[`.
pub open spec fn starts_csi(s: Seq<char>, i: int) -> bool {
    0 <= i && i + 1 < s.len() && s[i] == esc() && s[i + 1] == '['
}

/// Index of the first final byte at or after `from`.
pub open spec fn first_final(s: Seq<char>, from: int) -> Option<int>
    decreases s.len() - from,
{
    if from < 0 || from >= s.len() {
        None
    } else if is_final(s[from]) {
        Some(from)
    } else {
        first_final(s, from + 1)
    }
}

/// Where a CSI whose parameters start at `from` stops: just past its final
/// byte, or at the end of `s` when it is never closed.
pub open spec fn csi_stop(s: Seq<char>, from: int) -> int {
    match first_final(s, from) {
        Some(k) => k + 1,
        None => s.len() as int,
    }
}

pub proof fn lemma_first_final_bounds(s: Seq<char>, from: int)
    ensures
        first_final(s, from) matches Some(k) ==> (from <= k < s.len() && 0 <= k && is_final(s[k])),
    decreases s.len() - from,
{
    if from >= 0 && from < s.len() && !is_final(s[from]) {
        lemma_first_final_bounds(s, from + 1);
    }
}

/// Every index between `from` and the first final byte holds a non-final char.
pub proof fn lemma_first_final_none_before(s: Seq<char>, from: int, j: int)
    requires
        0 <= from <= j < s.len(),
        first_final(s, from) matches Some(k) ==> j < k,
    ensures
        !is_final(s[j]),
    decreases j - from,
{
    if j > from {
        if is_final(s[from]) {
        } else {
            lemma_first_final_none_before(s, from + 1, j);
        }
    }
}

pub proof fn lemma_csi_stop_bounds(s: Seq<char>, from: int)
    requires
        0 <= from <= s.len(),
    ensures
        from <= csi_stop(s, from) <= s.len(),
        from < s.len() ==> from < csi_stop(s, from),
{
    lemma_first_final_bounds(s, from);
}

/// Display columns of `s[i..]`, skipping CSI sequences and stray escapes.
pub open spec fn visible_width_from(s: Seq<char>, i: int) -> nat
    decreases s.len() - i,
{
    if i < 0 || i >= s.len() {
        0
    } else if starts_csi(s, i) {
        let stop = csi_stop(s, i + 2);
        if stop <= i || stop > s.len() {
            0
        } else {
            visible_width_from(s, stop)
        }
    } else if s[i] == esc() {
        visible_width_from(s, i + 1)
    } else {
        char_cols(s[i]) + visible_width_from(s, i + 1)
    }
}

/// Display columns of a whole line.
pub open spec fn visible_width(s: Seq<char>) -> nat {
    visible_width_from(s, 0)
}

/// Every escape in `s[i..]` opens a CSI sequence that is closed inside `s`.
pub open spec fn escapes_closed_from(s: Seq<char>, i: int) -> bool
    decreases s.len() - i,
{
    if i < 0 || i >= s.len() {
        true
    } else if s[i] == esc() {
        starts_csi(s, i) && first_final(s, i + 2) is Some && csi_stop(s, i + 2) > i
            && csi_stop(s, i + 2) <= s.len() && escapes_closed_from(s, csi_stop(s, i + 2))
    } else {
        escapes_closed_from(s, i + 1)
    }
}

/// Every escape in `s` opens a CSI sequence that is closed inside `s`.
pub open spec fn escapes_closed(s: Seq<char>) -> bool {
    escapes_closed_from(s, 0)
}

/// `s` holds no escape character.
pub open spec fn no_escape(s: Seq<char>) -> bool {
    forall|k: int| 0 <= k < s.len() ==> s[k] != esc()
}

/// A run of `n` copies of `c`.
pub open spec fn repeat(c: char, n: nat) -> Seq<char> {
    Seq::new(n, |_k: int| c)
}

/// A run of `n` ASCII spaces.
pub open spec fn spaces(n: nat) -> Seq<char> {
    repeat(' ', n)
}

proof fn lemma_first_final_shift(a: Seq<char>, b: Seq<char>, j: int)
    requires
        0 <= j,
    ensures
        first_final(a + b, a.len() + j) == (match first_final(b, j) {
            Some(k) => Some(a.len() + k),
            None => None::<int>,
        }),
    decreases b.len() - j,
{
    if j < b.len() && !is_final(b[j]) {
        lemma_first_final_shift(a, b, j + 1);
    }
}

pub proof fn lemma_first_final_prefix(a: Seq<char>, b: Seq<char>, from: int)
    requires
        first_final(a, from) is Some,
    ensures
        first_final(a + b, from) == first_final(a, from),
    decreases a.len() - from,
{
    lemma_first_final_bounds(a, from);
    if !is_final(a[from]) {
        lemma_first_final_prefix(a, b, from + 1);
    }
}

/// Widths measured after a prefix are the widths of the suffix alone.
proof fn lemma_visible_width_shift(a: Seq<char>, b: Seq<char>, j: int)
    requires
        0 <= j,
    ensures
        visible_width_from(a + b, a.len() + j) == visible_width_from(b, j),
        escapes_closed_from(a + b, a.len() + j) == escapes_closed_from(b, j),
    decreases b.len() - j,
{
    let s = a + b;
    if j < b.len() {
        if starts_csi(b, j) {
            lemma_first_final_shift(a, b, j + 2);
            lemma_csi_stop_bounds(b, j + 2);
            let stop = csi_stop(b, j + 2);
            assert(csi_stop(s, a.len() + j + 2) == a.len() + stop);
            lemma_visible_width_shift(a, b, stop);
        } else {
            if b[j] == esc() {
                assert(!starts_csi(s, a.len() + j));
            }
            lemma_visible_width_shift(a, b, j + 1);
        }
    }
}

/// A line whose escapes are all closed can be followed by anything without
/// changing how its own columns are counted.
pub proof fn lemma_visible_width_concat_from(a: Seq<char>, b: Seq<char>, i: int)
    requires
        0 <= i <= a.len(),
        escapes_closed_from(a, i),
    ensures
        visible_width_from(a + b, i) == visible_width_from(a, i) + visible_width(b),
        escapes_closed(b) ==> escapes_closed_from(a + b, i),
    decreases a.len() - i,
{
    let s = a + b;
    if i == a.len() {
        lemma_visible_width_shift(a, b, 0);
    } else if a[i] == esc() {
        lemma_first_final_prefix(a, b, i + 2);
        lemma_first_final_bounds(a, i + 2);
        let stop = csi_stop(a, i + 2);
        assert(csi_stop(s, i + 2) == stop);
        assert(starts_csi(s, i));
        lemma_visible_width_concat_from(a, b, stop);
    } else {
        assert(!starts_csi(s, i));
        assert(!starts_csi(a, i));
        lemma_visible_width_concat_from(a, b, i + 1);
    }
}

/// Columns add up across a concatenation whose first part closes its escapes;
/// closed escapes stay closed.
pub proof fn lemma_visible_width_concat(a: Seq<char>, b: Seq<char>)
    requires
        escapes_closed(a),
    ensures
        visible_width(a + b) == visible_width(a) + visible_width(b),
        escapes_closed(b) ==> escapes_closed(a + b),
{
    lemma_visible_width_concat_from(a, b, 0);
}

/// A text without escapes is closed, and its columns are the sum of its characters.
pub proof fn lemma_no_escape_closed(s: Seq<char>, i: int)
    requires
        no_escape(s),
        0 <= i,
    ensures
        escapes_closed_from(s, i),
    decreases s.len() - i,
{
    if i < s.len() {
        lemma_no_escape_closed(s, i + 1);
    }
}

/// A run of spaces is one column per space and holds no escape.
pub proof fn lemma_spaces_width(n: nat)
    ensures
        visible_width(spaces(n)) == n,
        escapes_closed(spaces(n)),
        no_escape(spaces(n)),
    decreases n,
{
    let s = spaces(n);
    if n > 0 {
        lemma_spaces_width((n - 1) as nat);
        let t = spaces((n - 1) as nat);
        assert(s == seq![' '] + t);
        assert(visible_width(seq![' ']) == 1) by {
            reveal_with_fuel(visible_width_from, 2);
        }
        lemma_no_escape_closed(seq![' '], 0);
        lemma_visible_width_concat(seq![' '], t);
    }
    lemma_no_escape_closed(s, 0);
}

} // verus!

verus! {

/// Where an OSC sequence whose body starts at `from` stops: just past a BEL,
/// just past an ESC (and a following `\`), or at the end of `s`.
pub open spec fn osc_stop(s: Seq<char>, from: int) -> int
    decreases s.len() - from,
{
    if from < 0 || from >= s.len() {
        s.len() as int
    } else if s[from] == '\x07' {
        from + 1
    } else if s[from] == esc() {
        if from + 1 < s.len() && s[from + 1] == '\\' {
            from + 2
        } else {
            from + 1
        }
    } else {
        osc_stop(s, from + 1)
    }
}

pub proof fn lemma_osc_stop_bounds(s: Seq<char>, from: int)
    requires
        0 <= from <= s.len(),
    ensures
        from <= osc_stop(s, from) <= s.len(),
        from < s.len() ==> from < osc_stop(s, from),
    decreases s.len() - from,
{
    if from < s.len() && s[from] != '\x07' && s[from] != esc() {
        lemma_osc_stop_bounds(s, from + 1);
    }
}

/// `s[i..]` with every CSI sequence, every OSC sequence (closed by BEL or
/// by ESC `\`), and every other escape character removed.
pub open spec fn strip_from(s: Seq<char>, i: int) -> Seq<char>
    decreases s.len() - i,
{
    if i < 0 || i >= s.len() {
        Seq::empty()
    } else if s[i] == esc() {
        if i + 1 < s.len() && s[i + 1] == '[' {
            let stop = csi_stop(s, i + 2);
            if stop <= i || stop > s.len() {
                Seq::empty()
            } else {
                strip_from(s, stop)
            }
        } else if i + 1 < s.len() && s[i + 1] == ']' {
            let stop = osc_stop(s, i + 2);
            if stop <= i || stop > s.len() {
                Seq::empty()
            } else {
                strip_from(s, stop)
            }
        } else {
            strip_from(s, i + 1)
        }
    } else {
        seq![s[i]] + strip_from(s, i + 1)
    }
}

/// `s` with its terminal control sequences removed.
pub open spec fn stripped(s: Seq<char>) -> Seq<char> {
    strip_from(s, 0)
}

/// Stripping leaves no escape character behind.
pub proof fn lemma_strip_no_escape(s: Seq<char>, i: int)
    requires
        0 <= i,
    ensures
        no_escape(strip_from(s, i)),
    decreases s.len() - i,
{
    if i < s.len() {
        if s[i] == esc() {
            if i + 1 < s.len() && s[i + 1] == '[' {
                lemma_csi_stop_bounds(s, i + 2);
                lemma_strip_no_escape(s, csi_stop(s, i + 2));
            } else if i + 1 < s.len() && s[i + 1] == ']' {
                lemma_osc_stop_bounds(s, i + 2);
                lemma_strip_no_escape(s, osc_stop(s, i + 2));
            } else {
                lemma_strip_no_escape(s, i + 1);
            }
        } else {
            lemma_strip_no_escape(s, i + 1);
            let r = strip_from(s, i + 1);
            assert(strip_from(s, i) == seq![s[i]] + r);
        }
    }
}

/// Text without escapes is left as it is.
pub proof fn lemma_strip_identity(s: Seq<char>, i: int)
    requires
        0 <= i <= s.len(),
        no_escape(s),
    ensures
        strip_from(s, i) == s.subrange(i, s.len() as int),
    decreases s.len() - i,
{
    if i < s.len() {
        lemma_strip_identity(s, i + 1);
        assert(s.subrange(i, s.len() as int) =~= seq![s[i]] + s.subrange(i + 1, s.len() as int));
    } else {
        assert(s.subrange(i, s.len() as int) =~= Seq::<char>::empty());
    }
}

/// Stripping removes every escape, and stripping twice is stripping once.
pub proof fn lemma_strip_idempotent(s: Seq<char>)
    ensures
        no_escape(stripped(s)),
        stripped(stripped(s)) == stripped(s),
{
    lemma_strip_no_escape(s, 0);
    lemma_strip_identity(stripped(s), 0);
    assert(stripped(s).subrange(0, stripped(s).len() as int) =~= stripped(s));
}

/// Index of the first `\n` at or after `i`, or `s.len()`.
pub open spec fn next_newline(s: Seq<char>, i: int) -> int
    decreases s.len() - i,
{
    if i < 0 || i >= s.len() {
        s.len() as int
    } else if s[i] == '\n' {
        i
    } else {
        next_newline(s, i + 1)
    }
}

pub proof fn lemma_next_newline_bounds(s: Seq<char>, i: int)
    requires
        0 <= i <= s.len(),
    ensures
        i <= next_newline(s, i) <= s.len(),
        next_newline(s, i) < s.len() ==> s[next_newline(s, i)] == '\n',
        forall|j: int| i <= j < next_newline(s, i) ==> s[j] != '\n',
    decreases s.len() - i,
{
    if i < s.len() && s[i] != '\n' {
        lemma_next_newline_bounds(s, i + 1);
    }
}

/// The lines of `s[i..]` as `split_inclusive('\n')` yields them, each
/// without its newline: no line for empty text and none after a final newline.
pub open spec fn lines_from(s: Seq<char>, i: int) -> Seq<Seq<char>>
    decreases s.len() - i,
{
    if i < 0 || i >= s.len() {
        Seq::empty()
    } else {
        let k = next_newline(s, i);
        if k < i || k > s.len() {
            Seq::empty()
        } else if k == s.len() {
            seq![s.subrange(i, k)]
        } else {
            seq![s.subrange(i, k)] + lines_from(s, k + 1)
        }
    }
}

/// The pieces of `s[i..]` as `split('\n')` yields them: always at least one,
/// and an empty last piece after a final newline.
pub open spec fn split_from(s: Seq<char>, i: int) -> Seq<Seq<char>>
    decreases s.len() + 1 - i,
{
    if i < 0 || i > s.len() {
        Seq::empty()
    } else {
        let k = next_newline(s, i);
        if k >= s.len() || k < i {
            seq![s.subrange(i, s.len() as int)]
        } else {
            seq![s.subrange(i, k)] + split_from(s, k + 1)
        }
    }
}


proof fn lemma_osc_stop_shift(a: Seq<char>, b: Seq<char>, j: int)
    requires
        0 <= j,
    ensures
        osc_stop(a + b, a.len() + j) == a.len() + osc_stop(b, j),
    decreases b.len() - j,
{
    if j < b.len() {
        assert((a + b)[a.len() + j] == b[j]);
        if j + 1 < b.len() {
            assert((a + b)[a.len() + j + 1] == b[j + 1]);
        }
        if b[j] != '\x07' && b[j] != esc() {
            lemma_osc_stop_shift(a, b, j + 1);
        }
    }
}

/// Stripping looks only forward: what follows a prefix strips the same
/// with or without it.
pub proof fn lemma_strip_shift(a: Seq<char>, b: Seq<char>, i: int)
    requires
        0 <= i,
    ensures
        strip_from(a + b, a.len() + i) == strip_from(b, i),
    decreases b.len() - i,
{
    let s = a + b;
    let n = a.len() as int;
    if i < b.len() {
        assert(s[n + i] == b[i]);
        if i + 1 < b.len() {
            assert(s[n + i + 1] == b[i + 1]);
        }
        if b[i] == esc() {
            if i + 1 < b.len() && b[i + 1] == '[' {
                lemma_first_final_shift(a, b, i + 2);
                lemma_csi_stop_bounds(b, i + 2);
                let stop = csi_stop(b, i + 2);
                assert(csi_stop(s, n + i + 2) == n + stop);
                if stop > i && stop <= b.len() {
                    lemma_strip_shift(a, b, stop);
                }
            } else if i + 1 < b.len() && b[i + 1] == ']' {
                lemma_osc_stop_shift(a, b, i + 2);
                lemma_osc_stop_bounds(b, i + 2);
                let stop = osc_stop(b, i + 2);
                if stop > i && stop <= b.len() {
                    lemma_strip_shift(a, b, stop);
                }
            } else {
                lemma_strip_shift(a, b, i + 1);
            }
        } else {
            lemma_strip_shift(a, b, i + 1);
        }
    }
}

/// Text without escapes in front strips to itself followed by the rest
/// stripped.
pub proof fn lemma_strip_plain_prefix(t: Seq<char>, y: Seq<char>)
    requires
        no_escape(t),
    ensures
        stripped(t + y) == t + stripped(y),
{
    lemma_strip_plain_prefix_from(t, y, 0);
    assert(t.subrange(0, t.len() as int) =~= t);
}

proof fn lemma_strip_plain_prefix_from(t: Seq<char>, y: Seq<char>, i: int)
    requires
        no_escape(t),
        0 <= i <= t.len(),
    ensures
        strip_from(t + y, i) == t.subrange(i, t.len() as int) + stripped(y),
    decreases t.len() - i,
{
    if i < t.len() {
        assert((t + y)[i] == t[i]);
        lemma_strip_plain_prefix_from(t, y, i + 1);
        assert(t.subrange(i, t.len() as int) =~= seq![t[i]] + t.subrange(i + 1, t.len() as int));
    } else {
        lemma_strip_shift(t, y, 0);
        assert(t.subrange(i, t.len() as int) =~= Seq::<char>::empty());
        assert(t.len() + 0 == i);
    }
}


/// Whether `a` is `b` with some characters left out, the rest kept in order.
pub open spec fn is_subsequence(a: Seq<char>, b: Seq<char>) -> bool
    decreases b.len(),
{
    if b.len() == 0 {
        a.len() == 0
    } else {
        is_subsequence(a, b.drop_first()) || (a.len() > 0 && a[0] == b[0] && is_subsequence(
            a.drop_first(),
            b.drop_first(),
        ))
    }
}

proof fn lemma_subsequence_of_later(a: Seq<char>, s: Seq<char>, i: int, j: int)
    requires
        0 <= i <= j <= s.len(),
        is_subsequence(a, s.subrange(j, s.len() as int)),
    ensures
        is_subsequence(a, s.subrange(i, s.len() as int)),
    decreases j - i,
{
    if i < j {
        lemma_subsequence_of_later(a, s, i + 1, j);
        assert(s.subrange(i, s.len() as int).drop_first() =~= s.subrange(i + 1, s.len() as int));
    }
}

proof fn lemma_strip_from_subsequence(s: Seq<char>, i: int)
    requires
        0 <= i <= s.len(),
    ensures
        is_subsequence(strip_from(s, i), s.subrange(i, s.len() as int)),
    decreases s.len() - i,
{
    if i < s.len() {
        let rest = s.subrange(i, s.len() as int);
        assert(rest.drop_first() =~= s.subrange(i + 1, s.len() as int));
        if s[i] == esc() {
            if i + 1 < s.len() && s[i + 1] == '[' {
                lemma_csi_stop_bounds(s, i + 2);
                let stop = csi_stop(s, i + 2);
                if i < stop <= s.len() {
                    lemma_strip_from_subsequence(s, stop);
                    lemma_subsequence_of_later(strip_from(s, stop), s, i, stop);
                }
            } else if i + 1 < s.len() && s[i + 1] == ']' {
                lemma_osc_stop_bounds(s, i + 2);
                let stop = osc_stop(s, i + 2);
                if i < stop <= s.len() {
                    lemma_strip_from_subsequence(s, stop);
                    lemma_subsequence_of_later(strip_from(s, stop), s, i, stop);
                }
            } else {
                lemma_strip_from_subsequence(s, i + 1);
            }
        } else {
            lemma_strip_from_subsequence(s, i + 1);
            let r = strip_from(s, i);
            assert(r.drop_first() =~= strip_from(s, i + 1));
        }
    } else {
        assert(s.subrange(i, s.len() as int).len() == 0);
    }
}

/// Stripping escapes only leaves characters out: what remains is the
/// input's own characters, in their order.
pub proof fn lemma_strip_subsequence(s: Seq<char>)
    ensures
        is_subsequence(stripped(s), s),
{
    lemma_strip_from_subsequence(s, 0);
    assert(s.subrange(0, s.len() as int) =~= s);
}


/// How many `\n` characters `s` holds.
pub open spec fn newlines(s: Seq<char>) -> nat
    decreases s.len(),
{
    if s.len() == 0 {
        0
    } else {
        newlines(s.drop_last()) + if s.last() == '\n' {
            1nat
        } else {
            0nat
        }
    }
}

/// `s` holds no `\n`.
pub open spec fn no_newline(s: Seq<char>) -> bool {
    forall|i: int| 0 <= i < s.len() ==> s[i] != '\n'
}

pub proof fn lemma_newlines_concat(a: Seq<char>, b: Seq<char>)
    ensures
        newlines(a + b) == newlines(a) + newlines(b),
    decreases b.len(),
{
    if b.len() == 0 {
        assert(a + b =~= a);
    } else {
        lemma_newlines_concat(a, b.drop_last());
        assert((a + b).drop_last() =~= a + b.drop_last());
    }
}

pub proof fn lemma_no_newline_count(s: Seq<char>)
    requires
        no_newline(s),
    ensures
        newlines(s) == 0,
    decreases s.len(),
{
    if s.len() > 0 {
        lemma_no_newline_count(s.drop_last());
    }
}

proof fn lemma_subsequence_no_newline(a: Seq<char>, b: Seq<char>)
    requires
        is_subsequence(a, b),
        no_newline(b),
    ensures
        no_newline(a),
    decreases b.len(),
{
    if b.len() > 0 {
        assert(no_newline(b.drop_first()));
        if is_subsequence(a, b.drop_first()) {
            lemma_subsequence_no_newline(a, b.drop_first());
        } else {
            lemma_subsequence_no_newline(a.drop_first(), b.drop_first());
            assert forall|i: int| 0 <= i < a.len() implies a[i] != '\n' by {
                if i > 0 {
                    assert(a[i] == a.drop_first()[i - 1]);
                }
            }
        }
    }
}

/// Stripping escapes adds no line break.
pub proof fn lemma_strip_no_newline(s: Seq<char>)
    requires
        no_newline(s),
    ensures
        no_newline(stripped(s)),
{
    lemma_strip_subsequence(s);
    lemma_subsequence_no_newline(stripped(s), s);
}

/// The pieces `split('\n')` yields hold no `\n`, and there is one more of
/// them than `\n`s.
pub proof fn lemma_split_pieces(s: Seq<char>, i: int)
    requires
        0 <= i <= s.len(),
    ensures
        split_from(s, i).len() == newlines(s.subrange(i, s.len() as int)) + 1,
        forall|k: int| 0 <= k < split_from(s, i).len() ==> no_newline(#[trigger] split_from(s, i)[k]),
    decreases s.len() + 1 - i,
{
    lemma_next_newline_bounds(s, i);
    let k = next_newline(s, i);
    let piece = s.subrange(i, k);
    assert(no_newline(piece)) by {
        assert forall|j: int| 0 <= j < piece.len() implies piece[j] != '\n' by {
            assert(piece[j] == s[i + j]);
        }
    }
    lemma_no_newline_count(piece);
    if k >= s.len() {
        assert(piece =~= s.subrange(i, s.len() as int));
    } else {
        lemma_split_pieces(s, k + 1);
        let rest = s.subrange(k + 1, s.len() as int);
        assert(s.subrange(i, s.len() as int) =~= piece + seq!['\n'] + rest);
        lemma_newlines_concat(piece + seq!['\n'], rest);
        lemma_newlines_concat(piece, seq!['\n']);
        assert(newlines(seq!['\n']) == 1) by {
            let one = seq!['\n'];
            assert(one.drop_last() =~= Seq::<char>::empty());
            assert(newlines(Seq::<char>::empty()) == 0);
            assert(one.last() == '\n');
            assert(newlines(one) == newlines(one.drop_last()) + 1);
        }
        let sp = split_from(s, i);
        assert(sp == seq![piece] + split_from(s, k + 1));
        assert forall|m: int| 0 <= m < sp.len() implies no_newline(#[trigger] sp[m]) by {
            if m > 0 {
                assert(sp[m] == split_from(s, k + 1)[m - 1]);
            }
        }
    }
}

} // verus!

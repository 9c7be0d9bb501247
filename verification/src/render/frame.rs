//! Cell boxes: the top border with its label, framed content lines, the
//! bottom border, and border-free lines for standalone documents.
//!
//! The box characters (`┌─┐│└┘`) are always drawn in the terminal's default
//! color; only the label carries its own ANSI codes. Content lines get a
//! RESET injected after styled content so the padding never inherits a color.

use vstd::prelude::*;

use crate::env::RenderCtx;
use crate::escape::{
    csi_stop, escapes_closed, escapes_closed_from, esc, first_final, is_final, lemma_csi_stop_bounds,
    lemma_first_final_bounds, lemma_first_final_none_before, lemma_spaces_width,
    lemma_visible_width_concat, repeat, spaces, starts_csi, visible_width, visible_width_from,
};
use crate::render::pad::push_spaces;
use crate::strs::{chars_of, push_char, push_range, push_repeat};
use crate::theme::{DIM, RESET};
use crate::width::{char_cols, char_cols_exec};

verus! {

/// `n` saturated to the largest `usize`.
pub open spec fn clamp_usize(n: nat) -> usize {
    if n > usize::MAX {
        usize::MAX
    } else {
        n as usize
    }
}

/// Where the CSI whose parameters start at `from` stops.
pub fn csi_stop_exec(s: &Vec<char>, from: usize) -> (r: usize)
    requires
        from <= s@.len(),
    ensures
        r == csi_stop(s@, from as int),
        from <= r <= s@.len(),
{
    proof {
        lemma_csi_stop_bounds(s@, from as int);
    }
    let mut j = from;
    while j < s.len()
        invariant
            from <= j <= s@.len(),
            first_final(s@, from as int) == first_final(s@, j as int),
        decreases s@.len() - j,
    {
        let c = s[j];
        if 0x40 <= (c as u32) && (c as u32) <= 0x7e {
            return j + 1;
        }
        j += 1;
    }
    s.len()
}

/// Visible display width of `s`, skipping ANSI CSI escape sequences
/// (`\x1b[...<final>`) and stray escapes.
pub fn ansi_width(s: &str) -> (r: usize)
    ensures
        r == clamp_usize(visible_width(s@)),
{
    let v = chars_of(s);
    let mut w: usize = 0;
    let mut i: usize = 0;
    while i < v.len()
        invariant
            i <= v@.len(),
            clamp_usize((w + visible_width_from(v@, i as int)) as nat) == clamp_usize(visible_width(v@)),
        decreases v@.len() - i,
    {
        let c = v[i];
        if c == '\x1b' && i + 1 < v.len() && v[i + 1] == '[' {
            let stop = csi_stop_exec(&v, i + 2);
            i = stop;
        } else if c == '\x1b' {
            i += 1;
        } else {
            w = w.saturating_add(char_cols_exec(c));
            i += 1;
        }
    }
    w
}

/// How one content line is laid out into at most `max` columns, starting
/// at `s[i]` with `used` columns already filled: CSI sequences are copied
/// whole, `\r` is dropped, `\t` becomes spaces up to the next 8-column stop,
/// and the line is cut before the first character that would overflow.
/// Yields the laid-out text, the columns it fills, and whether a CSI
/// sequence was copied.
pub open spec fn layout_from(s: Seq<char>, i: int, used: nat, max: nat) -> (Seq<char>, nat, bool)
    decreases s.len() - i,
{
    if i < 0 || i >= s.len() {
        (Seq::empty(), used, false)
    } else if starts_csi(s, i) {
        let stop = csi_stop(s, i + 2);
        if stop <= i || stop > s.len() {
            (Seq::empty(), used, true)
        } else {
            let rest = layout_from(s, stop, used, max);
            (s.subrange(i, stop) + rest.0, rest.1, true)
        }
    } else if s[i] == '\r' {
        layout_from(s, i + 1, used, max)
    } else if s[i] == '\t' {
        let room: nat = if used <= max {
            (max - used) as nat
        } else {
            0
        };
        let to_stop: nat = (8 - used % 8) as nat;
        let to_add: nat = if to_stop < room {
            to_stop
        } else {
            room
        };
        if to_add == 0 {
            (Seq::empty(), used, false)
        } else {
            let rest = layout_from(s, i + 1, used + to_add, max);
            (spaces(to_add) + rest.0, rest.1, rest.2)
        }
    } else if used + char_cols(s[i]) > max {
        (Seq::empty(), used, false)
    } else {
        let rest = layout_from(s, i + 1, used + char_cols(s[i]), max);
        (seq![s[i]] + rest.0, rest.1, rest.2)
    }
}

/// A whole content line laid out into at most `max` columns.
pub open spec fn layout(s: Seq<char>, max: nat) -> (Seq<char>, nat, bool) {
    layout_from(s, 0, 0, max)
}

/// The laid-out columns never exceed the budget.
pub proof fn lemma_layout_fits(s: Seq<char>, i: int, used: nat, max: nat)
    requires
        used <= max,
    ensures
        used <= layout_from(s, i, used, max).1 <= max,
    decreases s.len() - i,
{
    if 0 <= i < s.len() {
        if starts_csi(s, i) {
            let stop = csi_stop(s, i + 2);
            if !(stop <= i || stop > s.len()) {
                lemma_layout_fits(s, stop, used, max);
            }
        } else if s[i] == '\r' {
            lemma_layout_fits(s, i + 1, used, max);
        } else if s[i] == '\t' {
            let room: nat = (max - used) as nat;
            let to_stop: nat = (8 - used % 8) as nat;
            let to_add: nat = if to_stop < room {
                to_stop
            } else {
                room
            };
            if to_add != 0 {
                lemma_layout_fits(s, i + 1, used + to_add, max);
            }
        } else if used + char_cols(s[i]) <= max {
            lemma_layout_fits(s, i + 1, used + char_cols(s[i]), max);
        }
    }
}

/// Format one line of content into at most `max_width` visible columns.
///
/// Handles ANSI CSI escape preservation, `\r` drop, `\t` expansion to the next
/// 8-column stop, and CJK-aware truncation. Returns the formatted text, the
/// visible columns it fills, and whether styled content was copied, so the
/// caller can pad and reset.
pub fn fmt_line_content(content: &str, max_width: usize) -> (r: (String, usize, bool))
    ensures
        r.0@ == layout(content@, max_width as nat).0,
        r.1 == layout(content@, max_width as nat).1,
        r.2 == layout(content@, max_width as nat).2,
        r.1 <= max_width,
{
    let s = chars_of(content);
    let ghost total = layout(s@, max_width as nat);
    let mut trimmed = String::new();
    let mut used: usize = 0;
    let mut had_style = false;
    let mut i: usize = 0;
    while i < s.len()
        invariant_except_break
            i <= s@.len(),
            used <= max_width,
            trimmed@ + layout_from(s@, i as int, used as nat, max_width as nat).0 == total.0,
            layout_from(s@, i as int, used as nat, max_width as nat).1 == total.1,
            (had_style || layout_from(s@, i as int, used as nat, max_width as nat).2) == total.2,
        ensures
            used <= max_width,
            trimmed@ == total.0,
            used == total.1,
            had_style == total.2,
        decreases s@.len() - i,
    {
        let ch = s[i];
        if ch == '\x1b' && i + 1 < s.len() && s[i + 1] == '[' {
            let stop = csi_stop_exec(&s, i + 2);
            let ghost rest = layout_from(s@, stop as int, used as nat, max_width as nat);
            push_range(&mut trimmed, &s, i, stop);
            had_style = true;
            assert(trimmed@ + rest.0 == total.0) by {
                assert(layout_from(s@, i as int, used as nat, max_width as nat).0
                    == s@.subrange(i as int, stop as int) + rest.0);
            }
            i = stop;
        } else if ch == '\r' {
            i += 1;
        } else if ch == '\t' {
            let room = max_width - used;
            let to_stop = 8 - (used % 8);
            let to_add = if to_stop < room {
                to_stop
            } else {
                room
            };
            if to_add == 0 {
                break;
            }
            push_spaces(&mut trimmed, to_add);
            used += to_add;
            i += 1;
        } else {
            let cw = char_cols_exec(ch);
            if cw > max_width - used {
                break;
            }
            push_char(&mut trimmed, ch);
            used += cw;
            i += 1;
        }
    }
    (trimmed, used, had_style)
}

/// The columns a content line leaves for text: two per border side.
pub open spec fn inner_width(ctx: RenderCtx) -> nat {
    if ctx.width >= 4 {
        (ctx.width - 4) as nat
    } else {
        0
    }
}

/// The text of a content line after layout, with a RESET when it was styled.
pub open spec fn framed_text(content: Seq<char>, max: nat) -> Seq<char> {
    let l = layout(content, max);
    if l.2 {
        l.0 + RESET@
    } else {
        l.0
    }
}

/// The content area of a framed line: laid-out text, then padding to the
/// full inner width.
pub open spec fn content_area(content: Seq<char>, ctx: RenderCtx) -> Seq<char> {
    let inner = inner_width(ctx);
    framed_text(content, inner) + spaces((inner - layout(content, inner).1) as nat)
}

/// One framed content line: `│ {content padded} │` and a newline. With color
/// the borders are dimmed.
pub open spec fn wrap_line_text(content: Seq<char>, ctx: RenderCtx) -> Seq<char> {
    if ctx.use_color {
        DIM@ + "│"@ + RESET@ + " "@ + content_area(content, ctx) + " "@ + DIM@ + "│"@ + RESET@
            + seq!['\n']
    } else {
        "│ "@ + content_area(content, ctx) + " │"@ + seq!['\n']
    }
}

/// One content line inside a box: `│ {content padded} │`.
///
/// ANSI CSI escapes in the content count zero columns, so padding and
/// truncation go by visible width. When styled content was emitted a RESET
/// is injected at its end so the padding does not inherit its color.
pub fn wrap_line(content: &str, ctx: &RenderCtx, out: &mut String)
    ensures
        final(out)@ == old(out)@ + wrap_line_text(content@, *ctx),
{
    let area = fill_content_area(content, ctx);
    let ghost start = out@;
    if ctx.use_color {
        out.append(DIM);
        out.append("│");
        out.append(RESET);
        out.append(" ");
        out.append(area.as_str());
        out.append(" ");
        out.append(DIM);
        out.append("│");
        out.append(RESET);
        push_char(out, '\n');
        assert(out@ =~= start + wrap_line_text(content@, *ctx));
    } else {
        out.append("│ ");
        out.append(area.as_str());
        out.append(" │");
        push_char(out, '\n');
        assert(out@ =~= start + wrap_line_text(content@, *ctx));
    }
}

/// The content area of a framed line, as text.
fn fill_content_area(content: &str, ctx: &RenderCtx) -> (r: String)
    ensures
        r@ == content_area(content@, *ctx),
{
    let inner_w = ctx.width.saturating_sub(4);
    let (mut trimmed, used, had_style) = fmt_line_content(content, inner_w);
    if had_style {
        trimmed.append(RESET);
    }
    let pad = inner_w - used;
    push_spaces(&mut trimmed, pad);
    trimmed
}

/// A border-free content line: the laid-out text in the full width, a RESET
/// when it was styled, and a newline.
pub open spec fn bare_line_text(content: Seq<char>, ctx: RenderCtx) -> Seq<char> {
    framed_text(content, ctx.width as nat) + seq!['\n']
}

/// Emit one content line without `│` borders, for standalone documents
/// where the full terminal width belongs to the content.
pub fn bare_line(content: &str, ctx: &RenderCtx, out: &mut String)
    ensures
        final(out)@ == old(out)@ + bare_line_text(content@, *ctx),
{
    let (mut trimmed, _used, had_style) = fmt_line_content(content, ctx.width);
    if had_style {
        trimmed.append(RESET);
    }
    let ghost start = out@;
    out.append(trimmed.as_str());
    push_char(out, '\n');
    assert(out@ =~= start + bare_line_text(content@, *ctx));
}

/// `a - b`, or zero when `b` is larger.
pub open spec fn sat_sub(a: nat, b: nat) -> nat {
    if a >= b {
        (a - b) as nat
    } else {
        0
    }
}

/// How many `─` follow the label on a top border.
pub open spec fn open_dashes(label: Seq<char>, ctx: RenderCtx) -> nat {
    let label_w = clamp_usize(visible_width(seq![' '] + label + seq![' ']));
    sat_sub(sat_sub(ctx.width as nat, 2), clamp_usize((label_w + 1) as nat) as nat)
}

/// The top border of a box: `┌─ {label} ─...─┐` and a newline. With color
/// the box characters are dimmed and the label keeps its own codes.
pub open spec fn open_text(label: Seq<char>, ctx: RenderCtx) -> Seq<char> {
    let label_str = seq![' '] + label + seq![' '];
    let dashes = repeat('─', open_dashes(label, ctx));
    if ctx.use_color {
        DIM@ + "┌─"@ + RESET@ + label_str + DIM@ + dashes + "┐"@ + RESET@ + seq!['\n']
    } else {
        "┌─"@ + label_str + dashes + "┐"@ + seq!['\n']
    }
}

/// Top box line: `┌─ {label} ─...─┐`.
pub fn open(label: &str, ctx: &RenderCtx, out: &mut String)
    ensures
        final(out)@ == old(out)@ + open_text(label@, *ctx),
{
    let mut label_str = String::from_str(" ");
    label_str.append(label);
    label_str.append(" ");
    proof {
        reveal_strlit(" ");
    }
    assert(label_str@ =~= seq![' '] + label@ + seq![' ']);
    let label_w = ansi_width(label_str.as_str());
    let inner_w = ctx.width.saturating_sub(2);
    let dashes = inner_w.saturating_sub(label_w.saturating_add(1));
    let mut dashes_str = String::new();
    push_repeat(&mut dashes_str, '─', dashes);
    let ghost start = out@;
    if ctx.use_color {
        out.append(DIM);
        out.append("┌─");
        out.append(RESET);
        out.append(label_str.as_str());
        out.append(DIM);
        out.append(dashes_str.as_str());
        out.append("┐");
        out.append(RESET);
        push_char(out, '\n');
    } else {
        out.append("┌─");
        out.append(label_str.as_str());
        out.append(dashes_str.as_str());
        out.append("┐");
        push_char(out, '\n');
    }
    assert(out@ =~= start + open_text(label@, *ctx));
}

/// The bottom border of a box: `└───┘` spanning the width, and a newline.
pub open spec fn close_text(ctx: RenderCtx) -> Seq<char> {
    let body = "└"@ + repeat('─', sat_sub(ctx.width as nat, 2)) + "┘"@;
    if ctx.use_color {
        DIM@ + body + RESET@ + seq!['\n']
    } else {
        body + seq!['\n']
    }
}

/// Bottom box line: `└───┘`.
pub fn close(ctx: &RenderCtx, out: &mut String)
    ensures
        final(out)@ == old(out)@ + close_text(*ctx),
{
    let inner_w = ctx.width.saturating_sub(2);
    let mut body = String::from_str("└");
    push_repeat(&mut body, '─', inner_w);
    body.append("┘");
    let ghost start = out@;
    if ctx.use_color {
        out.append(DIM);
        out.append(body.as_str());
        out.append(RESET);
        push_char(out, '\n');
    } else {
        out.append(body.as_str());
        push_char(out, '\n');
    }
    assert(out@ =~= start + close_text(*ctx));
}

/// The first final byte of a run with no earlier final byte.
proof fn lemma_first_final_of_run(t: Seq<char>, from: int, k: int)
    requires
        0 <= from <= k < t.len(),
        is_final(t[k]),
        forall|j: int| from <= j < k ==> !is_final(t[j]),
    ensures
        first_final(t, from) == Some(k),
    decreases k - from,
{
    if from < k {
        lemma_first_final_of_run(t, from + 1, k);
    }
}

/// A complete CSI sequence copied out of a line is closed and takes no columns.
proof fn lemma_csi_segment(s: Seq<char>, i: int)
    requires
        starts_csi(s, i),
        first_final(s, i + 2) is Some,
    ensures
        escapes_closed(s.subrange(i, csi_stop(s, i + 2))),
        visible_width(s.subrange(i, csi_stop(s, i + 2))) == 0,
{
    lemma_first_final_bounds(s, i + 2);
    let k = first_final(s, i + 2)->0;
    let seg = s.subrange(i, k + 1);
    assert forall|j: int| 2 <= j < k - i implies !is_final(seg[j]) by {
        lemma_first_final_none_before(s, i + 2, i + j);
    }
    lemma_first_final_of_run(seg, 2, k - i);
    assert(starts_csi(seg, 0));
    assert(csi_stop(seg, 2) == seg.len());
    assert(escapes_closed_from(seg, seg.len() as int));
    assert(visible_width_from(seg, seg.len() as int) == 0);
}

/// A single visible character that is not an escape is closed and takes
/// its own columns.
proof fn lemma_plain_char(c: char)
    requires
        c != esc(),
    ensures
        escapes_closed(seq![c]),
        visible_width(seq![c]) == char_cols(c),
{
    reveal_with_fuel(visible_width_from, 2);
    reveal_with_fuel(escapes_closed_from, 2);
}

/// Laying out a line whose escapes are all closed yields closed text whose
/// visible columns are exactly the columns the layout counted.
proof fn lemma_layout_width(s: Seq<char>, i: int, used: nat, max: nat)
    requires
        0 <= i,
        escapes_closed_from(s, i),
    ensures
        escapes_closed(layout_from(s, i, used, max).0),
        visible_width(layout_from(s, i, used, max).0) + used == layout_from(s, i, used, max).1,
    decreases s.len() - i,
{
    let l = layout_from(s, i, used, max);
    if i >= s.len() {
        assert(l.0 =~= Seq::<char>::empty());
    } else if starts_csi(s, i) {
        let stop = csi_stop(s, i + 2);
        lemma_csi_stop_bounds(s, i + 2);
        lemma_csi_segment(s, i);
        lemma_layout_width(s, stop, used, max);
        lemma_visible_width_concat(s.subrange(i, stop), layout_from(s, stop, used, max).0);
    } else if s[i] == '\r' {
        lemma_layout_width(s, i + 1, used, max);
    } else if s[i] == '\t' {
        let room: nat = if used <= max {
            (max - used) as nat
        } else {
            0
        };
        let to_stop: nat = (8 - used % 8) as nat;
        let to_add: nat = if to_stop < room {
            to_stop
        } else {
            room
        };
        if to_add == 0 {
            assert(l.0 =~= Seq::<char>::empty());
        } else {
            lemma_layout_width(s, i + 1, used + to_add, max);
            lemma_spaces_width(to_add);
            lemma_visible_width_concat(spaces(to_add), layout_from(s, i + 1, used + to_add, max).0);
        }
    } else if used + char_cols(s[i]) > max {
        assert(l.0 =~= Seq::<char>::empty());
    } else {
        lemma_layout_width(s, i + 1, used + char_cols(s[i]), max);
        lemma_plain_char(s[i]);
        lemma_visible_width_concat(seq![s[i]], layout_from(s, i + 1, used + char_cols(s[i]), max).0);
    }
}

/// Box alignment: when every escape in the content opens a complete CSI
/// sequence, the content area of a framed line — text, any injected RESET,
/// and padding — fills exactly the inner width, so the right border lands
/// in the same column on every line.
pub proof fn lemma_content_area_fills_inner_width(content: Seq<char>, ctx: RenderCtx)
    requires
        escapes_closed(content),
    ensures
        visible_width(content_area(content, ctx)) == inner_width(ctx),
        escapes_closed(content_area(content, ctx)),
{
    let inner = inner_width(ctx);
    let l = layout(content, inner);
    lemma_layout_width(content, 0, 0, inner);
    lemma_layout_fits(content, 0, 0, inner);
    let pad = spaces((inner - l.1) as nat);
    lemma_spaces_width((inner - l.1) as nat);
    if l.2 {
        crate::theme::lemma_sgr_codes();
        let r = RESET@;
        assert(escapes_closed(r) && visible_width(r) == 0) by {
            assert(first_final(r, 2) == Some(3int)) by {
                reveal_with_fuel(first_final, 3);
            }
            assert(csi_stop(r, 2) == 4);
            reveal_with_fuel(escapes_closed_from, 2);
            reveal_with_fuel(visible_width_from, 2);
        }
        lemma_visible_width_concat(l.0, r);
        lemma_visible_width_concat(l.0 + r, pad);
    } else {
        lemma_visible_width_concat(l.0, pad);
    }
}


proof fn lemma_layout_no_newline(s: Seq<char>, i: int, used: nat, max: nat)
    requires
        0 <= i,
        crate::escape::no_newline(s),
    ensures
        crate::escape::no_newline(layout_from(s, i, used, max).0),
    decreases s.len() - i,
{
    if 0 <= i < s.len() {
        if starts_csi(s, i) {
            let stop = csi_stop(s, i + 2);
            if i < stop <= s.len() {
                lemma_layout_no_newline(s, stop, used, max);
                let l = layout_from(s, i, used, max).0;
                let rest = layout_from(s, stop, used, max).0;
                assert forall|j: int| 0 <= j < l.len() implies l[j] != '\n' by {
                    if j < stop - i {
                        assert(l[j] == s[i + j]);
                    } else {
                        assert(l[j] == rest[j - (stop - i)]);
                    }
                }
            }
        } else if s[i] == '\r' {
            lemma_layout_no_newline(s, i + 1, used, max);
        } else if s[i] == '\t' {
            let room: nat = if used <= max {
                (max - used) as nat
            } else {
                0
            };
            let to_stop: nat = (8 - used % 8) as nat;
            let to_add: nat = if to_stop < room {
                to_stop
            } else {
                room
            };
            if to_add > 0 {
                lemma_layout_no_newline(s, i + 1, used + to_add, max);
                let l = layout_from(s, i, used, max).0;
                let rest = layout_from(s, i + 1, used + to_add, max).0;
                assert forall|j: int| 0 <= j < l.len() implies l[j] != '\n' by {
                    if j >= to_add {
                        assert(l[j] == rest[j - to_add]);
                    }
                }
            }
        } else if used + char_cols(s[i]) <= max {
            lemma_layout_no_newline(s, i + 1, used + char_cols(s[i]), max);
            let l = layout_from(s, i, used, max).0;
            let rest = layout_from(s, i + 1, used + char_cols(s[i]), max).0;
            assert forall|j: int| 0 <= j < l.len() implies l[j] != '\n' by {
                if j >= 1 {
                    assert(l[j] == rest[j - 1]);
                }
            }
        }
    }
}

/// A framed line is one line: content without a line break comes out with
/// exactly one `\n`, at its end.
pub proof fn lemma_wrap_line_one_newline(content: Seq<char>, ctx: RenderCtx)
    requires
        crate::escape::no_newline(content),
    ensures
        crate::escape::newlines(wrap_line_text(content, ctx)) == 1,
        wrap_line_text(content, ctx).last() == '\n',
{
    let inner = inner_width(ctx);
    lemma_layout_no_newline(content, 0, 0, inner);
    crate::theme::lemma_sgr_codes();
    reveal_strlit("│");
    reveal_strlit(" ");
    reveal_strlit("│ ");
    reveal_strlit(" │");
    let ca = content_area(content, ctx);
    let l = layout(content, inner);
    let pad = spaces((inner - l.1) as nat);
    assert(crate::escape::no_newline(ca)) by {
        let ft = framed_text(content, inner);
        assert(crate::escape::no_newline(ft)) by {
            if l.2 {
                assert forall|j: int| 0 <= j < ft.len() implies ft[j] != '\n' by {
                    if j >= l.0.len() {
                        assert(ft[j] == RESET@[j - l.0.len()]);
                    } else {
                        assert(ft[j] == l.0[j]);
                    }
                }
            }
        }
        assert forall|j: int| 0 <= j < ca.len() implies ca[j] != '\n' by {
            if j < ft.len() {
                assert(ca[j] == ft[j]);
            } else {
                assert(ca[j] == pad[j - ft.len()]);
            }
        }
    }
    let body = wrap_line_text(content, ctx).drop_last();
    assert(wrap_line_text(content, ctx) =~= body + seq!['\n']);
    assert(crate::escape::no_newline(body)) by {
        if ctx.use_color {
            let p1 = DIM@ + "│"@ + RESET@ + " "@;
            let p2 = " "@ + DIM@ + "│"@ + RESET@;
            assert(body =~= p1 + ca + p2);
            assert forall|j: int| 0 <= j < body.len() implies body[j] != '\n' by {
                if j < p1.len() {
                    assert(body[j] == p1[j]);
                } else if j < p1.len() + ca.len() {
                    assert(body[j] == ca[j - p1.len()]);
                } else {
                    assert(body[j] == p2[j - p1.len() - ca.len()]);
                }
            }
        } else {
            assert(body =~= "│ "@ + ca + " │"@);
            assert forall|j: int| 0 <= j < body.len() implies body[j] != '\n' by {
                if j < 2 {
                    assert(body[j] == "│ "@[j]);
                } else if j < 2 + ca.len() {
                    assert(body[j] == ca[j - 2]);
                } else {
                    assert(body[j] == " │"@[j - 2 - ca.len()]);
                }
            }
        }
    }
    crate::escape::lemma_no_newline_count(body);
    crate::escape::lemma_newlines_concat(body, seq!['\n']);
    assert(seq!['\n'].drop_last() =~= Seq::<char>::empty());
}


proof fn lemma_sgr_invisible(code: Seq<char>, d: char)
    requires
        code == seq!['\x1b', '[', d, 'm'],
        '0' <= d <= '9',
    ensures
        escapes_closed(code),
        visible_width(code) == 0,
{
    assert(first_final(code, 2) == Some(3int)) by {
        reveal_with_fuel(first_final, 3);
    }
    assert(csi_stop(code, 2) == 4);
    reveal_with_fuel(escapes_closed_from, 2);
    reveal_with_fuel(visible_width_from, 2);
}

proof fn lemma_two_chars(a: char, b: char)
    requires
        a != esc(),
        b != esc(),
    ensures
        escapes_closed(seq![a, b]),
        visible_width(seq![a, b]) == char_cols(a) + char_cols(b),
{
    lemma_plain_char(a);
    lemma_plain_char(b);
    assert(seq![a, b] =~= seq![a] + seq![b]);
    lemma_visible_width_concat(seq![a], seq![b]);
}

/// A framed line spans the full width: when every escape in the content
/// opens a complete CSI sequence, the line before its newline is as wide as
/// the inner width plus the two borders with their spaces (each border is
/// one `│`, as wide as unicode-width says, so `ctx.width` columns in all for
/// a one-column border and `ctx.width >= 4`).
pub proof fn lemma_wrap_line_width(content: Seq<char>, ctx: RenderCtx)
    requires
        escapes_closed(content),
    ensures
        visible_width(wrap_line_text(content, ctx).drop_last()) == inner_width(ctx) + 2 + 2 * char_cols('│'),
        ctx.width >= 4 ==> inner_width(ctx) + 2 + 2 * char_cols('│') == ctx.width - 2 + 2 * char_cols('│'),
{
    let ca = content_area(content, ctx);
    lemma_content_area_fills_inner_width(content, ctx);
    crate::theme::lemma_sgr_codes();
    reveal_strlit("│");
    reveal_strlit(" ");
    reveal_strlit("│ ");
    reveal_strlit(" │");
    assert(char_cols(' ') == 1);
    let body = wrap_line_text(content, ctx).drop_last();
    if ctx.use_color {
        let d = DIM@;
        let r = RESET@;
        lemma_sgr_invisible(d, '2');
        lemma_sgr_invisible(r, '0');
        lemma_plain_char('│');
        lemma_plain_char(' ');
        assert(body =~= d + (seq!['│'] + (r + (seq![' '] + (ca + (seq![' '] + (d + (seq!['│'] + r))))))));
        lemma_visible_width_concat(seq!['│'], r);
        lemma_visible_width_concat(d, seq!['│'] + r);
        lemma_visible_width_concat(seq![' '], d + (seq!['│'] + r));
        lemma_visible_width_concat(ca, seq![' '] + (d + (seq!['│'] + r)));
        lemma_visible_width_concat(seq![' '], ca + (seq![' '] + (d + (seq!['│'] + r))));
        lemma_visible_width_concat(r, seq![' '] + (ca + (seq![' '] + (d + (seq!['│'] + r)))));
        lemma_visible_width_concat(seq!['│'], r + (seq![' '] + (ca + (seq![' '] + (d + (seq!['│'] + r))))));
        lemma_visible_width_concat(d, seq!['│'] + (r + (seq![' '] + (ca + (seq![' '] + (d + (seq!['│'] + r)))))));
    } else {
        lemma_two_chars('│', ' ');
        lemma_two_chars(' ', '│');
        assert(body =~= seq!['│', ' '] + (ca + seq![' ', '│']));
        lemma_visible_width_concat(ca, seq![' ', '│']);
        lemma_visible_width_concat(seq!['│', ' '], ca + seq![' ', '│']);
    }
}

} // verus!

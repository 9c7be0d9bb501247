//! Markdown through pulldown-cmark: its events, reduced to the ones the
//! renderer acts on, drive a state machine that emits lines, code blocks
//! and tables.

use vstd::prelude::*;

use pulldown_cmark::{Alignment, CodeBlockKind, Event, HeadingLevel, Options, Parser, Tag, TagEnd};

use crate::env::RenderCtx;
use crate::escape::repeat;
use crate::render::code::{code_emitted, Highlighting};
use crate::render::frame::sat_sub;
use crate::render::sink::{BoxedSink, LineSink};
use crate::render::table::{normalized_align, normalized_row, row_texts, table_text, texts, Align, Table};
use crate::strs::{chars_of, decimal, push_decimal, push_repeat, trim, trim_bounds, trim_string};
use crate::theme::{bold_colored, colorize_markdown_header, dim, dimmed, BOLD, FG_BLUE, FG_YELLOW, ITALIC, RESET};

verus! {

#[verifier::external_type_specification]
#[verifier::external_body]
pub struct ExEvent<'a>(Event<'a>);

#[verifier::external_type_specification]
#[verifier::external_body]
pub struct ExHeadingLevel(HeadingLevel);

#[verifier::external_type_specification]
#[verifier::external_body]
pub struct ExAlignment(Alignment);

/// A Markdown event as the renderer reads it.
pub enum MdEvent {
    StartHeading(usize),
    EndHeading,
    StartParagraph,
    EndParagraph,
    StartEmphasis,
    EndEmphasis,
    StartStrong,
    EndStrong,
    Code(String),
    StartCodeBlock(String),
    EndCodeBlock,
    StartList(Option<u64>),
    EndList,
    StartItem,
    EndItem,
    StartQuote,
    EndQuote,
    StartLink,
    EndLink,
    Text(String),
    Break,
    Rule,
    StartTable(Vec<Align>),
    StartRow,
    EndHead,
    EndRow,
    StartCell,
    EndCell,
    EndTable,
    Other,
}

/// What `pulldown_cmark::Parser::new_ext` with `Options::ENABLE_TABLES`
/// yields for a source, each event read by `md_event`.
pub uninterp spec fn markdown_events(source: Seq<char>) -> Seq<MdEvent>;

/// `pulldown_cmark::Parser::new_ext` with `Options::ENABLE_TABLES`, each
/// event read by `md_event`. Claimed: the events are a function of the
/// source alone, named `markdown_events`.
#[verifier::external_body]
fn md_parse(source: &str) -> (r: Vec<MdEvent>)
    ensures
        r@ == markdown_events(source@),
{
    Parser::new_ext(source, Options::ENABLE_TABLES).map(|e| md_event(&e)).collect()
}

/// Reads `Event::Start(Tag::Heading { level, .. })` for its `HeadingLevel`.
/// Nothing is claimed of the result.
#[verifier::external_body]
fn heading_level(ev: &Event) -> Option<HeadingLevel> {
    match ev {
        Event::Start(Tag::Heading { level, .. }) => Some(*level),
        _ => None,
    }
}

/// A `pulldown_cmark::HeadingLevel` as a number: `H1` is 1, ..., `H6` is 6.
/// Claimed: the number is between 1 and 6, as the enum has six variants.
#[verifier::external_body]
fn heading_n(level: HeadingLevel) -> (n: usize)
    ensures
        1 <= n <= 6,
{
    match level {
        HeadingLevel::H1 => 1,
        HeadingLevel::H2 => 2,
        HeadingLevel::H3 => 3,
        HeadingLevel::H4 => 4,
        HeadingLevel::H5 => 5,
        HeadingLevel::H6 => 6,
    }
}

/// Reads `Event::Start(Tag::Table(alignments))` for its `Alignment`s.
/// Nothing is claimed of the result.
#[verifier::external_body]
fn table_alignments(ev: &Event) -> Option<Vec<Alignment>> {
    match ev {
        Event::Start(Tag::Table(a)) => Some(a.clone()),
        _ => None,
    }
}

/// A `pulldown_cmark::Alignment`, variant for variant.
pub enum AlignRead {
    Unset,
    Left,
    Center,
    Right,
}

/// Converts a `pulldown_cmark::Alignment` to `AlignRead`, one variant each.
#[verifier::external_body]
fn map_align(a: &Alignment) -> AlignRead {
    match a {
        Alignment::None => AlignRead::Unset,
        Alignment::Left => AlignRead::Left,
        Alignment::Center => AlignRead::Center,
        Alignment::Right => AlignRead::Right,
    }
}

/// How a column alignment renders: an unset alignment renders as left.
pub open spec fn align_spec(a: AlignRead) -> Align {
    match a {
        AlignRead::Unset => Align::Left,
        AlignRead::Left => Align::Left,
        AlignRead::Center => Align::Center,
        AlignRead::Right => Align::Right,
    }
}

/// The table alignment an alignment renders as.
pub fn align_of(a: AlignRead) -> (r: Align)
    ensures
        r == align_spec(a),
{
    match a {
        AlignRead::Unset => Align::Left,
        AlignRead::Left => Align::Left,
        AlignRead::Center => Align::Center,
        AlignRead::Right => Align::Right,
    }
}

/// The `Event::Start(Tag::…)` events the renderer acts on (besides headings
/// and tables), variant for variant; `Other` for the rest.
pub enum StartRead {
    Paragraph,
    Emphasis,
    Strong,
    FencedCode(String),
    IndentedCode,
    List(Option<u64>),
    Item,
    Quote,
    Link,
    Head,
    Row,
    Cell,
    Other,
}

/// Reads an `Event::Start(Tag::…)` as `StartRead`, one arm per variant.
#[verifier::external_body]
fn start_event(ev: &Event) -> StartRead {
    match ev {
        Event::Start(Tag::Paragraph) => StartRead::Paragraph,
        Event::Start(Tag::Emphasis) => StartRead::Emphasis,
        Event::Start(Tag::Strong) => StartRead::Strong,
        Event::Start(Tag::CodeBlock(CodeBlockKind::Fenced(l))) => StartRead::FencedCode(l.to_string()),
        Event::Start(Tag::CodeBlock(CodeBlockKind::Indented)) => StartRead::IndentedCode,
        Event::Start(Tag::List(n)) => StartRead::List(*n),
        Event::Start(Tag::Item) => StartRead::Item,
        Event::Start(Tag::BlockQuote) => StartRead::Quote,
        Event::Start(Tag::Link { .. }) => StartRead::Link,
        Event::Start(Tag::TableHead) => StartRead::Head,
        Event::Start(Tag::TableRow) => StartRead::Row,
        Event::Start(Tag::TableCell) => StartRead::Cell,
        _ => StartRead::Other,
    }
}

/// How the renderer takes a start tag: an indented code block is a code
/// block without a language, and a table's head row starts like any row.
pub open spec fn start_read_as(s: StartRead, e: MdEvent) -> bool {
    match s {
        StartRead::Paragraph => e is StartParagraph,
        StartRead::Emphasis => e is StartEmphasis,
        StartRead::Strong => e is StartStrong,
        StartRead::FencedCode(l) => e == MdEvent::StartCodeBlock(l),
        StartRead::IndentedCode => e matches MdEvent::StartCodeBlock(l) && l@ == Seq::<char>::empty(),
        StartRead::List(n) => e == MdEvent::StartList(n),
        StartRead::Item => e is StartItem,
        StartRead::Quote => e is StartQuote,
        StartRead::Link => e is StartLink,
        StartRead::Head => e is StartRow,
        StartRead::Row => e is StartRow,
        StartRead::Cell => e is StartCell,
        StartRead::Other => e is Other,
    }
}

/// The event a start tag is taken as.
pub fn start_of(s: StartRead) -> (e: MdEvent)
    ensures
        start_read_as(s, e),
{
    match s {
        StartRead::Paragraph => MdEvent::StartParagraph,
        StartRead::Emphasis => MdEvent::StartEmphasis,
        StartRead::Strong => MdEvent::StartStrong,
        StartRead::FencedCode(l) => MdEvent::StartCodeBlock(l),
        StartRead::IndentedCode => MdEvent::StartCodeBlock(String::new()),
        StartRead::List(n) => MdEvent::StartList(n),
        StartRead::Item => MdEvent::StartItem,
        StartRead::Quote => MdEvent::StartQuote,
        StartRead::Link => MdEvent::StartLink,
        StartRead::Head => MdEvent::StartRow,
        StartRead::Row => MdEvent::StartRow,
        StartRead::Cell => MdEvent::StartCell,
        StartRead::Other => MdEvent::Other,
    }
}

/// Reads the `Event::End(TagEnd::…)` events of blocks, `Other` for the
/// rest. Claimed: the result is one of the variants the arms below produce.
#[verifier::external_body]
fn end_block_event(ev: &Event) -> (r: MdEvent)
    ensures
        r is EndHeading || r is EndParagraph || r is EndCodeBlock || r is EndList || r is EndItem || r is EndQuote
            || r is Other,
{
    match ev {
        Event::End(TagEnd::Heading(_)) => MdEvent::EndHeading,
        Event::End(TagEnd::Paragraph) => MdEvent::EndParagraph,
        Event::End(TagEnd::CodeBlock) => MdEvent::EndCodeBlock,
        Event::End(TagEnd::List(_)) => MdEvent::EndList,
        Event::End(TagEnd::Item) => MdEvent::EndItem,
        Event::End(TagEnd::BlockQuote) => MdEvent::EndQuote,
        _ => MdEvent::Other,
    }
}

/// Reads the `Event::End(TagEnd::…)` events of spans and table parts,
/// `Other` for the rest. Claimed: the result is one of the variants the
/// arms below produce.
#[verifier::external_body]
fn end_inline_event(ev: &Event) -> (r: MdEvent)
    ensures
        r is EndEmphasis || r is EndStrong || r is EndLink || r is EndHead || r is EndRow || r is EndCell
            || r is EndTable || r is Other,
{
    match ev {
        Event::End(TagEnd::Emphasis) => MdEvent::EndEmphasis,
        Event::End(TagEnd::Strong) => MdEvent::EndStrong,
        Event::End(TagEnd::Link) => MdEvent::EndLink,
        Event::End(TagEnd::TableHead) => MdEvent::EndHead,
        Event::End(TagEnd::TableRow) => MdEvent::EndRow,
        Event::End(TagEnd::TableCell) => MdEvent::EndCell,
        Event::End(TagEnd::Table) => MdEvent::EndTable,
        _ => MdEvent::Other,
    }
}

/// The leaf events the renderer acts on, variant for variant; `Other` for
/// the rest.
pub enum LeafRead {
    Text(String),
    Code(String),
    SoftBreak,
    HardBreak,
    Rule,
    Other,
}

/// Reads `Event::Text`, `Event::Code`, `Event::SoftBreak`,
/// `Event::HardBreak` and `Event::Rule` as `LeafRead`, one arm each.
#[verifier::external_body]
fn leaf_event(ev: &Event) -> LeafRead {
    match ev {
        Event::Text(t) => LeafRead::Text(t.to_string()),
        Event::Code(c) => LeafRead::Code(c.to_string()),
        Event::SoftBreak => LeafRead::SoftBreak,
        Event::HardBreak => LeafRead::HardBreak,
        Event::Rule => LeafRead::Rule,
        _ => LeafRead::Other,
    }
}

/// How the renderer takes a leaf: soft and hard breaks both end the line.
pub open spec fn leaf_read_as(l: LeafRead, e: MdEvent) -> bool {
    match l {
        LeafRead::Text(t) => e == MdEvent::Text(t),
        LeafRead::Code(c) => e == MdEvent::Code(c),
        LeafRead::SoftBreak => e is Break,
        LeafRead::HardBreak => e is Break,
        LeafRead::Rule => e is Rule,
        LeafRead::Other => e is Other,
    }
}

/// The event a leaf is taken as.
pub fn leaf_of(l: LeafRead) -> (e: MdEvent)
    ensures
        leaf_read_as(l, e),
{
    match l {
        LeafRead::Text(t) => MdEvent::Text(t),
        LeafRead::Code(c) => MdEvent::Code(c),
        LeafRead::SoftBreak => MdEvent::Break,
        LeafRead::HardBreak => MdEvent::Break,
        LeafRead::Rule => MdEvent::Rule,
        LeafRead::Other => MdEvent::Other,
    }
}

/// One parser event, read: a heading start (of level 1 to 6) or a table
/// start (each alignment as `align_of` renders it) when the event is one,
/// else the first read of the event as a start tag (`start_of`), a block
/// end, a span or table end, or a leaf (`leaf_of`) that is not `Other`.
/// Which variant comes back is decided by those reads; what holds whatever
/// they return is stated.
fn md_event(ev: &Event) -> (r: MdEvent)
    ensures
        r matches MdEvent::StartHeading(n) ==> 1 <= n <= 6,
{
    if let Some(level) = heading_level(ev) {
        return MdEvent::StartHeading(heading_n(level));
    }
    if let Some(aligns) = table_alignments(ev) {
        let mut v: Vec<Align> = Vec::new();
        let mut i: usize = 0;
        while i < aligns.len()
            invariant
                i <= aligns@.len(),
            decreases aligns@.len() - i,
        {
            v.push(align_of(map_align(&aligns[i])));
            i += 1;
        }
        return MdEvent::StartTable(v);
    }
    let e = start_of(start_event(ev));
    if !matches!(e, MdEvent::Other) {
        return e;
    }
    let e = end_block_event(ev);
    if !matches!(e, MdEvent::Other) {
        return e;
    }
    let e = end_inline_event(ev);
    if !matches!(e, MdEvent::Other) {
        return e;
    }
    leaf_of(leaf_event(ev))
}

/// The events of a Markdown source, read.
pub fn md_events(source: &str) -> (r: Vec<MdEvent>)
    ensures
        r@ == markdown_events(source@),
{
    md_parse(source)
}


/// A table being collected: its alignments, header, finished rows, the row
/// and the cell under way.
pub struct TableView {
    pub align: Seq<Align>,
    pub headers: Seq<Seq<char>>,
    pub rows: Seq<Seq<Seq<char>>>,
    pub row: Seq<Seq<char>>,
    pub cell: Option<Seq<char>>,
}

/// The renderer's state between events: the line being built, the open
/// lists' next numbers (`None` for bullets), the quote depth, a code block
/// under way (language, source), and a table under way.
pub struct MdView {
    pub acc: Seq<char>,
    pub lists: Seq<Option<u64>>,
    pub quote: u32,
    pub code: Option<(Seq<char>, Seq<char>)>,
    pub table: Option<TableView>,
}

/// What the renderer emits: a prose line, a pre-formatted line, a code block
/// (language, source), or a table (header, rows, alignments).
pub enum MdBlock {
    Text(Seq<char>),
    Raw(Seq<char>),
    Code(Seq<char>, Seq<char>),
    Table(Seq<Seq<char>>, Seq<Seq<Seq<char>>>, Seq<Align>),
}

pub open spec fn md_start() -> MdView {
    MdView { acc: Seq::empty(), lists: Seq::empty(), quote: 0, code: None, table: None }
}

/// `s` repeated `n` times.
pub open spec fn repeat_seq(s: Seq<char>, n: nat) -> Seq<char>
    decreases n,
{
    if n == 0 {
        Seq::empty()
    } else {
        repeat_seq(s, (n - 1) as nat) + s
    }
}

/// Emits the line under way, behind one dimmed `> ` per quote level, unless
/// it is blank; either way the line starts over.
pub open spec fn flushed(st: MdView, color: bool) -> (MdView, Seq<MdBlock>) {
    let cleared = MdView { acc: Seq::empty(), ..st };
    if trim(st.acc).len() == 0 {
        (cleared, Seq::empty())
    } else if st.quote > 0 {
        (cleared, seq![MdBlock::Text(dimmed(repeat_seq("> "@, st.quote as nat), color) + st.acc)])
    } else {
        (cleared, seq![MdBlock::Text(st.acc)])
    }
}

/// Whether text goes into a table cell.
pub open spec fn in_cell(st: MdView) -> bool {
    st.table matches Some(t) && t.cell is Some
}

/// `st` with `s` added to the line under way.
pub open spec fn with_acc(st: MdView, s: Seq<char>) -> MdView {
    MdView { acc: st.acc + s, ..st }
}

/// `st` with `s` added to the open table cell.
pub open spec fn with_cell(st: MdView, s: Seq<char>) -> MdView {
    match st.table {
        Some(t) => match t.cell {
            Some(c) => MdView { table: Some(TableView { cell: Some(c + s), ..t }), ..st },
            None => st,
        },
        None => st,
    }
}

/// `st` with the table under way changed by `f`, if there is one.
pub open spec fn with_table(st: MdView, f: spec_fn(TableView) -> TableView) -> MdView {
    match st.table {
        Some(t) => MdView { table: Some(f(t)), ..st },
        None => st,
    }
}

/// A style code, added when color is on and text is not going into a cell.
pub open spec fn styled(st: MdView, code: Seq<char>, color: bool) -> MdView {
    if color && !in_cell(st) {
        with_acc(st, code)
    } else {
        st
    }
}

/// A list item's marker: its indent, then the number and a dot, or a bullet.
pub open spec fn item_marker(lists: Seq<Option<u64>>) -> Seq<char> {
    let indent = repeat_seq("  "@, sat_sub(lists.len(), 1));
    match lists.last() {
        Some(n) => indent + decimal(n as nat) + ". "@,
        None => indent + "• "@,
    }
}

proof fn lemma_repeat_two_spaces(n: nat)
    ensures
        repeat_seq("  "@, n).len() == 2 * n,
        forall|j: int| 0 <= j < 2 * n ==> #[trigger] repeat_seq("  "@, n)[j] == ' ',
    decreases n,
{
    reveal_strlit("  ");
    if n > 0 {
        lemma_repeat_two_spaces((n - 1) as nat);
        let r = repeat_seq("  "@, n);
        let p = repeat_seq("  "@, (n - 1) as nat);
        assert(r == p + "  "@);
        assert forall|j: int| 0 <= j < 2 * n implies #[trigger] r[j] == ' ' by {
            if j < 2 * (n - 1) {
                assert(r[j] == p[j]);
            } else {
                assert(r[j] == "  "@[j - 2 * (n - 1)]);
            }
        }
    }
}

/// Nested list items are indented two spaces per level below the top: the
/// marker of an item in `d` open lists starts with exactly `2 * (d - 1)`
/// spaces, then the bullet `• `, or the item's number, a dot and a space.
pub proof fn lemma_item_marker_indent(lists: Seq<Option<u64>>)
    requires
        lists.len() >= 1,
    ensures
        ({
            let m = item_marker(lists);
            let ind = 2 * (lists.len() - 1);
            &&& m.len() > ind
            &&& forall|j: int| 0 <= j < ind ==> #[trigger] m[j] == ' '
            &&& m[ind] != ' '
            &&& lists.last() is None ==> m.subrange(ind, m.len() as int) == seq!['•', ' ']
            &&& lists.last() matches Some(n) ==> m.subrange(ind, m.len() as int) == decimal(n as nat) + seq!['.', ' ']
        }),
{
    let d = (lists.len() - 1) as nat;
    assert(sat_sub(lists.len(), 1) == d);
    lemma_repeat_two_spaces(d);
    let ind = repeat_seq("  "@, d);
    let m = item_marker(lists);
    reveal_strlit("• ");
    reveal_strlit(". ");
    match lists.last() {
        Some(n) => {
            crate::numeric::lemma_decimal_reads_back(n as nat);
            let tail = decimal(n as nat) + ". "@;
            assert(m == ind + tail);
            assert(m[(2 * d) as int] == tail[0]);
            assert(tail[0] == decimal(n as nat)[0]);
            assert(crate::numeric::is_digit(decimal(n as nat)[0]));
            assert forall|j: int| 0 <= j < 2 * d implies #[trigger] m[j] == ' ' by {
                assert(m[j] == ind[j]);
            }
            assert(m.subrange((2 * d) as int, m.len() as int) =~= decimal(n as nat) + seq!['.', ' ']);
        },
        None => {
            let tail = "• "@;
            assert(m == ind + tail);
            assert forall|j: int| 0 <= j < 2 * d implies #[trigger] m[j] == ' ' by {
                assert(m[j] == ind[j]);
            }
            assert(m.subrange((2 * d) as int, m.len() as int) =~= seq!['•', ' ']);
        },
    }
}

/// The next number of an ordered list.
pub open spec fn next_number(n: u64) -> u64 {
    if n == u64::MAX {
        0
    } else {
        (n + 1) as u64
    }
}

/// One event's effect: the new state and what it emits.
pub open spec fn md_step(st: MdView, ev: MdEvent, color: bool, width: usize) -> (MdView, Seq<MdBlock>) {
    match ev {
        MdEvent::StartHeading(n) => {
            let (s1, b) = flushed(st, color);
            (with_acc(s1, bold_colored(FG_BLUE@, repeat('#', n as nat) + " "@, color)), b)
        },
        MdEvent::EndHeading => flushed(
            if color {
                with_acc(st, RESET@)
            } else {
                st
            },
            color,
        ),
        MdEvent::StartParagraph => (st, Seq::empty()),
        MdEvent::EndParagraph => flushed(st, color),
        MdEvent::StartEmphasis => (styled(st, ITALIC@, color), Seq::empty()),
        MdEvent::EndEmphasis => (styled(st, RESET@, color), Seq::empty()),
        MdEvent::StartStrong => (styled(st, BOLD@, color), Seq::empty()),
        MdEvent::EndStrong => (styled(st, RESET@, color), Seq::empty()),
        MdEvent::Code(c) => if in_cell(st) {
            (with_cell(st, c@), Seq::empty())
        } else {
            let s1 = if color {
                with_acc(st, FG_YELLOW@)
            } else {
                st
            };
            let s2 = with_acc(s1, seq!['`'] + c@ + seq!['`']);
            (if color {
                with_acc(s2, RESET@)
            } else {
                s2
            }, Seq::empty())
        },
        MdEvent::StartCodeBlock(l) => {
            let (s1, b) = flushed(st, color);
            let lang = if l@.len() == 0 {
                "text"@
            } else {
                l@
            };
            (MdView { code: Some((lang, Seq::empty())), ..s1 }, b)
        },
        MdEvent::Text(t) => match st.code {
            Some((lang, src)) => (MdView { code: Some((lang, src + t@)), ..st }, Seq::empty()),
            None => if in_cell(st) {
                (with_cell(st, t@), Seq::empty())
            } else {
                (with_acc(st, t@), Seq::empty())
            },
        },
        MdEvent::EndCodeBlock => match st.code {
            Some((lang, src)) => (MdView { code: None, ..st }, seq![MdBlock::Code(lang, src)]),
            None => (st, seq![MdBlock::Code("text"@, Seq::empty())]),
        },
        MdEvent::StartList(n) => {
            let (s1, b) = flushed(st, color);
            (MdView { lists: s1.lists.push(n), ..s1 }, b)
        },
        MdEvent::EndList => (if st.lists.len() > 0 {
            MdView { lists: st.lists.drop_last(), ..st }
        } else {
            st
        }, Seq::empty()),
        MdEvent::StartItem => if st.lists.len() == 0 {
            (st, Seq::empty())
        } else {
            let s1 = with_acc(st, item_marker(st.lists));
            (match st.lists.last() {
                Some(n) => MdView {
                    lists: st.lists.update(st.lists.len() - 1, Some(next_number(n))),
                    ..s1
                },
                None => s1,
            }, Seq::empty())
        },
        MdEvent::EndItem => flushed(st, color),
        MdEvent::StartQuote => (MdView {
            quote: if st.quote == u32::MAX {
                st.quote
            } else {
                (st.quote + 1) as u32
            },
            ..st
        }, Seq::empty()),
        MdEvent::EndQuote => (MdView {
            quote: if st.quote == 0 {
                0
            } else {
                (st.quote - 1) as u32
            },
            ..st
        }, Seq::empty()),
        MdEvent::StartLink => (with_acc(st, seq!['[']), Seq::empty()),
        MdEvent::EndLink => (with_acc(st, seq![']']), Seq::empty()),
        MdEvent::Break => if in_cell(st) {
            (with_cell(st, seq![' ']), Seq::empty())
        } else {
            flushed(st, color)
        },
        MdEvent::Rule => {
            let (s1, b) = flushed(st, color);
            (s1, b.push(MdBlock::Raw(repeat('─', sat_sub(width as nat, 4)))))
        },
        MdEvent::StartTable(a) => {
            let (s1, b) = flushed(st, color);
            (MdView {
                table: Some(
                    TableView {
                        align: a@,
                        headers: Seq::empty(),
                        rows: Seq::empty(),
                        row: Seq::empty(),
                        cell: None,
                    },
                ),
                ..s1
            }, b)
        },
        MdEvent::StartRow => (with_table(st, |t: TableView| TableView { row: Seq::empty(), ..t }), Seq::empty()),
        MdEvent::EndHead => (with_table(
            st,
            |t: TableView| TableView { headers: t.row, row: Seq::empty(), ..t },
        ), Seq::empty()),
        MdEvent::EndRow => (with_table(
            st,
            |t: TableView| TableView { rows: t.rows.push(t.row), row: Seq::empty(), ..t },
        ), Seq::empty()),
        MdEvent::StartCell => (with_table(st, |t: TableView| TableView { cell: Some(Seq::empty()), ..t }), Seq::empty()),
        MdEvent::EndCell => (with_table(
            st,
            |t: TableView|
                TableView {
                    row: t.row.push(
                        trim(
                            match t.cell {
                                Some(c) => c,
                                None => Seq::empty(),
                            },
                        ),
                    ),
                    cell: None,
                    ..t
                },
        ), Seq::empty()),
        MdEvent::EndTable => match st.table {
            Some(t) => (MdView { table: None, ..st }, seq![MdBlock::Table(t.headers, t.rows, t.align)]),
            None => (st, Seq::empty()),
        },
        MdEvent::Other => (st, Seq::empty()),
    }
}

/// The state after a run of events, and everything they emitted.
pub open spec fn md_run(st: MdView, evs: Seq<MdEvent>, color: bool, width: usize) -> (MdView, Seq<MdBlock>)
    decreases evs.len(),
{
    if evs.len() == 0 {
        (st, Seq::empty())
    } else {
        let (s1, b1) = md_run(st, evs.drop_last(), color, width);
        let (s2, b2) = md_step(s1, evs.last(), color, width);
        (s2, b1 + b2)
    }
}

/// Everything a document's events emit, the last line included.
pub open spec fn md_blocks(evs: Seq<MdEvent>, color: bool, width: usize) -> Seq<MdBlock> {
    let (s, b) = md_run(md_start(), evs, color, width);
    b + flushed(s, color).1
}

/// How one emitted thing shows up in a sink of type `S`: a prose or raw
/// line; a code block highlighted as `code::render` does it; a table drawn
/// as `table::render` does it, each row cut or padded to the header.
pub open spec fn block_emitted<S: LineSink>(before: Seq<char>, after: Seq<char>, b: MdBlock, ctx: RenderCtx, hl: Highlighting) -> bool {
    match b {
        MdBlock::Text(l) => after == before + S::line_text(l, ctx, false),
        MdBlock::Raw(l) => after == before + S::line_text(l, ctx, true),
        MdBlock::Code(lang, src) => code_emitted::<S>(before, after, src, lang, hl, ctx),
        MdBlock::Table(h, rows, a) => after == before + table_text::<S>(
            h,
            rows.map_values(|r: Seq<Seq<char>>| normalized_row(r, h.len())),
            normalized_align(a, h.len()),
            ctx,
        ),
    }
}

/// Several emitted things, one after another.
pub open spec fn blocks_emitted<S: LineSink>(before: Seq<char>, after: Seq<char>, bs: Seq<MdBlock>, ctx: RenderCtx, hl: Highlighting) -> bool
    decreases bs.len(),
{
    if bs.len() == 0 {
        after == before
    } else {
        exists|mid: Seq<char>|
            blocks_emitted::<S>(before, mid, bs.drop_last(), ctx, hl) && #[trigger] block_emitted::<S>(
                mid,
                after,
                bs.last(),
                ctx,
                hl,
            )
    }
}

pub proof fn lemma_blocks_emitted_one<S: LineSink>(before: Seq<char>, after: Seq<char>, b: MdBlock, ctx: RenderCtx, hl: Highlighting)
    requires
        block_emitted::<S>(before, after, b, ctx, hl),
    ensures
        blocks_emitted::<S>(before, after, seq![b], ctx, hl),
{
    assert(seq![b].drop_last() =~= Seq::<MdBlock>::empty());
    assert(blocks_emitted::<S>(before, before, Seq::<MdBlock>::empty(), ctx, hl));
    assert(blocks_emitted::<S>(before, before, seq![b].drop_last(), ctx, hl) && block_emitted::<S>(before, after, seq![b].last(), ctx, hl));
}

pub proof fn lemma_blocks_emitted_concat<S: LineSink>(
    x: Seq<char>,
    y: Seq<char>,
    z: Seq<char>,
    a: Seq<MdBlock>,
    b: Seq<MdBlock>,
    ctx: RenderCtx,
    hl: Highlighting,
)
    requires
        blocks_emitted::<S>(x, y, a, ctx, hl),
        blocks_emitted::<S>(y, z, b, ctx, hl),
    ensures
        blocks_emitted::<S>(x, z, a + b, ctx, hl),
    decreases b.len(),
{
    if b.len() == 0 {
        assert(a + b =~= a);
    } else {
        let mid = choose|mid: Seq<char>|
            blocks_emitted::<S>(y, mid, b.drop_last(), ctx, hl) && #[trigger] block_emitted::<S>(
                mid,
                z,
                b.last(),
                ctx,
                hl,
            );
        lemma_blocks_emitted_concat::<S>(x, y, mid, a, b.drop_last(), ctx, hl);
        assert((a + b).drop_last() =~= a + b.drop_last());
        assert((a + b).last() == b.last());
        assert(blocks_emitted::<S>(x, mid, (a + b).drop_last(), ctx, hl) && block_emitted::<S>(mid, z, (a + b).last(), ctx, hl));
    }
}


pub open spec fn opt_seq(s: Option<String>) -> Option<Seq<char>> {
    match s {
        Some(x) => Some(x@),
        None => None,
    }
}

/// Accumulates GFM table events into a `Table`.
struct TableBuilder {
    align: Vec<Align>,
    headers: Vec<String>,
    rows: Vec<Vec<String>>,
    cur_row: Vec<String>,
    cur_cell: Option<String>,
}

impl TableBuilder {
    spec fn view(&self) -> TableView {
        TableView {
            align: self.align@,
            headers: texts(self.headers@),
            rows: row_texts(self.rows@),
            row: texts(self.cur_row@),
            cell: opt_seq(self.cur_cell),
        }
    }

    fn new(align: Vec<Align>) -> (t: Self)
        ensures
            t.view() == (TableView {
                align: align@,
                headers: Seq::empty(),
                rows: Seq::empty(),
                row: Seq::empty(),
                cell: None,
            }),
    {
        let t = TableBuilder {
            align,
            headers: Vec::new(),
            rows: Vec::new(),
            cur_row: Vec::new(),
            cur_cell: None,
        };
        assert(texts(t.headers@) =~= Seq::empty());
        assert(row_texts(t.rows@) =~= Seq::empty());
        assert(texts(t.cur_row@) =~= Seq::empty());
        t
    }

    fn begin_row(&mut self)
        ensures
            final(self).view() == (TableView { row: Seq::empty(), ..old(self).view() }),
    {
        self.cur_row = Vec::new();
        assert(texts(self.cur_row@) =~= Seq::empty());
    }

    fn end_head(&mut self)
        ensures
            final(self).view() == (TableView { headers: old(self).view().row, row: Seq::empty(), ..old(self).view() }),
    {
        let mut row: Vec<String> = Vec::new();
        std::mem::swap(&mut row, &mut self.cur_row);
        self.headers = row;
        assert(texts(self.cur_row@) =~= Seq::empty());
    }

    fn end_row(&mut self)
        ensures
            final(self).view() == (TableView {
                rows: old(self).view().rows.push(old(self).view().row),
                row: Seq::empty(),
                ..old(self).view()
            }),
    {
        let mut row: Vec<String> = Vec::new();
        std::mem::swap(&mut row, &mut self.cur_row);
        let ghost r = row;
        self.rows.push(row);
        assert(row_texts(self.rows@) =~= row_texts(old(self).rows@).push(texts(r@)));
        assert(texts(self.cur_row@) =~= Seq::empty());
    }

    fn begin_cell(&mut self)
        ensures
            final(self).view() == (TableView { cell: Some(Seq::<char>::empty()), ..old(self).view() }),
    {
        self.cur_cell = Some(String::new());
    }

    fn end_cell(&mut self)
        ensures
            final(self).view() == (TableView {
                row: old(self).view().row.push(
                    trim(
                        match old(self).view().cell {
                            Some(c) => c,
                            None => Seq::empty(),
                        },
                    ),
                ),
                cell: None,
                ..old(self).view()
            }),
    {
        let cell = match self.cur_cell.take() {
            Some(c) => c,
            None => String::new(),
        };
        let t = trim_string(&chars_of(cell.as_str()));
        let ghost before = self.cur_row@;
        self.cur_row.push(t);
        assert(texts(self.cur_row@) =~= texts(before).push(t@));
    }

    fn push_cell(&mut self, s: &str)
        ensures
            final(self).view() == (TableView {
                cell: match old(self).view().cell {
                    Some(c) => Some(c + s@),
                    None => None,
                },
                ..old(self).view()
            }),
    {
        match self.cur_cell.take() {
            Some(mut c) => {
                c.append(s);
                self.cur_cell = Some(c);
            },
            None => {},
        }
    }

    fn into_table(self) -> (t: Table)
        ensures
            t.wf(),
            texts(t.headers@) == self.view().headers,
            row_texts(t.rows@) == self.view().rows.map_values(
                |r: Seq<Seq<char>>| normalized_row(r, self.view().headers.len()),
            ),
            t.align@ == normalized_align(self.view().align, self.view().headers.len()),
    {
        let ghost v = self.view();
        let t = Table::new(self.headers, self.rows, self.align);
        assert(row_texts(t.rows@) =~= v.rows.map_values(|r: Seq<Seq<char>>| normalized_row(r, v.headers.len())));
        t
    }
}

/// The renderer between events.
pub struct MdRenderer {
    acc: String,
    lists: Vec<Option<u64>>,
    quote: u32,
    code: Option<(String, String)>,
    table: Option<TableBuilder>,
}

impl MdRenderer {
    pub closed spec fn view(&self) -> MdView {
        MdView {
            acc: self.acc@,
            lists: self.lists@,
            quote: self.quote,
            code: match self.code {
                Some((l, s)) => Some((l@, s@)),
                None => None,
            },
            table: match self.table {
                Some(t) => Some(t.view()),
                None => None,
            },
        }
    }

    pub fn new() -> (r: Self)
        ensures
            r.view() == md_start(),
    {
        MdRenderer { acc: String::new(), lists: Vec::new(), quote: 0, code: None, table: None }
    }

    fn in_table_cell(&self) -> (r: bool)
        ensures
            r == in_cell(self.view()),
    {
        match &self.table {
            Some(t) => t.cur_cell.is_some(),
            None => false,
        }
    }

    fn push_acc(&mut self, s: &str)
        ensures
            final(self).view() == with_acc(old(self).view(), s@),
    {
        self.acc.append(s);
    }

    fn push_cell(&mut self, s: &str)
        ensures
            final(self).view() == with_cell(old(self).view(), s@),
    {
        match self.table.take() {
            Some(mut t) => {
                t.push_cell(s);
                self.table = Some(t);
            },
            None => {},
        }
    }

    /// Plain text goes into the open table cell if there is one, otherwise
    /// onto the line under way.
    fn text_sink(&mut self, t: &str)
        ensures
            final(self).view() == (if in_cell(old(self).view()) {
                with_cell(old(self).view(), t@)
            } else {
                with_acc(old(self).view(), t@)
            }),
    {
        if self.in_table_cell() {
            self.push_cell(t);
        } else {
            self.push_acc(t);
        }
    }

    /// Emit the line under way and start a new one.
    fn flush_line<S: LineSink>(&mut self, ctx: &RenderCtx, hl: &Highlighting, sink: &mut S)
        ensures
            final(self).view() == flushed(old(self).view(), ctx.use_color).0,
            blocks_emitted::<S>(old(sink).output(), final(sink).output(), flushed(old(self).view(), ctx.use_color).1, *ctx, *hl),
    {
        let v = chars_of(self.acc.as_str());
        let (a, b) = trim_bounds(&v);
        let ghost before = sink.output();
        if a == b {
            self.acc = String::new();
            assert(trim(v@).len() == 0);
            return;
        }
        let mut line = if self.quote > 0 {
            let mut prefix = String::new();
            let mut k: u32 = 0;
            while k < self.quote
                invariant
                    k <= self.quote,
                    prefix@ == repeat_seq("> "@, k as nat),
                decreases self.quote - k,
            {
                prefix.append("> ");
                k += 1;
            }
            dim(prefix.as_str(), ctx.use_color)
        } else {
            String::new()
        };
        line.append(self.acc.as_str());
        sink.text_line(line.as_str(), ctx);
        self.acc = String::new();
        proof {
            lemma_blocks_emitted_one::<S>(before, sink.output(), MdBlock::Text(line@), *ctx, *hl);
        }
    }

    /// The style events: a code when color is on, unless text is going into
    /// a table cell.
    fn style<S: LineSink>(&mut self, code: &str, ctx: &RenderCtx)
        ensures
            final(self).view() == styled(old(self).view(), code@, ctx.use_color),
    {
        if ctx.use_color && !self.in_table_cell() {
            self.push_acc(code);
        }
    }

    fn on_heading<S: LineSink>(&mut self, n: usize, ctx: &RenderCtx, hl: &Highlighting, sink: &mut S)
        ensures
            final(self).view() == md_step(old(self).view(), MdEvent::StartHeading(n), ctx.use_color, ctx.width).0,
            blocks_emitted::<S>(
                old(sink).output(),
                final(sink).output(),
                md_step(old(self).view(), MdEvent::StartHeading(n), ctx.use_color, ctx.width).1,
                *ctx,
                *hl,
            ),
    {
        self.flush_line(ctx, hl, sink);
        let mut h = String::new();
        push_repeat(&mut h, '#', n);
        h.append(" ");
        let header = colorize_markdown_header(h.as_str(), ctx.use_color);
        self.push_acc(header.as_str());
    }

    fn on_inline_code(&mut self, code: String, ctx: &RenderCtx)
        ensures
            final(self).view() == md_step(old(self).view(), MdEvent::Code(code), ctx.use_color, ctx.width).0,
    {
        let c = code.as_str();
        if self.in_table_cell() {
            self.push_cell(c);
        } else {
            if ctx.use_color {
                self.push_acc(FG_YELLOW);
            }
            let mut q = String::from_str("`");
            q.append(c);
            q.append("`");
            proof {
                reveal_strlit("`");
                assert(q@ =~= seq!['`'] + c@ + seq!['`']);
            }
            self.push_acc(q.as_str());
            if ctx.use_color {
                self.push_acc(RESET);
            }
        }
    }

    fn on_item(&mut self)
        ensures
            final(self).view() == md_step(old(self).view(), MdEvent::StartItem, false, 0).0,
    {
        let len = self.lists.len();
        if len == 0 {
            return;
        }
        let mut marker = String::new();
        let mut k: usize = 1;
        while k < len
            invariant
                1 <= k <= len,
                marker@ == repeat_seq("  "@, (k - 1) as nat),
            decreases len - k,
        {
            marker.append("  ");
            k += 1;
        }
        match self.lists[len - 1] {
            Some(n) => {
                push_decimal(&mut marker, n);
                marker.append(". ");
                self.push_acc(marker.as_str());
                self.lists.set(len - 1, Some(n.wrapping_add(1)));
            },
            None => {
                marker.append("• ");
                self.push_acc(marker.as_str());
            },
        }
    }

    fn on_table_event(&mut self, ev: MdEvent)
        requires
            ev is StartRow || ev is EndHead || ev is EndRow || ev is StartCell || ev is EndCell,
        ensures
            final(self).view() == md_step(old(self).view(), ev, false, 0).0,
    {
        match self.table.take() {
            Some(mut t) => {
                match ev {
                    MdEvent::StartRow => t.begin_row(),
                    MdEvent::EndHead => t.end_head(),
                    MdEvent::EndRow => t.end_row(),
                    MdEvent::StartCell => t.begin_cell(),
                    _ => t.end_cell(),
                }
                self.table = Some(t);
            },
            None => {},
        }
    }

    fn on_rule<S: LineSink>(&mut self, ctx: &RenderCtx, hl: &Highlighting, sink: &mut S)
        ensures
            final(self).view() == md_step(old(self).view(), MdEvent::Rule, ctx.use_color, ctx.width).0,
            blocks_emitted::<S>(
                old(sink).output(),
                final(sink).output(),
                md_step(old(self).view(), MdEvent::Rule, ctx.use_color, ctx.width).1,
                *ctx,
                *hl,
            ),
    {
        let ghost s0 = sink.output();
        let ghost v0 = self.view();
        self.flush_line(ctx, hl, sink);
        let ghost s1 = sink.output();
        let mut dashes = String::new();
        push_repeat(&mut dashes, '─', ctx.width.saturating_sub(4));
        sink.raw_line(dashes.as_str(), ctx);
        proof {
            let blk = MdBlock::Raw(repeat('─', sat_sub(ctx.width as nat, 4)));
            lemma_blocks_emitted_one::<S>(s1, sink.output(), blk, *ctx, *hl);
            lemma_blocks_emitted_concat::<S>(s0, s1, sink.output(), flushed(v0, ctx.use_color).1, seq![blk], *ctx, *hl);
            assert(flushed(v0, ctx.use_color).1 + seq![blk] =~= flushed(v0, ctx.use_color).1.push(blk));
        }
    }

    fn on_code_end<S: LineSink>(&mut self, ctx: &RenderCtx, hl: &Highlighting, sink: &mut S)
        ensures
            final(self).view() == md_step(old(self).view(), MdEvent::EndCodeBlock, ctx.use_color, ctx.width).0,
            blocks_emitted::<S>(
                old(sink).output(),
                final(sink).output(),
                md_step(old(self).view(), MdEvent::EndCodeBlock, ctx.use_color, ctx.width).1,
                *ctx,
                *hl,
            ),
    {
        let ghost s0 = sink.output();
        let (lang, src) = match self.code.take() {
            Some((l, s)) => (l, s),
            None => (String::from_str("text"), String::new()),
        };
        crate::render::code::render(src.as_str(), lang.as_str(), ctx, hl, sink);
        proof {
            lemma_blocks_emitted_one::<S>(s0, sink.output(), MdBlock::Code(lang@, src@), *ctx, *hl);
        }
    }

    fn on_table_end<S: LineSink>(&mut self, ctx: &RenderCtx, hl: &Highlighting, sink: &mut S)
        ensures
            final(self).view() == md_step(old(self).view(), MdEvent::EndTable, ctx.use_color, ctx.width).0,
            blocks_emitted::<S>(
                old(sink).output(),
                final(sink).output(),
                md_step(old(self).view(), MdEvent::EndTable, ctx.use_color, ctx.width).1,
                *ctx,
                *hl,
            ),
    {
        let ghost s0 = sink.output();
        match self.table.take() {
            Some(t) => {
                let ghost tv = t.view();
                let table = t.into_table();
                crate::render::table::render(&table, ctx, sink);
                proof {
                    lemma_blocks_emitted_one::<S>(s0, sink.output(), MdBlock::Table(tv.headers, tv.rows, tv.align), *ctx, *hl);
                }
            },
            None => {},
        }
    }
}


impl MdRenderer {
    /// Apply one event, emitting what it completes.
    #[verifier::rlimit(40)]
    pub fn step<S: LineSink>(&mut self, ev: MdEvent, ctx: &RenderCtx, hl: &Highlighting, sink: &mut S)
        ensures
            final(self).view() == md_step(old(self).view(), ev, ctx.use_color, ctx.width).0,
            blocks_emitted::<S>(
                old(sink).output(),
                final(sink).output(),
                md_step(old(self).view(), ev, ctx.use_color, ctx.width).1,
                *ctx,
                *hl,
            ),
    {
        match ev {
            MdEvent::StartHeading(n) => self.on_heading(n, ctx, hl, sink),
            MdEvent::EndHeading => {
                if ctx.use_color {
                    self.push_acc(RESET);
                }
                self.flush_line(ctx, hl, sink);
            },
            MdEvent::StartParagraph => {},
            MdEvent::EndParagraph => self.flush_line(ctx, hl, sink),
            MdEvent::StartEmphasis => self.style::<S>(ITALIC, ctx),
            MdEvent::EndEmphasis => self.style::<S>(RESET, ctx),
            MdEvent::StartStrong => self.style::<S>(BOLD, ctx),
            MdEvent::EndStrong => self.style::<S>(RESET, ctx),
            MdEvent::Code(c) => self.on_inline_code(c, ctx),
            MdEvent::StartCodeBlock(l) => {
                self.flush_line(ctx, hl, sink);
                let lang = if chars_of(l.as_str()).len() == 0 {
                    String::from_str("text")
                } else {
                    l
                };
                self.code = Some((lang, String::new()));
            },
            MdEvent::Text(t) => {
                match self.code.take() {
                    Some((lang, mut src)) => {
                        src.append(t.as_str());
                        self.code = Some((lang, src));
                    },
                    None => self.text_sink(t.as_str()),
                }
            },
            MdEvent::EndCodeBlock => self.on_code_end(ctx, hl, sink),
            MdEvent::StartList(n) => {
                self.flush_line(ctx, hl, sink);
                self.lists.push(n);
            },
            MdEvent::EndList => {
                self.lists.pop();
            },
            MdEvent::StartItem => self.on_item(),
            MdEvent::EndItem => self.flush_line(ctx, hl, sink),
            MdEvent::StartQuote => {
                self.quote = self.quote.saturating_add(1);
            },
            MdEvent::EndQuote => {
                self.quote = self.quote.saturating_sub(1);
            },
            MdEvent::StartLink => {
                proof {
                    reveal_strlit("[");
                    assert("["@ =~= seq!['[']);
                }
                self.push_acc("[");
            },
            MdEvent::EndLink => {
                proof {
                    reveal_strlit("]");
                    assert("]"@ =~= seq![']']);
                }
                self.push_acc("]");
            },
            MdEvent::Break => {
                if self.in_table_cell() {
                    proof {
                        reveal_strlit(" ");
                        assert(" "@ =~= seq![' ']);
                    }
                    self.push_cell(" ");
                } else {
                    self.flush_line(ctx, hl, sink);
                }
            },
            MdEvent::Rule => self.on_rule(ctx, hl, sink),
            MdEvent::StartTable(a) => {
                self.flush_line(ctx, hl, sink);
                self.table = Some(TableBuilder::new(a));
            },
            MdEvent::StartRow => self.on_table_event(MdEvent::StartRow),
            MdEvent::EndHead => self.on_table_event(MdEvent::EndHead),
            MdEvent::EndRow => self.on_table_event(MdEvent::EndRow),
            MdEvent::StartCell => self.on_table_event(MdEvent::StartCell),
            MdEvent::EndCell => self.on_table_event(MdEvent::EndCell),
            MdEvent::EndTable => self.on_table_end(ctx, hl, sink),
            MdEvent::Other => {},
        }
    }

    /// Emit what is still under way at the end of the document.
    pub fn finish<S: LineSink>(&mut self, ctx: &RenderCtx, hl: &Highlighting, sink: &mut S)
        ensures
            final(self).view() == flushed(old(self).view(), ctx.use_color).0,
            blocks_emitted::<S>(old(sink).output(), final(sink).output(), flushed(old(self).view(), ctx.use_color).1, *ctx, *hl),
    {
        self.flush_line(ctx, hl, sink);
    }
}

/// Render a document's events: every event applied in order, then the last
/// line emitted.
pub fn render_events<S: LineSink>(events: Vec<MdEvent>, ctx: &RenderCtx, hl: &Highlighting, sink: &mut S)
    ensures
        blocks_emitted::<S>(old(sink).output(), final(sink).output(), md_blocks(events@, ctx.use_color, ctx.width), *ctx, *hl),
{
    let ghost evs = events@;
    let ghost start = sink.output();
    let mut m = MdRenderer::new();
    let mut rest = events;
    // walk the events front to back
    let mut rev: Vec<MdEvent> = Vec::new();
    let total = rest.len();
    while rest.len() > 0
        invariant
            total == evs.len(),
            rest@.len() + rev@.len() == evs.len(),
            forall|k: int| 0 <= k < rest@.len() ==> #[trigger] rest@[k] == evs[k],
            forall|k: int| 0 <= k < rev@.len() ==> #[trigger] rev@[k] == evs[evs.len() - 1 - k],
        decreases rest@.len(),
    {
        let e = rest.pop().unwrap();
        rev.push(e);
    }
    let mut i: usize = 0;
    while rev.len() > 0
        invariant
            total == evs.len(),
            i + rev@.len() == evs.len(),
            forall|k: int| 0 <= k < rev@.len() ==> #[trigger] rev@[k] == evs[evs.len() - 1 - k],
            m.view() == md_run(md_start(), evs.subrange(0, i as int), ctx.use_color, ctx.width).0,
            blocks_emitted::<S>(start, sink.output(), md_run(md_start(), evs.subrange(0, i as int), ctx.use_color, ctx.width).1, *ctx, *hl),
        decreases rev@.len(),
    {
        let e = rev.pop().unwrap();
        let ghost mid = sink.output();
        let ghost before = md_run(md_start(), evs.subrange(0, i as int), ctx.use_color, ctx.width);
        proof {
            assert(e == evs[i as int]);
            assert(evs.subrange(0, i + 1).drop_last() =~= evs.subrange(0, i as int));
            assert(evs.subrange(0, i + 1).last() == e);
        }
        m.step(e, ctx, hl, sink);
        proof {
            lemma_blocks_emitted_concat::<S>(start, mid, sink.output(), before.1, md_step(before.0, e, ctx.use_color, ctx.width).1, *ctx, *hl);
        }
        i += 1;
    }
    let ghost mid = sink.output();
    let ghost run = md_run(md_start(), evs.subrange(0, i as int), ctx.use_color, ctx.width);
    m.finish(ctx, hl, sink);
    proof {
        assert(evs.subrange(0, i as int) =~= evs);
        lemma_blocks_emitted_concat::<S>(start, mid, sink.output(), run.1, flushed(run.0, ctx.use_color).1, *ctx, *hl);
    }
}

/// Render a Markdown source through the sink: its events, as pulldown-cmark
/// yields them, through `render_events`.
pub fn render<S: LineSink>(source: &str, ctx: &RenderCtx, hl: &Highlighting, sink: &mut S)
    ensures
        blocks_emitted::<S>(
            old(sink).output(),
            final(sink).output(),
            md_blocks(markdown_events(source@), ctx.use_color, ctx.width),
            *ctx,
            *hl,
        ),
{
    let events = md_events(source);
    render_events(events, ctx, hl, sink);
}

/// What is emitted comes after what was there.
pub proof fn lemma_blocks_emitted_grows<S: LineSink>(before: Seq<char>, after: Seq<char>, bs: Seq<MdBlock>, ctx: RenderCtx, hl: Highlighting)
    requires
        blocks_emitted::<S>(before, after, bs, ctx, hl),
    ensures
        before.len() <= after.len(),
        after.subrange(0, before.len() as int) == before,
    decreases bs.len(),
{
    if bs.len() == 0 {
        assert(after.subrange(0, before.len() as int) =~= before);
    } else {
        let mid = choose|mid: Seq<char>|
            blocks_emitted::<S>(before, mid, bs.drop_last(), ctx, hl) && #[trigger] block_emitted::<S>(
                mid,
                after,
                bs.last(),
                ctx,
                hl,
            );
        lemma_blocks_emitted_grows::<S>(before, mid, bs.drop_last(), ctx, hl);
        match bs.last() {
            MdBlock::Code(lang, src) => {
                crate::render::code::lemma_code_emitted_grows::<S>(mid, after, src, ctx);
            },
            _ => {},
        }
        assert(after.subrange(0, mid.len() as int) == mid);
        assert(after.subrange(0, before.len() as int) =~= mid.subrange(0, before.len() as int));
    }
}


/// Every character of `s` is whitespace.
pub open spec fn blank(s: Seq<char>) -> bool {
    forall|j: int| 0 <= j < s.len() ==> crate::strs::is_ws(#[trigger] s[j])
}

/// Whether every prose line among `bs` holds a non-whitespace character.
pub open spec fn prose_nonblank(bs: Seq<MdBlock>) -> bool {
    forall|i: int| 0 <= i < bs.len() ==> (#[trigger] bs[i] matches MdBlock::Text(l) ==> !blank(l))
}

proof fn lemma_blank_skips(s: Seq<char>, i: int)
    requires
        0 <= i <= s.len(),
        blank(s),
    ensures
        crate::strs::skip_ws(s, i) == s.len(),
    decreases s.len() - i,
{
    if i < s.len() {
        lemma_blank_skips(s, i + 1);
    }
}

/// A blank line trims to nothing.
proof fn lemma_blank_trims_empty(s: Seq<char>)
    requires
        blank(s),
    ensures
        trim(s).len() == 0,
{
    lemma_blank_skips(s, 0);
}

proof fn lemma_flushed_prose(st: MdView, color: bool)
    ensures
        prose_nonblank(flushed(st, color).1),
{
    if trim(st.acc).len() != 0 {
        if blank(st.acc) {
            lemma_blank_trims_empty(st.acc);
        }
        let j = choose|j: int| 0 <= j < st.acc.len() && !crate::strs::is_ws(#[trigger] st.acc[j]);
        if st.quote > 0 {
            let p = dimmed(repeat_seq("> "@, st.quote as nat), color);
            let l = p + st.acc;
            assert(l[p.len() + j] == st.acc[j]);
        }
    }
}

proof fn lemma_step_prose(st: MdView, ev: MdEvent, color: bool, width: usize)
    ensures
        prose_nonblank(md_step(st, ev, color, width).1),
{
    lemma_flushed_prose(st, color);
    lemma_flushed_prose(with_acc(st, RESET@), color);
    let b = flushed(st, color).1;
    match ev {
        MdEvent::Rule => {
            let r = MdBlock::Raw(repeat('─', sat_sub(width as nat, 4)));
            assert forall|i: int| 0 <= i < b.push(r).len() implies (#[trigger] b.push(r)[i] matches MdBlock::Text(l)
                ==> !blank(l)) by {
                if i < b.len() {
                    assert(b.push(r)[i] == b[i]);
                }
            }
        },
        _ => {},
    }
}

proof fn lemma_prose_concat(a: Seq<MdBlock>, b: Seq<MdBlock>)
    requires
        prose_nonblank(a),
        prose_nonblank(b),
    ensures
        prose_nonblank(a + b),
{
    assert forall|i: int| 0 <= i < (a + b).len() implies (#[trigger] (a + b)[i] matches MdBlock::Text(l) ==> !blank(l)) by {
        if i < a.len() {
            assert((a + b)[i] == a[i]);
        } else {
            assert((a + b)[i] == b[i - a.len()]);
        }
    }
}

proof fn lemma_run_prose(st: MdView, evs: Seq<MdEvent>, color: bool, width: usize)
    ensures
        prose_nonblank(md_run(st, evs, color, width).1),
    decreases evs.len(),
{
    if evs.len() > 0 {
        lemma_run_prose(st, evs.drop_last(), color, width);
        let (s1, b1) = md_run(st, evs.drop_last(), color, width);
        lemma_step_prose(s1, evs.last(), color, width);
        lemma_prose_concat(b1, md_step(s1, evs.last(), color, width).1);
    }
}

/// Blank lines never come out as prose: every prose line the Markdown
/// renderer emits holds a non-whitespace character.
pub proof fn lemma_no_blank_prose(evs: Seq<MdEvent>, color: bool, width: usize)
    ensures
        prose_nonblank(md_blocks(evs, color, width)),
{
    lemma_run_prose(md_start(), evs, color, width);
    let (s, b) = md_run(md_start(), evs, color, width);
    lemma_flushed_prose(s, color);
    lemma_prose_concat(b, flushed(s, color).1);
}


/// Lines that a framed sink emits, one after another: `│ … │` each.
pub open spec fn framed_lines(ls: Seq<Seq<char>>, ctx: RenderCtx) -> Seq<char> {
    crate::render::code::sink_lines::<BoxedSink>(ls, ctx, true)
}

proof fn lemma_framed_concat(a: Seq<Seq<char>>, b: Seq<Seq<char>>, ctx: RenderCtx)
    ensures
        framed_lines(a + b, ctx) == framed_lines(a, ctx) + framed_lines(b, ctx),
    decreases b.len(),
{
    if b.len() == 0 {
        assert(a + b =~= a);
    } else {
        lemma_framed_concat(a, b.drop_last(), ctx);
        assert((a + b).drop_last() =~= a + b.drop_last());
    }
}

proof fn lemma_framed_one(l: Seq<char>, ctx: RenderCtx)
    ensures
        framed_lines(seq![l], ctx) == BoxedSink::line_text(l, ctx, true),
{
    let one = seq![l];
    assert(one.drop_last() =~= Seq::<Seq<char>>::empty());
    assert(one.last() == l);
    assert(crate::render::code::sink_lines::<BoxedSink>(Seq::<Seq<char>>::empty(), ctx, true) == Seq::<char>::empty());
    assert(crate::render::code::sink_lines::<BoxedSink>(one, ctx, true) == crate::render::code::sink_lines::<BoxedSink>(
        one.drop_last(),
        ctx,
        true,
    ) + BoxedSink::line_text(one.last(), ctx, true));
    assert(Seq::<char>::empty() + BoxedSink::line_text(l, ctx, true) =~= BoxedSink::line_text(l, ctx, true));
}

proof fn lemma_body_framed(
    rows: Seq<Seq<Seq<char>>>,
    ws: Seq<usize>,
    aligns: Seq<Align>,
    kept: nat,
    dropped: nat,
    ctx: RenderCtx,
) -> (ls: Seq<Seq<char>>)
    ensures
        crate::render::table::body_text::<BoxedSink>(rows, ws, aligns, kept, dropped, ctx) == framed_lines(ls, ctx),
    decreases rows.len(),
{
    if rows.len() == 0 {
        Seq::empty()
    } else {
        let init = lemma_body_framed(rows.drop_last(), ws, aligns, kept, dropped, ctx);
        let l = crate::render::table::data_content(
            crate::render::table::body_cells(rows.last(), ws, aligns, kept, dropped),
            false,
            ctx.use_color,
        );
        lemma_framed_concat(init, seq![l], ctx);
        lemma_framed_one(l, ctx);
        init + seq![l]
    }
}

proof fn lemma_table_framed(h: Seq<Seq<char>>, rows: Seq<Seq<Seq<char>>>, a: Seq<Align>, ctx: RenderCtx) -> (ls: Seq<Seq<char>>)
    ensures
        table_text::<BoxedSink>(h, rows, a, ctx) == framed_lines(ls, ctx),
{
    let budget = sat_sub(ctx.width as nat, 4);
    let fit = crate::render::table::fit_spec(h, rows, budget);
    let kept = fit.0.len();
    if kept == 0 {
        Seq::empty()
    } else {
        let (ws, hs, al) = if fit.1 > 0 {
            (
                fit.0.push(crate::render::table::indicator_col(fit.1)),
                h.subrange(0, kept as int).push(crate::render::table::indicator_label(fit.1)),
                a.subrange(0, kept as int).push(Align::Left),
            )
        } else {
            (fit.0, h.subrange(0, kept as int), a.subrange(0, kept as int))
        };
        let top = crate::render::table::border_content(ws, '┌', '┬', '┐', ctx.use_color);
        let head = crate::render::table::data_content(
            crate::render::table::drawn_cells(hs, ws, al, hs.len()),
            ctx.use_color,
            ctx.use_color,
        );
        let sep = crate::render::table::border_content(ws, '├', '┼', '┤', ctx.use_color);
        let bot = crate::render::table::border_content(ws, '└', '┴', '┘', ctx.use_color);
        let body = lemma_body_framed(rows, ws, al, kept, fit.1, ctx);
        let first = seq![top, head, sep];
        assert(framed_lines(first, ctx) == BoxedSink::line_text(top, ctx, true) + BoxedSink::line_text(head, ctx, true)
            + BoxedSink::line_text(sep, ctx, true)) by {
            assert(first =~= seq![top] + seq![head] + seq![sep]);
            lemma_framed_one(top, ctx);
            lemma_framed_one(head, ctx);
            lemma_framed_one(sep, ctx);
            lemma_framed_concat(seq![top], seq![head], ctx);
            lemma_framed_concat(seq![top] + seq![head], seq![sep], ctx);
        }
        lemma_framed_concat(first, body, ctx);
        lemma_framed_concat(first + body, seq![bot], ctx);
        lemma_framed_one(bot, ctx);
        first + body + seq![bot]
    }
}

proof fn lemma_block_framed(before: Seq<char>, after: Seq<char>, b: MdBlock, ctx: RenderCtx, hl: Highlighting) -> (ls: Seq<Seq<char>>)
    requires
        block_emitted::<BoxedSink>(before, after, b, ctx, hl),
    ensures
        after == before + framed_lines(ls, ctx),
{
    match b {
        MdBlock::Text(l) => {
            lemma_framed_one(l, ctx);
            seq![l]
        },
        MdBlock::Raw(l) => {
            lemma_framed_one(l, ctx);
            seq![l]
        },
        MdBlock::Code(lang, src) => crate::render::code::code_lines(
            hl.syntax_value(),
            hl.theme_value(),
            lang,
            ctx.code_theme@,
            crate::render::text::lwe_from(src, 0),
            ctx.use_color,
        ),
        MdBlock::Table(h, rows, a) => lemma_table_framed(
            h,
            rows.map_values(|r: Seq<Seq<char>>| normalized_row(r, h.len())),
            normalized_align(a, h.len()),
            ctx,
        ),
    }
}

proof fn lemma_blocks_framed(before: Seq<char>, after: Seq<char>, bs: Seq<MdBlock>, ctx: RenderCtx, hl: Highlighting) -> (ls: Seq<Seq<char>>)
    requires
        blocks_emitted::<BoxedSink>(before, after, bs, ctx, hl),
    ensures
        after == before + framed_lines(ls, ctx),
    decreases bs.len(),
{
    if bs.len() == 0 {
        assert(before + framed_lines(Seq::empty(), ctx) =~= before);
        Seq::empty()
    } else {
        let mid = choose|mid: Seq<char>|
            blocks_emitted::<BoxedSink>(before, mid, bs.drop_last(), ctx, hl) && #[trigger] block_emitted::<BoxedSink>(
                mid,
                after,
                bs.last(),
                ctx,
                hl,
            );
        let a = lemma_blocks_framed(before, mid, bs.drop_last(), ctx, hl);
        let b = lemma_block_framed(mid, after, bs.last(), ctx, hl);
        lemma_framed_concat(a, b, ctx);
        a + b
    }
}

/// Everything the Markdown renderer writes through a framed sink is framed
/// lines, `│ … │` each: prose, headings, lists, quotes, rules, code and
/// tables alike. (Each such line is one line and as wide as the frame by
/// `lemma_wrap_line_one_newline` and `lemma_wrap_line_width`.)
pub proof fn lemma_markdown_lines_framed(source: Seq<char>, before: Seq<char>, after: Seq<char>, ctx: RenderCtx, hl: Highlighting)
    requires
        blocks_emitted::<BoxedSink>(
            before,
            after,
            md_blocks(markdown_events(source), ctx.use_color, ctx.width),
            ctx,
            hl,
        ),
    ensures
        exists|ls: Seq<Seq<char>>| after == before + #[trigger] framed_lines(ls, ctx),
{
    let ls = lemma_blocks_framed(before, after, md_blocks(markdown_events(source), ctx.use_color, ctx.width), ctx, hl);
    assert(after == before + framed_lines(ls, ctx));
}


/// A heading of level `n` starts a fresh line with `n` `#` signs and a
/// space (without color); what was under way is emitted first.
pub proof fn lemma_heading_prefix(st: MdView, n: usize, width: usize)
    ensures
        ({
            let a = md_step(st, MdEvent::StartHeading(n), false, width).0.acc;
            &&& a.len() == n + 1
            &&& forall|j: int| 0 <= j < n ==> #[trigger] a[j] == '#'
            &&& a[n as int] == ' '
        }),
        md_step(st, MdEvent::StartHeading(n), false, width).1 == flushed(st, false).1,
{
    reveal_strlit(" ");
    let a = md_step(st, MdEvent::StartHeading(n), false, width).0.acc;
    assert(a =~= repeat('#', n as nat) + seq![' ']);
}

/// Ordered lists count up: an item of an ordered list at number `k` shows
/// `k` and leaves the list at `k + 1`; a bullet list stays a bullet list.
/// The item's marker is appended to the line under way.
pub proof fn lemma_item_numbering(st: MdView, color: bool, width: usize)
    requires
        st.lists.len() >= 1,
    ensures
        ({
            let r = md_step(st, MdEvent::StartItem, color, width).0;
            &&& r.lists.len() == st.lists.len()
            &&& r.lists.drop_last() == st.lists.drop_last()
            &&& (st.lists.last() matches Some(k) ==> (k < u64::MAX ==> r.lists.last() == Some((k + 1) as u64)))
            &&& (st.lists.last() is None ==> r.lists.last() is None)
            &&& r.acc.subrange(0, st.acc.len() as int) == st.acc
            &&& r.acc.subrange(st.acc.len() as int, r.acc.len() as int) == item_marker(st.lists)
        }),
{
    let r = md_step(st, MdEvent::StartItem, color, width).0;
    assert(r.acc =~= st.acc + item_marker(st.lists));
    assert(r.acc.subrange(0, st.acc.len() as int) =~= st.acc);
    assert(r.acc.subrange(st.acc.len() as int, r.acc.len() as int) =~= item_marker(st.lists));
    assert(r.lists.drop_last() =~= st.lists.drop_last());
}

/// A quote opened and closed again leaves the depth as it was (below the
/// saturation point), and nothing is emitted by either.
pub proof fn lemma_quote_nesting(st: MdView, color: bool, width: usize)
    requires
        st.quote < u32::MAX,
    ensures
        ({
            let (s1, b1) = md_step(st, MdEvent::StartQuote, color, width);
            let (s2, b2) = md_step(s1, MdEvent::EndQuote, color, width);
            &&& s1.quote == st.quote + 1
            &&& s2.quote == st.quote
            &&& b1.len() == 0 && b2.len() == 0
        }),
{
}

/// A horizontal rule is a pre-formatted line of `─` as wide as the frame's
/// inside (the width less four), after whatever was under way.
pub proof fn lemma_rule_line(st: MdView, color: bool, width: usize)
    requires
        width >= 4,
    ensures
        ({
            let b = md_step(st, MdEvent::Rule, color, width).1;
            &&& b.len() >= 1
            &&& b.drop_last() == flushed(st, color).1
            &&& b.last() matches MdBlock::Raw(l) && l.len() == width - 4 && forall|j: int|
                0 <= j < l.len() ==> #[trigger] l[j] == '─'
        }),
{
    let b = md_step(st, MdEvent::Rule, color, width).1;
    assert(b.drop_last() =~= flushed(st, color).1);
}

} // verus!

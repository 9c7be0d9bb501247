//! The `<table>` inside a pandas DataFrame's `text/html` output, turned
//! into a `Table`.

use vstd::prelude::*;

use crate::numeric::{parse_unsigned, parse_unsigned_exec, parses_as_float, parses_as_float_exec};
use crate::render::table::{
    lemma_texts_push, normalize_row, normalized_row, row_texts, texts, Align, Table,
};
use crate::strs::trim_bounds;
use crate::strs::{
    char_from_u32, chars_of, find_char, find_from, find_sub, find_sub_from, find_ws, is_scalar,
    is_ws_exec, lemma_find_from, lemma_find_ws, lemma_skip_char, lower, lower_vec, push_char,
    push_range, skip_char, str_is, string_of, sub_string, sub_vec, trim, trim_string,
};

verus! {

/// The named entities pandas `.to_html()` emits.
pub open spec fn named_entity(e: Seq<char>) -> Option<char> {
    if e == "lt"@ {
        Some('<')
    } else if e == "gt"@ {
        Some('>')
    } else if e == "amp"@ {
        Some('&')
    } else if e == "quot"@ {
        Some('"')
    } else if e == "#39"@ || e == "apos"@ {
        Some('\'')
    } else if e == "nbsp"@ {
        Some(' ')
    } else {
        None
    }
}

/// The character an entity body (between `&` and `;`) stands for: a named
/// entity, or `#` and a decimal Unicode scalar value.
pub open spec fn entity_char(e: Seq<char>) -> Option<char> {
    match named_entity(e) {
        Some(c) => Some(c),
        None => if e.len() > 0 && e[0] == '#' {
            match parse_unsigned(e.subrange(1, e.len() as int), u32::MAX as nat) {
                Some(n) => if is_scalar(n as u32) {
                    Some((n as u32) as char)
                } else {
                    None
                },
                None => None,
            }
        } else {
            None
        },
    }
}

/// `s[i..]` with its entities decoded: each `&…;` whose body is known
/// becomes its character; a `&` that starts no known entity stays, and a
/// `&` with no `;` after it ends decoding.
pub open spec fn decode_from(s: Seq<char>, i: int) -> Seq<char>
    decreases s.len() - i,
{
    if i < 0 || i >= s.len() {
        Seq::empty()
    } else {
        let amp = find_from(s, i, '&');
        if amp < i || amp >= s.len() {
            s.subrange(i, s.len() as int)
        } else {
            let semi = find_from(s, amp, ';');
            if semi <= amp || semi >= s.len() {
                s.subrange(i, s.len() as int)
            } else {
                match entity_char(s.subrange(amp + 1, semi)) {
                    Some(c) => s.subrange(i, amp) + seq![c] + decode_from(s, semi + 1),
                    None => s.subrange(i, amp) + seq!['&'] + decode_from(s, amp + 1),
                }
            }
        }
    }
}

/// `s` with its HTML entities decoded.
pub open spec fn decoded(s: Seq<char>) -> Seq<char> {
    decode_from(s, 0)
}

fn is_lit(e: &Vec<char>, lit: &str) -> (r: bool)
    ensures
        r == (e@ == lit@),
{
    let l = chars_of(lit);
    crate::numeric::chars_eq(e, &l)
}

fn entity_char_exec(e: &Vec<char>) -> (r: Option<char>)
    ensures
        r == entity_char(e@),
{
    if is_lit(e, "lt") {
        Some('<')
    } else if is_lit(e, "gt") {
        Some('>')
    } else if is_lit(e, "amp") {
        Some('&')
    } else if is_lit(e, "quot") {
        Some('"')
    } else if is_lit(e, "#39") || is_lit(e, "apos") {
        Some('\'')
    } else if is_lit(e, "nbsp") {
        Some(' ')
    } else if e.len() > 0 && e[0] == '#' {
        let digits = sub_vec(e, 1, e.len());
        match parse_unsigned_exec(&digits, 0xffff_ffff) {
            Some(n) => char_from_u32(n as u32),
            None => None,
        }
    } else {
        None
    }
}

/// Decode the small set of HTML entities pandas `.to_html()` emits, plus
/// numeric character references (`&#NN;`). Unknown entities and stray `&`
/// without a closing `;` are left untouched.
pub fn decode_entities(s: &str) -> (r: String)
    ensures
        r@ == decoded(s@),
{
    let v = chars_of(s);
    let mut out = String::new();
    let mut i: usize = 0;
    while i < v.len()
        invariant
            i <= v@.len(),
            v@ == s@,
            out@ + decode_from(v@, i as int) == decoded(v@),
        decreases v@.len() - i,
    {
        proof {
            lemma_find_from(v@, i as int, '&');
        }
        let amp = find_char(&v, i, '&');
        if amp >= v.len() {
            push_range(&mut out, &v, i, v.len());
            assert(out@ =~= decoded(v@));
            return out;
        }
        proof {
            lemma_find_from(v@, amp as int, ';');
        }
        let semi = find_char(&v, amp, ';');
        if semi >= v.len() {
            push_range(&mut out, &v, i, v.len());
            assert(out@ =~= decoded(v@));
            return out;
        }
        let entity = sub_vec(&v, amp + 1, semi);
        let ghost before = out@;
        match entity_char_exec(&entity) {
            Some(c) => {
                push_range(&mut out, &v, i, amp);
                push_char(&mut out, c);
                assert(out@ + decode_from(v@, semi + 1) =~= before + decode_from(v@, i as int));
                i = semi + 1;
            },
            None => {
                push_range(&mut out, &v, i, amp);
                push_char(&mut out, '&');
                assert(out@ + decode_from(v@, amp + 1) =~= before + decode_from(v@, i as int));
                i = amp + 1;
            },
        }
    }
    assert(decode_from(v@, i as int) =~= Seq::<char>::empty());
    out
}

/// A token of a raw HTML fragment: a tag (lowercased name, whether it
/// closes) or a run of text.
pub enum Token {
    Tag { name: String, closing: bool },
    Text(String),
}

/// What a token holds, as plain values.
pub enum TokenView {
    Tag(Seq<char>, bool),
    Text(Seq<char>),
}

impl View for Token {
    type V = TokenView;

    open spec fn view(&self) -> TokenView {
        match self {
            Token::Tag { name, closing } => TokenView::Tag(name@, *closing),
            Token::Text(t) => TokenView::Text(t@),
        }
    }
}

/// A tag's name from the text between `<` and `>`: leading `/` dropped,
/// trimmed, cut at the first whitespace, ASCII-lowercased; attributes are
/// discarded.
pub open spec fn tag_name(raw: Seq<char>) -> Seq<char> {
    let a = skip_char(raw, 0, '/');
    let t = trim(raw.subrange(a, raw.len() as int));
    lower(t.subrange(0, find_ws(t, 0)))
}

/// The tokens of `s[i..]`: text runs between tags, and tags; an unclosed `<`
/// starts a final text run.
pub open spec fn tokens_from(s: Seq<char>, i: int) -> Seq<TokenView>
    decreases s.len() - i,
{
    if i < 0 || i >= s.len() {
        Seq::empty()
    } else {
        let lt = find_from(s, i, '<');
        if lt < i || lt >= s.len() {
            seq![TokenView::Text(s.subrange(i, s.len() as int))]
        } else {
            let pre = if lt > i {
                seq![TokenView::Text(s.subrange(i, lt))]
            } else {
                Seq::empty()
            };
            let gt = find_from(s, lt, '>');
            if gt <= lt || gt >= s.len() {
                pre + seq![TokenView::Text(s.subrange(lt, s.len() as int))]
            } else {
                let raw = s.subrange(lt + 1, gt);
                pre + seq![TokenView::Tag(tag_name(raw), raw.len() > 0 && raw[0] == '/')]
                    + tokens_from(s, gt + 1)
            }
        }
    }
}

/// The tokens of an HTML fragment.
pub open spec fn tokens(s: Seq<char>) -> Seq<TokenView> {
    tokens_from(s, 0)
}

fn tag_name_exec(raw: &Vec<char>) -> (r: String)
    ensures
        r@ == tag_name(raw@),
{
    proof {
        lemma_skip_char(raw@, 0, '/');
    }
    let mut a: usize = 0;
    while a < raw.len() && raw[a] == '/'
        invariant
            a <= raw@.len(),
            skip_char(raw@, 0, '/') == skip_char(raw@, a as int, '/'),
        decreases raw@.len() - a,
    {
        a += 1;
    }
    let rest = sub_vec(raw, a, raw.len());
    let t = chars_of(trim_string(&rest).as_str());
    proof {
        lemma_find_ws(t@, 0);
    }
    let mut w: usize = 0;
    while w < t.len() && !is_ws_exec(t[w])
        invariant
            w <= t@.len(),
            find_ws(t@, 0) == find_ws(t@, w as int),
        decreases t@.len() - w,
    {
        w += 1;
    }
    let word = sub_vec(&t, 0, w);
    let low = lower_vec(&word);
    string_of(low.as_slice())
}

/// Split an HTML fragment into tags and text runs. Tag names are lowercased;
/// attributes are discarded. Unterminated `<` is treated as text.
fn tokenize(s: &str) -> (r: Vec<Token>)
    ensures
        r@.map_values(|t: Token| t@) == tokens(s@),
{
    let v = chars_of(s);
    let mut toks: Vec<Token> = Vec::new();
    let mut i: usize = 0;
    while i < v.len()
        invariant
            i <= v@.len(),
            v@ == s@,
            toks@.map_values(|t: Token| t@) + tokens_from(v@, i as int) == tokens(v@),
        decreases v@.len() - i,
    {
        let ghost before = toks@.map_values(|t: Token| t@);
        let ghost i0 = i;
        proof {
            lemma_find_from(v@, i as int, '<');
        }
        let lt = find_char(&v, i, '<');
        if lt >= v.len() {
            toks.push(Token::Text(sub_string(&v, i, v.len())));
            assert(toks@.map_values(|t: Token| t@) =~= tokens(v@));
            return toks;
        }
        if lt > i {
            toks.push(Token::Text(sub_string(&v, i, lt)));
        }
        proof {
            lemma_find_from(v@, lt as int, '>');
        }
        let gt = find_char(&v, lt, '>');
        if gt >= v.len() {
            toks.push(Token::Text(sub_string(&v, lt, v.len())));
            assert(toks@.map_values(|t: Token| t@) =~= tokens(v@));
            return toks;
        }
        let raw = sub_vec(&v, lt + 1, gt);
        let closing = raw.len() > 0 && raw[0] == '/';
        let name = tag_name_exec(&raw);
        toks.push(Token::Tag { name, closing });
        i = gt + 1;
        assert(toks@.map_values(|t: Token| t@) + tokens_from(v@, i as int) =~= before + tokens_from(
            v@,
            i0 as int,
        ));
    }
    assert(toks@.map_values(|t: Token| t@) =~= tokens(v@));
    toks
}

/// Where the table scan stands: rows collected under `<thead>` and outside
/// it, whether we are inside `<thead>`, the row being built and whether a
/// `<tr>` is open, and the text of the cell being built.
pub struct ScanState {
    pub thead_rows: Seq<Seq<Seq<char>>>,
    pub body_rows: Seq<Seq<Seq<char>>>,
    pub in_thead: bool,
    pub row: Seq<Seq<char>>,
    pub cell: Option<Seq<char>>,
    pub row_open: bool,
}

pub open spec fn scan_start() -> ScanState {
    ScanState {
        thead_rows: Seq::empty(),
        body_rows: Seq::empty(),
        in_thead: false,
        row: Seq::empty(),
        cell: None,
        row_open: false,
    }
}

/// One token's effect on the scan.
pub open spec fn scan_step(st: ScanState, tok: TokenView) -> ScanState {
    match tok {
        TokenView::Tag(name, closing) => {
            if name == "thead"@ && !closing {
                ScanState { in_thead: true, ..st }
            } else if name == "thead"@ && closing {
                ScanState { in_thead: false, ..st }
            } else if name == "tr"@ && !closing {
                ScanState { row: Seq::empty(), row_open: true, ..st }
            } else if name == "tr"@ && closing && st.row_open {
                if st.in_thead {
                    ScanState {
                        thead_rows: st.thead_rows.push(st.row),
                        row: Seq::empty(),
                        row_open: false,
                        ..st
                    }
                } else {
                    ScanState {
                        body_rows: st.body_rows.push(st.row),
                        row: Seq::empty(),
                        row_open: false,
                        ..st
                    }
                }
            } else if (name == "th"@ || name == "td"@) && !closing {
                ScanState { cell: Some(Seq::empty()), ..st }
            } else if (name == "th"@ || name == "td"@) && closing {
                match st.cell {
                    Some(c) => ScanState { row: st.row.push(trim(decoded(c))), cell: None, ..st },
                    None => st,
                }
            } else {
                st
            }
        },
        TokenView::Text(t) => match st.cell {
            Some(c) => ScanState { cell: Some(c + t), ..st },
            None => st,
        },
    }
}

/// The scan after every token.
pub open spec fn scan(toks: Seq<TokenView>) -> ScanState
    decreases toks.len(),
{
    if toks.len() == 0 {
        scan_start()
    } else {
        scan_step(scan(toks.drop_last()), toks.last())
    }
}

/// The longest body row.
pub open spec fn max_row_len(rows: Seq<Seq<Seq<char>>>) -> nat
    decreases rows.len(),
{
    if rows.len() == 0 {
        0
    } else {
        let m = max_row_len(rows.drop_last());
        if rows.last().len() > m {
            rows.last().len()
        } else {
            m
        }
    }
}

/// Row `r` has a non-blank cell in column `c`.
pub open spec fn cell_nonblank(rows: Seq<Seq<Seq<char>>>, r: int, c: int) -> bool {
    c < rows[r].len() && trim(rows[r][c]).len() > 0
}

/// A column whose every non-empty body cell is numeric (and which has one).
pub open spec fn column_numeric(rows: Seq<Seq<Seq<char>>>, c: int) -> bool {
    &&& exists|r: int| 0 <= r < rows.len() && #[trigger] cell_nonblank(rows, r, c)
    &&& forall|r: int|
        0 <= r < rows.len() && #[trigger] cell_nonblank(rows, r, c) ==> parses_as_float(trim(rows[r][c]))
}

/// What is left to decide once the scan is done: headers padded to the
/// column count, the body rows, and each column's alignment; `None` when
/// `<thead>` held more than one row (a pandas MultiIndex), when there are no
/// body rows, or when no row has a cell.
pub open spec fn finish_spec(st: ScanState) -> Option<(Seq<Seq<char>>, Seq<Seq<Seq<char>>>, Seq<Align>)> {
    if st.thead_rows.len() > 1 {
        None
    } else if st.thead_rows.len() == 0 && st.body_rows.len() == 0 {
        None
    } else {
        let head = if st.thead_rows.len() == 1 {
            st.thead_rows[0]
        } else {
            st.body_rows[0]
        };
        let rows = if st.thead_rows.len() == 1 {
            st.body_rows
        } else {
            st.body_rows.subrange(1, st.body_rows.len() as int)
        };
        let ncols = if head.len() > max_row_len(rows) {
            head.len()
        } else {
            max_row_len(rows)
        };
        if rows.len() == 0 || ncols == 0 {
            None
        } else {
            Some(
                (
                    normalized_row(head, ncols),
                    rows,
                    Seq::new(
                        ncols,
                        |c: int|
                            if column_numeric(rows, c) {
                                Align::Right
                            } else {
                                Align::Left
                            },
                    ),
                ),
            )
        }
    }
}

/// The parsed table of the first `<table>…</table>` (tags matched without
/// regard to ASCII case), or `None` when there is none or `finish_spec` gives up.
pub open spec fn parse_spec(html: Seq<char>) -> Option<(Seq<Seq<char>>, Seq<Seq<Seq<char>>>, Seq<Align>)> {
    let l = lower(html);
    match find_sub_from(l, 0, "<table"@) {
        None => None,
        Some(ts) => match find_sub_from(l, ts, "</table>"@) {
            None => None,
            Some(te) => finish_spec(scan(tokens(html.subrange(ts, te)))),
        },
    }
}

/// The scan's state, as owned values.
struct Scan {
    thead_rows: Vec<Vec<String>>,
    body_rows: Vec<Vec<String>>,
    in_thead: bool,
    row: Vec<String>,
    cell: Option<String>,
    row_open: bool,
}

impl Scan {
    spec fn view(&self) -> ScanState {
        ScanState {
            thead_rows: row_texts(self.thead_rows@),
            body_rows: row_texts(self.body_rows@),
            in_thead: self.in_thead,
            row: texts(self.row@),
            cell: match self.cell {
                Some(c) => Some(c@),
                None => None,
            },
            row_open: self.row_open,
        }
    }
}

proof fn lemma_row_texts_push(v: Seq<Vec<String>>, x: Vec<String>)
    ensures
        row_texts(v.push(x)) == row_texts(v).push(texts(x@)),
{
    assert(row_texts(v.push(x)) =~= row_texts(v).push(texts(x@)));
}

/// Apply one token to the scan.
fn scan_token(st: Scan, tok: &Token) -> (r: Scan)
    ensures
        r.view() == scan_step(st.view(), tok@),
{
    let mut st = st;
    match tok {
        Token::Tag { name, closing } => {
            let closing = *closing;
            let is_thead = str_is(name.as_str(), "thead");
            let is_tr = str_is(name.as_str(), "tr");
            let is_cell = str_is(name.as_str(), "th") || str_is(name.as_str(), "td");
            if is_thead && !closing {
                st.in_thead = true;
            } else if is_thead && closing {
                st.in_thead = false;
            } else if is_tr && !closing {
                st.row = Vec::new();
                st.row_open = true;
                assert(texts(st.row@) =~= Seq::<Seq<char>>::empty());
            } else if is_tr && closing && st.row_open {
                let done = st.row;
                st.row = Vec::new();
                assert(texts(st.row@) =~= Seq::<Seq<char>>::empty());
                if st.in_thead {
                    proof {
                        lemma_row_texts_push(st.thead_rows@, done);
                    }
                    st.thead_rows.push(done);
                } else {
                    proof {
                        lemma_row_texts_push(st.body_rows@, done);
                    }
                    st.body_rows.push(done);
                }
                st.row_open = false;
            } else if is_cell && !closing {
                st.cell = Some(String::new());
            } else if is_cell && closing {
                let taken = st.cell;
                st.cell = None;
                match taken {
                    Some(c) => {
                        let d = chars_of(decode_entities(c.as_str()).as_str());
                        let t = trim_string(&d);
                        proof {
                            lemma_texts_push(st.row@, t);
                        }
                        st.row.push(t);
                    },
                    None => {},
                }
            }
        },
        Token::Text(t) => {
            let taken = st.cell;
            st.cell = None;
            match taken {
                Some(c) => {
                    let mut c2 = c;
                    c2.append(t.as_str());
                    st.cell = Some(c2);
                },
                None => {},
            }
        },
    }
    st
}

/// Parse the first `<table>` element in `html` into a `Table`.
///
/// Returns `None` (the caller falls back to `text/plain`) when there is no
/// `<table>`, when `<thead>` holds more than one `<tr>` (a pandas MultiIndex),
/// or when there are no body rows.
pub fn parse(html: &str) -> (r: Option<Table>)
    ensures
        r is Some <==> parse_spec(html@) is Some,
        r matches Some(t) ==> {
            let p = parse_spec(html@)->0;
            &&& t.wf()
            &&& texts(t.headers@) == p.0
            &&& t.rows@.len() == p.1.len()
            &&& forall|k: int|
                0 <= k < p.1.len() ==> #[trigger] texts(t.rows@[k]@) == normalized_row(
                    p.1[k],
                    p.0.len(),
                )
            &&& t.align@ == p.2
        },
{
    let h = chars_of(html);
    let lower_h = lower_vec(&h);
    let open_tag = chars_of("<table");
    let close_tag = chars_of("</table>");
    let table_start = match find_sub(&lower_h, 0, &open_tag) {
        Some(k) => k,
        None => return None,
    };
    proof {
        crate::strs::lemma_find_sub_from(lower_h@, 0, open_tag@);
    }
    assert(lower_h@ == lower(html@));
    assert(close_tag@ == "</table>"@);
    assert(open_tag@ == "<table"@);
    let table_end = match find_sub(&lower_h, table_start, &close_tag) {
        Some(k) => k,
        None => {
            assert(parse_spec(html@) is None);
            return None;
        },
    };
    proof {
        crate::strs::lemma_find_sub_from(lower_h@, table_start as int, close_tag@);
    }
    let body = sub_string(&h, table_start, table_end);
    let toks = tokenize(body.as_str());
    let ghost tv = toks@.map_values(|t: Token| t@);
    let mut st = Scan {
        thead_rows: Vec::new(),
        body_rows: Vec::new(),
        in_thead: false,
        row: Vec::new(),
        cell: None,
        row_open: false,
    };
    assert(row_texts(st.thead_rows@) =~= Seq::<Seq<Seq<char>>>::empty());
    assert(row_texts(st.body_rows@) =~= Seq::<Seq<Seq<char>>>::empty());
    assert(texts(st.row@) =~= Seq::<Seq<char>>::empty());
    assert(st.view() == scan_start());
    let mut k: usize = 0;
    while k < toks.len()
        invariant
            k <= toks@.len(),
            tv == toks@.map_values(|t: Token| t@),
            st.view() == scan(tv.subrange(0, k as int)),
        decreases toks@.len() - k,
    {
        st = scan_token(st, &toks[k]);
        assert(tv.subrange(0, k + 1).drop_last() =~= tv.subrange(0, k as int));
        k += 1;
    }
    assert(tv.subrange(0, k as int) =~= tv);
    assert(h@.subrange(table_start as int, table_end as int) == body@);
    finish_table(st)
}

/// How column `c` is aligned: right when every non-blank cell is numeric.
fn column_align(rows: &Vec<Vec<String>>, c: usize) -> (a: Align)
    ensures
        a == (if column_numeric(row_texts(rows@), c as int) {
            Align::Right
        } else {
            Align::Left
        }),
{
    let ghost rs = row_texts(rows@);
    let mut any = false;
    let mut all = true;
    let mut r: usize = 0;
    while r < rows.len()
        invariant
            r <= rows@.len(),
            rs == row_texts(rows@),
            any == exists|q: int| 0 <= q < r && #[trigger] cell_nonblank(rs, q, c as int),
            all == forall|q: int|
                0 <= q < r && #[trigger] cell_nonblank(rs, q, c as int) ==> parses_as_float(
                    trim(rs[q][c as int]),
                ),
        decreases rows@.len() - r,
    {
        let ghost any0 = any;
        let ghost all0 = all;
        assert(rs[r as int].len() == rows@[r as int]@.len());
        if c < rows[r].len() {
            let cell = chars_of(rows[r][c].as_str());
            let (a, b) = trim_bounds(&cell);
            assert(rs[r as int][c as int] == cell@);
            if a < b {
                assert(cell_nonblank(rs, r as int, c as int));
                any = true;
                let t = sub_vec(&cell, a, b);
                if !parses_as_float_exec(&t) {
                    all = false;
                }
            } else {
                assert(!cell_nonblank(rs, r as int, c as int));
            }
        } else {
            assert(!cell_nonblank(rs, r as int, c as int));
        }
        assert(any == exists|q: int| 0 <= q < r + 1 && #[trigger] cell_nonblank(rs, q, c as int)) by {
            if any && !any0 {
                assert(cell_nonblank(rs, r as int, c as int));
            }
        }
        assert(all == forall|q: int|
            0 <= q < r + 1 && #[trigger] cell_nonblank(rs, q, c as int) ==> parses_as_float(
                trim(rs[q][c as int]),
            )) by {
            if !all && all0 {
                assert(cell_nonblank(rs, r as int, c as int));
            }
        }
        r += 1;
    }
    if any && all {
        Align::Right
    } else {
        Align::Left
    }
}

/// The longest row.
fn max_len(rows: &Vec<Vec<String>>) -> (m: usize)
    ensures
        m == max_row_len(row_texts(rows@)),
{
    let ghost rs = row_texts(rows@);
    let mut m: usize = 0;
    let mut r: usize = 0;
    while r < rows.len()
        invariant
            r <= rows@.len(),
            rs == row_texts(rows@),
            m == max_row_len(rs.subrange(0, r as int)),
        decreases rows@.len() - r,
    {
        assert(rs.subrange(0, r + 1).drop_last() =~= rs.subrange(0, r as int));
        if rows[r].len() > m {
            m = rows[r].len();
        }
        r += 1;
    }
    assert(rs.subrange(0, r as int) =~= rs);
    m
}

/// Headers, rows and alignment once the scan is done; see `finish_spec`.
fn finish_table(st: Scan) -> (r: Option<Table>)
    ensures
        r is Some <==> finish_spec(st.view()) is Some,
        r matches Some(t) ==> {
            let p = finish_spec(st.view())->0;
            &&& t.wf()
            &&& texts(t.headers@) == p.0
            &&& t.rows@.len() == p.1.len()
            &&& forall|k: int|
                0 <= k < p.1.len() ==> #[trigger] texts(t.rows@[k]@) == normalized_row(
                    p.1[k],
                    p.0.len(),
                )
            &&& t.align@ == p.2
        },
{
    let ghost v = st.view();
    let mut thead = st.thead_rows;
    let mut body = st.body_rows;
    if thead.len() > 1 {
        return None;
    }
    let mut headers = if thead.len() == 1 {
        thead.pop().unwrap()
    } else if body.len() > 0 {
        let first = body.remove(0);
        assert(row_texts(body@) =~= v.body_rows.subrange(1, v.body_rows.len() as int));
        first
    } else {
        return None;
    };
    let rows = body;
    let ghost rs = row_texts(rows@);
    let ghost head = texts(headers@);
    if rows.len() == 0 {
        return None;
    }
    let m = max_len(&rows);
    let ncols = if headers.len() > m {
        headers.len()
    } else {
        m
    };
    if ncols == 0 {
        return None;
    }
    normalize_row(&mut headers, ncols);
    let mut align: Vec<Align> = Vec::new();
    let mut c: usize = 0;
    while c < ncols
        invariant
            c <= ncols,
            rs == row_texts(rows@),
            align@ == Seq::new(
                c as nat,
                |k: int|
                    if column_numeric(rs, k) {
                        Align::Right
                    } else {
                        Align::Left
                    },
            ),
        decreases ncols - c,
    {
        align.push(column_align(&rows, c));
        c += 1;
        assert(align@ =~= Seq::new(
            c as nat,
            |k: int|
                if column_numeric(rs, k) {
                    Align::Right
                } else {
                    Align::Left
                },
        ));
    }
    let t = Table::new(headers, rows, align);
    assert(t.align@ =~= (finish_spec(v)->0).2);
    Some(t)
}


/// Text without an `&` has nothing to decode.
pub proof fn lemma_decode_without_ampersand(s: Seq<char>)
    requires
        !s.contains('&'),
    ensures
        decoded(s) == s,
{
    if s.len() > 0 {
        lemma_find_from(s, 0, '&');
        if find_from(s, 0, '&') < s.len() {
            assert(s[find_from(s, 0, '&')] == '&');
        }
        assert(s.subrange(0, s.len() as int) =~= s);
    }
}


proof fn lemma_max_row_len(rows: Seq<Seq<Seq<char>>>)
    ensures
        forall|r: int| 0 <= r < rows.len() ==> #[trigger] rows[r].len() <= max_row_len(rows),
        rows.len() > 0 ==> exists|r: int| 0 <= r < rows.len() && #[trigger] rows[r].len() == max_row_len(rows),
    decreases rows.len(),
{
    if rows.len() > 0 {
        lemma_max_row_len(rows.drop_last());
        assert forall|r: int| 0 <= r < rows.len() implies #[trigger] rows[r].len() <= max_row_len(rows) by {
            if r < rows.len() - 1 {
                assert(rows[r] == rows.drop_last()[r]);
            }
        }
        if rows.last().len() > max_row_len(rows.drop_last()) {
            assert(rows[rows.len() - 1].len() == max_row_len(rows));
        } else if rows.len() > 1 {
            let r = choose|r: int| 0 <= r < rows.len() - 1 && #[trigger] rows.drop_last()[r].len() == max_row_len(rows.drop_last());
            assert(rows[r] == rows.drop_last()[r]);
        } else {
            assert(rows[0].len() == max_row_len(rows));
        }
    }
}

/// The shape of a parsed HTML table: at least one body row and one column;
/// as many columns as the widest of the header and the body rows, so no
/// cell is dropped; the header padded to that width; one alignment per
/// column, right exactly for the columns whose non-blank body cells all
/// read as numbers (and that have one). Nothing is parsed without a
/// `<table` (in any case) followed by `</table>`.
pub proof fn lemma_parsed_table_shape(html: Seq<char>)
    ensures
        parse_spec(html) matches Some(p) ==> {
            &&& p.1.len() >= 1
            &&& p.0.len() >= 1
            &&& p.2.len() == p.0.len()
            &&& forall|r: int| 0 <= r < p.1.len() ==> #[trigger] p.1[r].len() <= p.0.len()
            &&& p.0.len() >= max_row_len(p.1)
            &&& forall|c: int| 0 <= c < p.2.len() ==> (#[trigger] p.2[c] == Align::Right <==> column_numeric(p.1, c))
        },
        find_sub_from(lower(html), 0, "<table"@) is None ==> parse_spec(html) is None,
        (find_sub_from(lower(html), 0, "<table"@) matches Some(ts) && find_sub_from(lower(html), ts, "</table>"@) is None)
            ==> parse_spec(html) is None,
{
    if parse_spec(html) is Some {
        let l = lower(html);
        let ts = find_sub_from(l, 0, "<table"@)->0;
        let te = find_sub_from(l, ts, "</table>"@)->0;
        let st = scan(tokens(html.subrange(ts, te)));
        let rows = if st.thead_rows.len() == 1 {
            st.body_rows
        } else {
            st.body_rows.subrange(1, st.body_rows.len() as int)
        };
        lemma_max_row_len(rows);
        let p = parse_spec(html)->0;
        assert(p.1 == rows);
        assert forall|c: int| 0 <= c < p.2.len() implies (#[trigger] p.2[c] == Align::Right <==> column_numeric(p.1, c)) by {
            if !column_numeric(rows, c) {
                assert(p.2[c] == Align::Left);
            }
        }
    }
}


/// Which scanned row heads the table: the `<thead>` row when there is one,
/// the body keeping every scanned body row; otherwise the first scanned row,
/// the body keeping the rest. The header holds that row's cells first and
/// is padded only with empty cells.
pub proof fn lemma_header_row(st: ScanState)
    ensures
        finish_spec(st) matches Some(p) ==> {
            let head = if st.thead_rows.len() == 1 {
                st.thead_rows[0]
            } else {
                st.body_rows[0]
            };
            &&& st.thead_rows.len() <= 1
            &&& st.thead_rows.len() == 1 ==> p.1 == st.body_rows
            &&& st.thead_rows.len() == 0 ==> st.body_rows.len() >= 2 && p.1 == st.body_rows.drop_first()
            &&& p.0.len() >= head.len()
            &&& p.0.subrange(0, head.len() as int) == head
            &&& forall|j: int| head.len() <= j < p.0.len() ==> #[trigger] p.0[j] == Seq::<char>::empty()
        },
{
    if finish_spec(st) is Some {
        let p = finish_spec(st)->0;
        let head = if st.thead_rows.len() == 1 {
            st.thead_rows[0]
        } else {
            st.body_rows[0]
        };
        let rows = if st.thead_rows.len() == 1 {
            st.body_rows
        } else {
            st.body_rows.subrange(1, st.body_rows.len() as int)
        };
        assert(p.0.subrange(0, head.len() as int) =~= head);
        if st.thead_rows.len() == 0 {
            assert(rows =~= st.body_rows.drop_first());
        }
    }
}

} // verus!

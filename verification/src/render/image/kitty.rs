//! The kitty graphics protocol (also spoken by Ghostty): the payload's bytes
//! in APC sequences of at most `CHUNK_SIZE` bytes each.

use vstd::prelude::*;

use crate::env::RenderCtx;
use crate::render::image::ImageRenderer;
use crate::strs::push_char;
use vstd::utf8::{encode_utf8, is_ascii_chars};

verus! {

pub struct KittyRenderer;

pub const CHUNK_SIZE: usize = 4096;

/// The end of the chunk of bytes that starts at `i`.
pub open spec fn chunk_end(s: Seq<u8>, i: nat) -> nat {
    if i + CHUNK_SIZE <= s.len() {
        (i + CHUNK_SIZE) as nat
    } else {
        s.len()
    }
}

/// ASCII bytes as the characters they encode.
pub open spec fn byte_chars(b: Seq<u8>) -> Seq<char> {
    Seq::new(b.len(), |k: int| b[k] as char)
}

/// The APC sequence of the chunk `s[i..end]` of the payload's bytes: the
/// first carries the format and action keys, each says with `m` whether
/// more follow.
pub open spec fn kitty_piece(s: Seq<u8>, i: nat, end: nat) -> Seq<char> {
    let head = if i == 0 {
        "\x1b_Gf=100,a=T,m="@
    } else {
        "\x1b_Gm="@
    };
    let more = if end == s.len() {
        "0"@
    } else {
        "1"@
    };
    head + more + ";"@ + byte_chars(s.subrange(i as int, end as int)) + "\x1b\\"@
}

/// The sequences for the chunks of the bytes `s` from `i` on.
pub open spec fn kitty_chunks(s: Seq<u8>, i: nat) -> Seq<char>
    decreases s.len() - i,
{
    if i >= s.len() {
        Seq::empty()
    } else {
        kitty_piece(s, i, chunk_end(s, i)) + kitty_chunks(s, chunk_end(s, i))
    }
}

fn kitty_piece_exec(s: &[u8], i: usize, end: usize) -> (r: String)
    requires
        i <= end <= s@.len(),
    ensures
        r@ == kitty_piece(s@, i as nat, end as nat),
{
    let mut r = if i == 0 {
        String::from_str("\x1b_Gf=100,a=T,m=")
    } else {
        String::from_str("\x1b_Gm=")
    };
    if end == s.len() {
        r.append("0");
    } else {
        r.append("1");
    }
    r.append(";");
    let ghost before = r@;
    let mut k = i;
    while k < end
        invariant
            i <= k <= end <= s@.len(),
            r@ == before + byte_chars(s@.subrange(i as int, k as int)),
        decreases end - k,
    {
        push_char(&mut r, s[k] as char);
        proof {
            assert(byte_chars(s@.subrange(i as int, k + 1)) =~= byte_chars(s@.subrange(i as int, k as int)).push(
                s@[k as int] as char,
            ));
        }
        k += 1;
    }
    r.append("\x1b\\");
    r
}

/// Every chunk's sequence, then a newline.
pub open spec fn kitty_text(bytes: Seq<u8>) -> Seq<char> {
    kitty_chunks(bytes, 0) + "\n"@
}

impl ImageRenderer for KittyRenderer {
    /// The sequences carry the payload's bytes; a payload that is not ASCII
    /// would have characters cut between them, so only ASCII is accepted.
    open spec fn accepts(&self, b64: Seq<char>) -> bool {
        is_ascii_chars(b64)
    }

    open spec fn image_text(&self, b64: Seq<char>, cell_idx: usize, out_idx: usize, ctx: RenderCtx) -> Seq<char> {
        kitty_text(encode_utf8(b64))
    }

    fn render(&self, b64: &str, _cell_idx: usize, _out_idx: usize, _ctx: &RenderCtx, out: &mut String) -> bool {
        if !b64.is_ascii() {
            return false;
        }
        let s = b64.as_bytes();
        let ghost start = out@;
        let mut i: usize = 0;
        while i < s.len()
            invariant
                i <= s@.len(),
                s@ == encode_utf8(b64@),
                start + kitty_chunks(s@, 0) == out@ + kitty_chunks(s@, i as nat),
            decreases s@.len() - i,
        {
            let end = if s.len() - i >= CHUNK_SIZE {
                i + CHUNK_SIZE
            } else {
                s.len()
            };
            let piece = kitty_piece_exec(s, i, end);
            out.append(piece.as_str());
            proof {
                assert(chunk_end(s@, i as nat) == end);
                assert(kitty_chunks(s@, i as nat) == piece@ + kitty_chunks(s@, end as nat));
                assert(start + kitty_chunks(s@, 0) == out@ + kitty_chunks(s@, end as nat));
            }
            i = end;
        }
        out.append("\n");
        true
    }
}

/// The data the chunks from `i` on carry, one after another.
pub open spec fn chunk_data(s: Seq<u8>, i: nat) -> Seq<u8>
    decreases s.len() - i,
{
    if i >= s.len() {
        Seq::empty()
    } else {
        s.subrange(i as int, chunk_end(s, i) as int) + chunk_data(s, chunk_end(s, i))
    }
}

/// The chunks split the payload: each holds at most `CHUNK_SIZE`
/// characters, and their data in order is the payload itself.
pub proof fn lemma_chunks_cover_payload(s: Seq<u8>, i: nat)
    requires
        i <= s.len(),
    ensures
        chunk_data(s, i) == s.subrange(i as int, s.len() as int),
        i < s.len() ==> i < chunk_end(s, i) <= i + CHUNK_SIZE,
    decreases s.len() - i,
{
    if i < s.len() {
        lemma_chunks_cover_payload(s, chunk_end(s, i));
        assert(s.subrange(i as int, chunk_end(s, i) as int) + s.subrange(chunk_end(s, i) as int, s.len() as int)
            =~= s.subrange(i as int, s.len() as int));
    } else {
        assert(s.subrange(i as int, s.len() as int) =~= Seq::<u8>::empty());
    }
}


/// How many chunks a payload of `n` characters takes: `n / CHUNK_SIZE`
/// rounded up.
pub open spec fn chunk_count(n: nat) -> nat {
    ((n + CHUNK_SIZE - 1) / (CHUNK_SIZE as int)) as nat
}

/// The sequences of the first `j` chunks, chunk `c` being
/// `s[CHUNK_SIZE * c .. min(CHUNK_SIZE * (c + 1), s.len())]`.
pub open spec fn first_pieces(s: Seq<u8>, j: nat) -> Seq<char>
    decreases j,
{
    if j == 0 {
        Seq::empty()
    } else {
        let c = (j - 1) as nat;
        let end = if CHUNK_SIZE * (c + 1) <= s.len() {
            (CHUNK_SIZE * (c + 1)) as nat
        } else {
            s.len()
        };
        first_pieces(s, c) + kitty_piece(s, (CHUNK_SIZE * c) as nat, end)
    }
}

proof fn lemma_chunks_step(s: Seq<u8>, j: nat)
    requires
        CHUNK_SIZE * j <= s.len(),
    ensures
        kitty_chunks(s, 0) == first_pieces(s, j) + kitty_chunks(s, (CHUNK_SIZE * j) as nat) ==> kitty_chunks(s, 0)
            == first_pieces(s, chunk_count(s.len())),
    decreases s.len() - CHUNK_SIZE * j,
{
    let st = (CHUNK_SIZE * j) as nat;
    if st == s.len() {
        assert(chunk_count(s.len()) == j);
        assert(first_pieces(s, j) + Seq::<char>::empty() =~= first_pieces(s, j));
    } else {
        let e = chunk_end(s, st);
        assert(kitty_chunks(s, st) == kitty_piece(s, st, e) + kitty_chunks(s, e));
        assert(first_pieces(s, j + 1) == first_pieces(s, j) + kitty_piece(s, st, e));
        if CHUNK_SIZE * (j + 1) <= s.len() {
            assert(e == CHUNK_SIZE * (j + 1));
            assert(first_pieces(s, j) + (kitty_piece(s, st, e) + kitty_chunks(s, e)) =~= first_pieces(s, j + 1)
                + kitty_chunks(s, e));
            lemma_chunks_step(s, j + 1);
        } else {
            assert(e == s.len());
            assert(chunk_count(s.len()) == j + 1);
            assert(kitty_chunks(s, e) == Seq::<char>::empty());
            assert(first_pieces(s, j) + (kitty_piece(s, st, e) + kitty_chunks(s, e)) =~= first_pieces(s, j + 1));
        }
    }
}

/// The chunked sequences in closed form, over the payload's `n` bytes:
/// `chunk_count(n)` chunks, chunk `c` carrying the bytes
/// `s[CHUNK_SIZE * c .. min(CHUNK_SIZE * (c + 1), n)]`, the first
/// with the format and action keys and only the last with `m=0`; an empty
/// payload gives no chunk at all.
pub proof fn lemma_kitty_closed_form(s: Seq<u8>)
    ensures
        kitty_chunks(s, 0) == first_pieces(s, chunk_count(s.len())),
        s.len() == 0 ==> kitty_text(s) == "\n"@,
{
    assert(first_pieces(s, 0) + kitty_chunks(s, 0) =~= kitty_chunks(s, 0));
    lemma_chunks_step(s, 0);
    if s.len() == 0 {
        assert(kitty_chunks(s, 0) =~= Seq::<char>::empty());
        assert(kitty_text(s) =~= "\n"@);
    }
}

} // verus!

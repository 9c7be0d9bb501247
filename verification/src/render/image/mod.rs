//! Inline images: the terminal graphics protocols, and a text placeholder
//! for terminals without one.

pub mod iterm;
pub mod kitty;
pub mod placeholder;
pub mod png_info;

use vstd::prelude::*;

use base64::Engine;

use crate::env::{ImageBackend, RenderCtx};

verus! {

/// What the standard base64 engine decodes `s` to; nothing when `s` is not
/// valid padded standard base64.
pub uninterp spec fn base64_decoded(s: Seq<char>) -> Option<Seq<u8>>;

/// The digit of the standard base64 alphabet for a 6-bit value: `A`-`Z`,
/// `a`-`z`, `0`-`9`, `+`, `/`.
pub open spec fn b64_digit(v: nat) -> char {
    if v < 26 {
        (65 + v) as char
    } else if v < 52 {
        (97 + v - 26) as char
    } else if v < 62 {
        (48 + v - 52) as char
    } else if v == 62 {
        '+'
    } else {
        '/'
    }
}

/// Standard base64 with padding: every three bytes become four digits of
/// six bits each, most significant first; a last group of one or two bytes
/// is padded with zero bits and filled up with `=`.
pub open spec fn base64_encoded(b: Seq<u8>) -> Seq<char>
    decreases b.len(),
{
    if b.len() == 0 {
        Seq::empty()
    } else if b.len() == 1 {
        seq![b64_digit((b[0] / 4) as nat), b64_digit(((b[0] % 4) * 16) as nat), '=', '=']
    } else if b.len() == 2 {
        seq![
            b64_digit((b[0] / 4) as nat),
            b64_digit(((b[0] % 4) * 16 + b[1] / 16) as nat),
            b64_digit(((b[1] % 16) * 4) as nat),
            '=',
        ]
    } else {
        seq![
            b64_digit((b[0] / 4) as nat),
            b64_digit(((b[0] % 4) * 16 + b[1] / 16) as nat),
            b64_digit(((b[1] % 16) * 4 + b[2] / 64) as nat),
            b64_digit((b[2] % 64) as nat),
        ] + base64_encoded(b.subrange(3, b.len() as int))
    }
}

/// A character of the standard base64 alphabet, or the padding `=`.
pub open spec fn is_base64_char(c: char) -> bool {
    ('A' <= c && c <= 'Z') || ('a' <= c && c <= 'z') || ('0' <= c && c <= '9') || c == '+' || c
        == '/' || c == '='
}

pub open spec fn opt_bytes(v: Option<Vec<u8>>) -> Option<Seq<u8>> {
    match v {
        Some(b) => Some(b@),
        None => None,
    }
}

/// `base64::engine::general_purpose::STANDARD.decode`, with the error
/// dropped. The result is named `base64_decoded`.
#[verifier::external_body]
pub(crate) fn b64_decode(s: &str) -> (r: Option<Vec<u8>>)
    ensures
        opt_bytes(r) == base64_decoded(s@),
{
    base64::engine::general_purpose::STANDARD.decode(s).ok()
}

/// `base64::engine::general_purpose::STANDARD.encode`: the standard
/// alphabet with padding, as `base64_encoded` states it.
#[verifier::external_body]
pub(crate) fn b64_encode(b: &[u8]) -> (r: String)
    ensures
        r@ == base64_encoded(b@),
{
    base64::engine::general_purpose::STANDARD.encode(b)
}

proof fn lemma_digit_in_alphabet(v: nat)
    requires
        v < 64,
    ensures
        is_base64_char(b64_digit(v)),
{
    if v < 26 {
        assert(('A' as int) == 65);
        assert(('Z' as int) == 90);
        assert((b64_digit(v) as int) == 65 + v);
    } else if v < 52 {
        assert(('a' as int) == 97);
        assert(('z' as int) == 122);
        assert((b64_digit(v) as int) == 97 + v - 26);
    } else if v < 62 {
        assert(('0' as int) == 48);
        assert(('9' as int) == 57);
        assert((b64_digit(v) as int) == 48 + v - 52);
    }
}

/// Encoded text holds only base64 digits and `=`.
pub proof fn lemma_encoded_alphabet(b: Seq<u8>)
    ensures
        forall|i: int| 0 <= i < base64_encoded(b).len() ==> is_base64_char(#[trigger] base64_encoded(b)[i]),
    decreases b.len(),
{
    if b.len() > 0 {
        let e = base64_encoded(b);
        lemma_digit_in_alphabet((b[0] / 4) as nat);
        if b.len() == 1 {
            lemma_digit_in_alphabet(((b[0] % 4) * 16) as nat);
            assert forall|i: int| 0 <= i < e.len() implies is_base64_char(#[trigger] e[i]) by {}
        } else if b.len() == 2 {
            lemma_digit_in_alphabet(((b[0] % 4) * 16 + b[1] / 16) as nat);
            lemma_digit_in_alphabet(((b[1] % 16) * 4) as nat);
            assert forall|i: int| 0 <= i < e.len() implies is_base64_char(#[trigger] e[i]) by {}
        } else {
            lemma_digit_in_alphabet(((b[0] % 4) * 16 + b[1] / 16) as nat);
            lemma_digit_in_alphabet(((b[1] % 16) * 4 + b[2] / 64) as nat);
            lemma_digit_in_alphabet((b[2] % 64) as nat);
            let rest = b.subrange(3, b.len() as int);
            lemma_encoded_alphabet(rest);
            let head = seq![
                b64_digit((b[0] / 4) as nat),
                b64_digit(((b[0] % 4) * 16 + b[1] / 16) as nat),
                b64_digit(((b[1] % 16) * 4 + b[2] / 64) as nat),
                b64_digit((b[2] % 64) as nat),
            ];
            assert(e == head + base64_encoded(rest));
            assert forall|i: int| 0 <= i < e.len() implies is_base64_char(#[trigger] e[i]) by {
                if i < 4 {
                    assert(e[i] == head[i]);
                } else {
                    assert(e[i] == base64_encoded(rest)[i - 4]);
                }
            }
        }
    }
}

/// The payload handed to a protocol renderer: `b64` decoded and encoded
/// again, or nothing when it does not decode.
pub open spec fn sanitized(b64: Seq<char>) -> Seq<char> {
    match base64_decoded(b64) {
        Some(bytes) => base64_encoded(bytes),
        None => Seq::empty(),
    }
}

/// Decode then re-encode `b64` so only canonical base64 alphabet survives.
/// Returns an empty string for input that is not valid standard base64.
pub fn sanitize_base64(b64: &str) -> (r: String)
    ensures
        r@ == sanitized(b64@),
        forall|i: int| 0 <= i < r@.len() ==> is_base64_char(#[trigger] r@[i]),
{
    match b64_decode(b64) {
        Some(bytes) => {
            proof {
                lemma_encoded_alphabet(bytes@);
            }
            b64_encode(bytes.as_slice())
        },
        None => String::new(),
    }
}

/// A way of putting an image on the terminal.
pub trait ImageRenderer {
    /// Whether `render` can write this payload.
    spec fn accepts(&self, b64: Seq<char>) -> bool;

    /// What `render` writes for a payload it accepts.
    spec fn image_text(&self, b64: Seq<char>, cell_idx: usize, out_idx: usize, ctx: RenderCtx) -> Seq<char>;

    /// Writes the image; returns whether it did, leaving `out` as it was
    /// for a payload it does not accept.
    fn render(&self, b64: &str, cell_idx: usize, out_idx: usize, ctx: &RenderCtx, out: &mut String) -> (written: bool)
        ensures
            written == self.accepts(b64@),
            written ==> final(out)@ == old(out)@ + self.image_text(b64@, cell_idx, out_idx, *ctx),
            !written ==> final(out)@ == old(out)@,
    ;
}

/// What `dispatch` writes: the sanitized payload, through the renderer of
/// the context's backend.
pub open spec fn dispatch_text(b64: Seq<char>, cell_idx: usize, out_idx: usize, ctx: RenderCtx) -> Seq<char> {
    let clean = sanitized(b64);
    match ctx.image_backend {
        ImageBackend::Kitty => kitty::kitty_text(vstd::utf8::encode_utf8(clean)),
        ImageBackend::ITerm2 => iterm::iterm_text(clean),
        ImageBackend::Placeholder => placeholder::placeholder_text(clean, cell_idx, out_idx, ctx),
    }
}

/// Render an `image/png` payload with the context's backend.
///
/// A notebook's `image/png` string may carry terminal escape sequences
/// instead of real base64, and the protocol renderers put the payload into
/// escape sequences verbatim; so the payload is decoded and encoded again
/// first, and only base64 characters reach them.
pub fn dispatch(b64: &str, cell_idx: usize, out_idx: usize, ctx: &RenderCtx, out: &mut String)
    ensures
        final(out)@ == old(out)@ + dispatch_text(b64@, cell_idx, out_idx, *ctx),
{
    let clean = sanitize_base64(b64);
    proof {
        assert(vstd::utf8::is_ascii_chars(clean@)) by {
            assert forall|i: int| 0 <= i < clean@.len() implies '\0' <= #[trigger] clean@[i] <= '\u{7f}' by {
                assert(is_base64_char(clean@[i]));
            }
        }
    }
    match ctx.image_backend {
        ImageBackend::Kitty => {
            kitty::KittyRenderer.render(clean.as_str(), cell_idx, out_idx, ctx, out);
        },
        ImageBackend::ITerm2 => {
            iterm::ITermRenderer.render(clean.as_str(), cell_idx, out_idx, ctx, out);
        },
        ImageBackend::Placeholder => {
            placeholder::PlaceholderRenderer.render(clean.as_str(), cell_idx, out_idx, ctx, out);
        },
    }
}

} // verus!

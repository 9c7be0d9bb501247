//! Width and height straight from a PNG's IHDR chunk.

use vstd::prelude::*;

verus! {

/// The eight bytes every PNG file starts with.
pub open spec fn png_signature() -> Seq<u8> {
    seq![0x89u8, 0x50u8, 0x4eu8, 0x47u8, 0x0du8, 0x0au8, 0x1au8, 0x0au8]
}

/// The chunk type `IHDR`.
pub open spec fn ihdr() -> Seq<u8> {
    seq![0x49u8, 0x48u8, 0x44u8, 0x52u8]
}

/// The big-endian 32-bit number at `b[i..i + 4]`.
pub open spec fn be32(b: Seq<u8>, i: int) -> nat {
    (b[i] as nat) * 16777216 + (b[i + 1] as nat) * 65536 + (b[i + 2] as nat) * 256 + (b[i + 3] as nat)
}

/// `(width, height)` when `b` starts with the PNG signature followed by an
/// IHDR chunk; nothing otherwise.
pub open spec fn png_dims(b: Seq<u8>) -> Option<(u32, u32)> {
    if b.len() < 24 {
        None
    } else if b.subrange(0, 8) != png_signature() {
        None
    } else if b.subrange(12, 16) != ihdr() {
        None
    } else {
        Some((be32(b, 16) as u32, be32(b, 20) as u32))
    }
}

fn be32_exec(b: &[u8], i: usize) -> (r: u32)
    requires
        i + 4 <= b@.len(),
    ensures
        r == be32(b@, i as int),
{
    let b0 = b[i] as u32;
    let b1 = b[i + 1] as u32;
    let b2 = b[i + 2] as u32;
    let b3 = b[i + 3] as u32;
    b0 * 16777216 + b1 * 65536 + b2 * 256 + b3
}

fn matches_at(b: &[u8], at: usize, expect: &[u8]) -> (r: bool)
    requires
        at + expect@.len() <= b@.len(),
    ensures
        r == (b@.subrange(at as int, at + expect@.len()) == expect@),
{
    let blen = b.len();
    let mut k: usize = 0;
    while k < expect.len()
        invariant
            k <= expect@.len(),
            blen == b@.len(),
            at + expect@.len() <= b@.len(),
            forall|j: int| 0 <= j < k ==> b@[at + j] == expect@[j],
        decreases expect@.len() - k,
    {
        if b[at + k] != expect[k] {
            assert(b@.subrange(at as int, at + expect@.len())[k as int] != expect@[k as int]);
            return false;
        }
        k += 1;
    }
    assert(b@.subrange(at as int, at + expect@.len()) =~= expect@);
    true
}

/// `(width, height)` from PNG bytes; `None` when the signature or the IHDR
/// check fails.
pub fn dimensions(bytes: &[u8]) -> (r: Option<(u32, u32)>)
    ensures
        r == png_dims(bytes@),
{
    if bytes.len() < 24 {
        return None;
    }
    let sig: [u8; 8] = [0x89, 0x50, 0x4e, 0x47, 0x0d, 0x0a, 0x1a, 0x0a];
    assert(sig@ =~= png_signature());
    if !matches_at(bytes, 0, &sig) {
        return None;
    }
    let chunk: [u8; 4] = [0x49, 0x48, 0x44, 0x52];
    assert(chunk@ =~= ihdr());
    if !matches_at(bytes, 12, &chunk) {
        return None;
    }
    Some((be32_exec(bytes, 16), be32_exec(bytes, 20)))
}

} // verus!

//! Single source of truth for emitting runs of ASCII spaces.
//!
//! Two sinks need this: a byte sink and the `String`-building paths. Both
//! slice from the same constant instead of allocating `" ".repeat(n)`.

use vstd::prelude::*;

use crate::escape::spaces;

verus! {

/// 32 ASCII spaces — the chunk both helpers slice from.
pub const SPACES: &'static str = "                                ";

/// The constant holds exactly 32 ASCII spaces.
proof fn lemma_spaces_const()
    ensures
        SPACES@ == spaces(32),
        SPACES.is_ascii(),
{
    reveal_strlit("                                ");
    assert(SPACES@ =~= spaces(32));
}

/// Write `n` ASCII space bytes to `w`.
pub fn write_spaces(w: &mut Vec<u8>, n: usize)
    ensures
        final(w)@ == old(w)@ + Seq::new(n as nat, |_k: int| 32u8),
{
    proof {
        lemma_spaces_const();
        vstd::string::is_ascii_spec_bytes(SPACES);
    }
    let bytes = SPACES.as_bytes();
    assert(bytes@.len() == 32);
    let ghost start = w@;
    let mut remaining = n;
    while remaining >= bytes.len()
        invariant
            bytes@.len() == 32,
            forall|k: int| 0 <= k < 32 ==> bytes@[k] == 32u8,
            remaining <= n,
            w@ == start + Seq::new((n - remaining) as nat, |_k: int| 32u8),
        decreases remaining,
    {
        let ghost before = w@;
        w.extend_from_slice(bytes);
        remaining -= bytes.len();
        assert(w@ =~= start + Seq::new((n - remaining) as nat, |_k: int| 32u8)) by {
            assert forall|k: int| before.len() <= k < w@.len() implies w@[k] == 32u8 by {
                assert(cloned::<u8>(bytes@[k - before.len()], w@[k]));
            }
        }
    }
    if remaining > 0 {
        let part = vstd::slice::slice_subrange(bytes, 0, remaining);
        let ghost before = w@;
        w.extend_from_slice(part);
        assert(w@ =~= start + Seq::new(n as nat, |_k: int| 32u8)) by {
            assert forall|k: int| before.len() <= k < w@.len() implies w@[k] == 32u8 by {
                assert(cloned::<u8>(part@[k - before.len()], w@[k]));
            }
        }
    }
}

/// Push `n` ASCII spaces onto `out`.
pub fn push_spaces(out: &mut String, n: usize)
    ensures
        final(out)@ == old(out)@ + spaces(n as nat),
{
    proof {
        lemma_spaces_const();
    }
    let ghost start = out@;
    let mut remaining = n;
    while remaining >= 32
        invariant
            SPACES@ == spaces(32),
            SPACES.is_ascii(),
            remaining <= n,
            out@ == start + spaces((n - remaining) as nat),
        decreases remaining,
    {
        out.append(SPACES);
        remaining -= 32;
        assert(out@ =~= start + spaces((n - remaining) as nat));
    }
    if remaining > 0 {
        let part = SPACES.substring_ascii(0, remaining);
        out.append(part);
    }
    assert(out@ =~= start + spaces(n as nat));
}

} // verus!

//! The `--cells` argument: `N` or `N-M`, 1-based and inclusive.

use vstd::prelude::*;

use crate::numeric::{parse_unsigned, parse_unsigned_exec};
use crate::strs::{chars_of, find_char, find_from, lemma_find_from, sub_vec};

verus! {

/// A positive cell number as `NonZeroUsize::from_str` reads it.
pub open spec fn positive(s: Seq<char>) -> Option<nat> {
    match parse_unsigned(s, usize::MAX as nat) {
        Some(n) => if n == 0 {
            None
        } else {
            Some(n)
        },
        None => None,
    }
}

/// The error for a malformed value, quoting it.
pub open spec fn invalid_message(s: Seq<char>) -> Seq<char> {
    "invalid --cells value '"@ + s + "' (expected N or N-M, 1-based)"@
}

/// The error for a reversed range, quoting it.
pub open spec fn reversed_message(s: Seq<char>) -> Seq<char> {
    "invalid --cells value '"@ + s + "' (start > end)"@
}

/// What `parse_cells_spec` yields for `s`.
pub open spec fn cells_spec(s: Seq<char>) -> Result<(nat, nat), Seq<char>> {
    if s.len() == 0 {
        Err("empty --cells value"@)
    } else {
        let dash = find_from(s, 0, '-');
        if dash >= s.len() {
            match positive(s) {
                Some(n) => Ok((n, n)),
                None => Err(invalid_message(s)),
            }
        } else {
            let a = s.subrange(0, dash);
            let b = s.subrange(dash + 1, s.len() as int);
            if a.len() == 0 || b.len() == 0 || find_from(b, 0, '-') < b.len() {
                Err(invalid_message(s))
            } else {
                match (positive(a), positive(b)) {
                    (Some(start), Some(end)) => if start > end {
                        Err(reversed_message(s))
                    } else {
                        Ok((start, end))
                    },
                    _ => Err(invalid_message(s)),
                }
            }
        }
    }
}

fn positive_exec(s: &Vec<char>) -> (r: Option<usize>)
    ensures
        r == (match positive(s@) {
            Some(n) => Some(n as usize),
            None => None::<usize>,
        }),
{
    match parse_unsigned_exec(s, usize::MAX as u64) {
        Some(n) => if n == 0 {
            None
        } else {
            Some(n as usize)
        },
        None => None,
    }
}

fn message(prefix: &str, s: &str, suffix: &str) -> (r: String)
    ensures
        r@ == prefix@ + s@ + suffix@,
{
    let mut m = String::from_str(prefix);
    m.append(s);
    m.append(suffix);
    m
}

/// Parse a `--cells` value of the form `N` or `N-M` (1-based, inclusive).
///
/// Returns `(start, end)` with `start <= end`. Rejects zero, reversed
/// ranges, open ranges (`-5`, `3-`), comma lists, and any non-numeric
/// input. The error message includes the offending input so the error
/// output stays self-explanatory.
pub fn parse_cells_spec(s: &str) -> (r: Result<(usize, usize), String>)
    ensures
        r matches Ok(p) ==> cells_spec(s@) == Ok::<(nat, nat), Seq<char>>((p.0 as nat, p.1 as nat)),
        r matches Err(e) ==> cells_spec(s@) == Err::<(nat, nat), Seq<char>>(e@),
{
    let v = chars_of(s);
    if v.len() == 0 {
        return Err(String::from_str("empty --cells value"));
    }
    proof {
        lemma_find_from(v@, 0, '-');
    }
    let dash = find_char(&v, 0, '-');
    if dash >= v.len() {
        return match positive_exec(&v) {
            Some(n) => Ok((n, n)),
            None => Err(message("invalid --cells value '", s, "' (expected N or N-M, 1-based)")),
        };
    }
    let a = sub_vec(&v, 0, dash);
    let b = sub_vec(&v, dash + 1, v.len());
    if a.len() == 0 || b.len() == 0 || find_char(&b, 0, '-') < b.len() {
        return Err(message("invalid --cells value '", s, "' (expected N or N-M, 1-based)"));
    }
    let start = match positive_exec(&a) {
        Some(n) => n,
        None => return Err(message("invalid --cells value '", s, "' (expected N or N-M, 1-based)")),
    };
    let end = match positive_exec(&b) {
        Some(n) => n,
        None => return Err(message("invalid --cells value '", s, "' (expected N or N-M, 1-based)")),
    };
    if start > end {
        return Err(message("invalid --cells value '", s, "' (start > end)"));
    }
    Ok((start, end))
}

/// A parsed range is 1-based and ordered: `1 <= start <= end`.
pub proof fn lemma_cells_spec_ordered(s: Seq<char>)
    ensures
        cells_spec(s) matches Ok(p) ==> 1 <= p.0 <= p.1,
{
}

/// A digit string holds no `-`.
proof fn lemma_no_dash(n: nat)
    ensures
        find_from(crate::strs::decimal(n), 0, '-') == crate::strs::decimal(n).len(),
{
    crate::numeric::lemma_decimal_reads_back(n);
    let d = crate::strs::decimal(n);
    assert forall|i: int| 0 <= i <= d.len() implies find_from(d, i, '-') == d.len() by {
        lemma_find_from_none(d, i);
    }
}

proof fn lemma_find_from_none(d: Seq<char>, i: int)
    requires
        0 <= i <= d.len(),
        crate::numeric::all_digits(d),
    ensures
        find_from(d, i, '-') == d.len(),
    decreases d.len() - i,
{
    if i < d.len() {
        assert(crate::numeric::is_digit(d[i]));
        lemma_find_from_none(d, i + 1);
    }
}

/// `N` is the one-cell range `(N, N)`, for every positive `N`.
pub proof fn lemma_single_cell(n: nat)
    requires
        1 <= n <= usize::MAX,
    ensures
        cells_spec(crate::strs::decimal(n)) == Ok::<(nat, nat), Seq<char>>((n, n)),
{
    crate::numeric::lemma_parse_decimal(n, usize::MAX as nat);
    lemma_no_dash(n);
}

/// `N-M` is the range `(N, M)` when `N <= M`, and a reversed-range error
/// quoting the input when `N > M`, for all positive `N` and `M`.
pub proof fn lemma_cell_range(a: nat, b: nat)
    requires
        1 <= a <= usize::MAX,
        1 <= b <= usize::MAX,
    ensures
        a <= b ==> cells_spec(crate::strs::decimal(a) + seq!['-'] + crate::strs::decimal(b)) == Ok::<
            (nat, nat),
            Seq<char>,
        >((a, b)),
        a > b ==> cells_spec(crate::strs::decimal(a) + seq!['-'] + crate::strs::decimal(b)) == Err::<
            (nat, nat),
            Seq<char>,
        >(reversed_message(crate::strs::decimal(a) + seq!['-'] + crate::strs::decimal(b))),
{
    let da = crate::strs::decimal(a);
    let db = crate::strs::decimal(b);
    let s = da + seq!['-'] + db;
    crate::numeric::lemma_parse_decimal(a, usize::MAX as nat);
    crate::numeric::lemma_parse_decimal(b, usize::MAX as nat);
    crate::numeric::lemma_decimal_reads_back(a);
    crate::numeric::lemma_decimal_reads_back(b);
    lemma_no_dash(b);
    assert(s.subrange(0, da.len() as int) =~= da);
    assert(s.subrange((da.len() + 1) as int, s.len() as int) =~= db);
    assert(s[da.len() as int] == '-');
    lemma_find_from_prefix(s, da, 0);
}

proof fn lemma_find_from_prefix(s: Seq<char>, da: Seq<char>, i: int)
    requires
        0 <= i <= da.len(),
        da.len() < s.len(),
        s.subrange(0, da.len() as int) == da,
        s[da.len() as int] == '-',
        crate::numeric::all_digits(da),
    ensures
        find_from(s, i, '-') == da.len(),
    decreases da.len() - i,
{
    if i < da.len() {
        assert(s[i] == da[i]);
        assert(crate::numeric::is_digit(da[i]));
        lemma_find_from_prefix(s, da, i + 1);
    }
}


/// Whether `s` occurs in `e`.
pub open spec fn occurs_in(s: Seq<char>, e: Seq<char>) -> bool {
    exists|k: int| 0 <= k && k + s.len() <= e.len() && #[trigger] e.subrange(k, k + s.len()) == s
}

/// `N-M` split at a dash: the dash at `i`, no other dash, `N` and `M`
/// positive and in order.
pub open spec fn range_at(s: Seq<char>, i: int, a: nat, b: nat) -> bool {
    &&& 0 <= i < s.len()
    &&& s[i] == '-'
    &&& !s.subrange(0, i).contains('-')
    &&& !s.subrange(i + 1, s.len() as int).contains('-')
    &&& positive(s.subrange(0, i)) == Some(a)
    &&& positive(s.subrange(i + 1, s.len() as int)) == Some(b)
    &&& a <= b
}

/// `--cells` parsing succeeds exactly on `N`, a positive number without a
/// dash (the range `N..=N`), and on `N-M`, two positive numbers around the
/// one dash with `N <= M`; every other non-empty value fails with an error
/// that quotes it.
pub proof fn lemma_cells_spec_exact(s: Seq<char>, a: nat, b: nat)
    ensures
        (cells_spec(s) == Ok::<(nat, nat), Seq<char>>((a, b))) <==> ((!s.contains('-') && positive(s) == Some(a)
            && b == a) || exists|i: int| range_at(s, i, a, b)),
        cells_spec(s) matches Err(e) ==> s.len() == 0 || occurs_in(s, e),
{
    let dash = find_from(s, 0, '-');
    lemma_find_from(s, 0, '-');
    if s.len() == 0 {
        assert(!s.contains('-'));
        assert(positive(s) is None);
        assert forall|i: int| !range_at(s, i, a, b) by {}
    } else if dash >= s.len() {
        assert(!s.contains('-')) by {
            assert forall|j: int| 0 <= j < s.len() implies s[j] != '-' by {}
        }
        assert forall|i: int| !range_at(s, i, a, b) by {}
    } else {
        assert(s.contains('-')) by {
            assert(s[dash] == '-');
        }
        let x = s.subrange(0, dash);
        let y = s.subrange(dash + 1, s.len() as int);
        assert forall|i: int| range_at(s, i, a, b) implies i == dash by {
            if i < dash {
                assert(s[i] != '-');
            } else if i > dash {
                assert(s.subrange(0, i)[dash] == '-');
            }
        }
        assert(!x.contains('-')) by {
            assert forall|j: int| 0 <= j < x.len() implies x[j] != '-' by {
                assert(x[j] == s[j]);
            }
        }
        lemma_find_from(y, 0, '-');
        if find_from(y, 0, '-') < y.len() {
            assert(y.contains('-')) by {
                assert(y[find_from(y, 0, '-')] == '-');
            }
        } else {
            assert(!y.contains('-')) by {
                assert forall|j: int| 0 <= j < y.len() implies y[j] != '-' by {}
            }
        }
        if x.len() == 0 {
            assert(positive(x) is None);
        }
        if y.len() == 0 {
            assert(positive(y) is None);
        }
        if range_at(s, dash, a, b) {
            assert(exists|i: int| range_at(s, i, a, b));
        }
    }
    match cells_spec(s) {
        Err(e) => {
            if s.len() > 0 {
                let p = "invalid --cells value '"@;
                if e == invalid_message(s) {
                    assert(e.subrange(p.len() as int, (p.len() + s.len()) as int) =~= s);
                } else {
                    assert(e == reversed_message(s));
                    assert(e.subrange(p.len() as int, (p.len() + s.len()) as int) =~= s);
                }
            }
        },
        Ok(_) => {},
    }
}

} // verus!

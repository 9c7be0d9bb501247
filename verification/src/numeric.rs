//! Number syntax the viewer reads: unsigned decimal integers as
//! `str::parse` accepts them, and the decimal floating-point grammar that
//! decides whether a table column is numeric.

use vstd::prelude::*;

verus! {

pub open spec fn is_digit(c: char) -> bool {
    0x30 <= (c as u32) && (c as u32) <= 0x39
}

pub open spec fn digit_value(c: char) -> nat {
    ((c as u32) - 0x30) as nat
}

/// Every character is an ASCII digit.
pub open spec fn all_digits(s: Seq<char>) -> bool {
    forall|k: int| 0 <= k < s.len() ==> is_digit(#[trigger] s[k])
}

/// The value of a run of ASCII digits.
pub open spec fn digits_value(s: Seq<char>) -> nat
    decreases s.len(),
{
    if s.len() == 0 {
        0
    } else {
        digits_value(s.drop_last()) * 10 + digit_value(s.last())
    }
}

/// What `str::parse` yields for an unsigned integer type whose largest value
/// is `max`: an optional `+`, then one or more ASCII digits whose value is at
/// most `max`; anything else is an error.
pub open spec fn parse_unsigned(s: Seq<char>, max: nat) -> Option<nat> {
    let d = unsigned_digits(s);
    if d.len() > 0 && all_digits(d) && digits_value(d) <= max {
        Some(digits_value(d))
    } else {
        None
    }
}

/// The digits of an unsigned number, after an optional leading `+`.
pub open spec fn unsigned_digits(s: Seq<char>) -> Seq<char> {
    if s.len() > 0 && s[0] == '+' {
        s.subrange(1, s.len() as int)
    } else {
        s
    }
}

/// Appending a digit never makes a value smaller.
proof fn lemma_digits_value_prefix(s: Seq<char>, i: int)
    requires
        0 <= i <= s.len(),
        all_digits(s),
    ensures
        digits_value(s.subrange(0, i)) <= digits_value(s),
    decreases s.len() - i,
{
    if i < s.len() {
        lemma_digits_value_prefix(s, i + 1);
        assert(s.subrange(0, i + 1).drop_last() =~= s.subrange(0, i));
    } else {
        assert(s.subrange(0, i) =~= s);
    }
}

/// Parse an unsigned decimal integer no larger than `max`, as `str::parse`
/// does for the unsigned integer types.
pub fn parse_unsigned_exec(s: &Vec<char>, max: u64) -> (r: Option<u64>)
    ensures
        r == (match parse_unsigned(s@, max as nat) {
            Some(n) => Some(n as u64),
            None => None::<u64>,
        }),
{
    let start: usize = if s.len() > 0 && s[0] == '+' {
        1
    } else {
        0
    };
    let ghost d = s@.subrange(start as int, s@.len() as int);
    assert(d =~= unsigned_digits(s@));
    if start >= s.len() {
        return None;
    }
    let mut val: u64 = 0;
    let mut i = start;
    while i < s.len()
        invariant
            start <= i <= s@.len(),
            d == s@.subrange(start as int, s@.len() as int),
            d == unsigned_digits(s@),
            all_digits(s@.subrange(start as int, i as int)),
            val as nat == digits_value(s@.subrange(start as int, i as int)),
            val <= max,
        decreases s@.len() - i,
    {
        let c = s[i];
        assert(d[i - start] == c);
        if (c as u32) < 0x30 || (c as u32) > 0x39 {
            assert(!is_digit(d[i - start]));
            assert(!all_digits(d));
            assert(parse_unsigned(s@, max as nat) is None);
            return None;
        }
        let dv = (c as u32 - 0x30) as u64;
        assert(s@.subrange(start as int, i + 1).drop_last() =~= s@.subrange(start as int, i as int));
        if dv > max || val > (max - dv) / 10 {
            proof {
                assert(all_digits(s@.subrange(start as int, i + 1)));
                assert(digits_value(s@.subrange(start as int, i + 1)) > max) by (nonlinear_arith)
                    requires
                        digits_value(s@.subrange(start as int, i + 1)) == val * 10 + dv,
                        dv > max || val > (max - dv) / 10,
                        dv <= 9,
                ;
                if all_digits(d) {
                    assert(s@.subrange(start as int, i + 1) =~= d.subrange(0, i + 1 - start));
                    lemma_digits_value_prefix(d, i + 1 - start);
                    assert(digits_value(d) > max);
                }
                assert(parse_unsigned(s@, max as nat) is None);
            }
            return None;
        }
        proof {
            assert(val * 10 + dv <= max) by (nonlinear_arith)
                requires
                    val <= (max - dv) / 10,
                    dv <= max,
            ;
        }
        val = val * 10 + dv;
        i += 1;
        assert(all_digits(s@.subrange(start as int, i as int)));
    }
    assert(s@.subrange(start as int, i as int) =~= d);
    Some(val)
}

/// `s` is a decimal number as `f64::from_str` accepts it: digits with at most
/// one `.` and at least one digit, then an optional exponent `e`, an optional
/// sign and one or more digits (after lowercasing).
pub open spec fn is_decimal_number(s: Seq<char>) -> bool {
    let e = crate::strs::find_from(s, 0, 'e');
    let mant = s.subrange(0, e);
    let dot = crate::strs::find_from(mant, 0, '.');
    let int_part = mant.subrange(0, dot);
    let frac_part = if dot < mant.len() {
        mant.subrange(dot + 1, mant.len() as int)
    } else {
        Seq::empty()
    };
    let mant_ok = all_digits(int_part) && all_digits(frac_part) && (int_part.len() > 0 || frac_part.len()
        > 0);
    let exp_ok = if e < s.len() {
        let x = s.subrange(e + 1, s.len() as int);
        let digits = if x.len() > 0 && (x[0] == '+' || x[0] == '-') {
            x.subrange(1, x.len() as int)
        } else {
            x
        };
        digits.len() > 0 && all_digits(digits)
    } else {
        true
    };
    mant_ok && exp_ok
}

/// `str::parse::<f64>` succeeds on `s`: after lowercasing, an optional sign,
/// then `inf`, `infinity`, `nan`, or a decimal number.
pub open spec fn parses_as_float(s: Seq<char>) -> bool {
    let t = crate::strs::lower(s);
    let u = if t.len() > 0 && (t[0] == '+' || t[0] == '-') {
        t.subrange(1, t.len() as int)
    } else {
        t
    };
    u == seq!['i', 'n', 'f'] || u == seq!['i', 'n', 'f', 'i', 'n', 'i', 't', 'y'] || u == seq!['n', 'a', 'n']
        || is_decimal_number(u)
}

fn all_digits_exec(s: &Vec<char>, from: usize, to: usize) -> (r: bool)
    requires
        from <= to <= s@.len(),
    ensures
        r == all_digits(s@.subrange(from as int, to as int)),
{
    let mut k = from;
    while k < to
        invariant
            from <= k <= to <= s@.len(),
            all_digits(s@.subrange(from as int, k as int)),
        decreases to - k,
    {
        assert(s@.subrange(from as int, to as int)[k - from] == s@[k as int]);
        if (s[k] as u32) < 0x30 || (s[k] as u32) > 0x39 {
            assert(!is_digit(s@.subrange(from as int, to as int)[k - from]));
            return false;
        }
        k += 1;
        assert(all_digits(s@.subrange(from as int, k as int)));
    }
    true
}

fn is_decimal_number_exec(s: &Vec<char>) -> (r: bool)
    ensures
        r == is_decimal_number(s@),
{
    let e = crate::strs::find_char(s, 0, 'e');
    let mant = crate::strs::sub_vec(s, 0, e);
    let dot = crate::strs::find_char(&mant, 0, '.');
    let int_ok = all_digits_exec(&mant, 0, dot);
    let (frac_ok, frac_len) = if dot < mant.len() {
        (all_digits_exec(&mant, dot + 1, mant.len()), mant.len() - dot - 1)
    } else {
        (true, 0)
    };
    let mant_ok = int_ok && frac_ok && (dot > 0 || frac_len > 0);
    assert(mant@.subrange(0, mant@.len() as int) =~= mant@);
    let exp_ok = if e < s.len() {
        let x = crate::strs::sub_vec(s, e + 1, s.len());
        let from: usize = if x.len() > 0 && (x[0] == '+' || x[0] == '-') {
            1
        } else {
            0
        };
        assert(x@.subrange(0, x@.len() as int) =~= x@);
        from < x.len() && all_digits_exec(&x, from, x.len())
    } else {
        true
    };
    mant_ok && exp_ok
}

/// A sign in front changes nothing: `-s` and `+s` read as floats exactly
/// when `s` does, for `s` that does not start with a sign itself — so a
/// number stays a number when negated.
pub proof fn lemma_float_sign(s: Seq<char>)
    requires
        s.len() == 0 || (s[0] != '+' && s[0] != '-'),
    ensures
        parses_as_float(seq!['-'] + s) == parses_as_float(s),
        parses_as_float(seq!['+'] + s) == parses_as_float(s),
{
    let lm = crate::strs::lower(seq!['-'] + s);
    let lp = crate::strs::lower(seq!['+'] + s);
    let l = crate::strs::lower(s);
    assert(lm.subrange(1, lm.len() as int) =~= l);
    assert(lp.subrange(1, lp.len() as int) =~= l);
    assert(lm[0] == '-');
    assert(lp[0] == '+');
    if s.len() > 0 {
        assert(l[0] == crate::strs::ascii_lower(s[0]));
        assert(l[0] != '+' && l[0] != '-');
    }
}

proof fn lemma_find_absent(s: Seq<char>, c: char)
    requires
        forall|j: int| 0 <= j < s.len() ==> s[j] != c,
    ensures
        crate::strs::find_from(s, 0, c) == s.len(),
{
    crate::strs::lemma_find_from(s, 0, c);
}

/// Digits, a point and digits read as a float, and so, by
/// `lemma_float_sign`, do their negations: `1.5`, `-1.5`, `2.0`, `-0.25`.
pub proof fn lemma_decimal_floats(a: Seq<char>, b: Seq<char>)
    requires
        a.len() > 0,
        all_digits(a),
        all_digits(b),
    ensures
        parses_as_float(a + seq!['.'] + b),
        parses_as_float(seq!['-'] + (a + seq!['.'] + b)),
        parses_as_float(a),
        parses_as_float(seq!['-'] + a),
{
    let s = a + seq!['.'] + b;
    assert(crate::strs::lower(s) =~= s) by {
        assert forall|j: int| 0 <= j < s.len() implies crate::strs::lower(s)[j] == s[j] by {
            if j < a.len() {
                assert(is_digit(a[j]));
            } else if j > a.len() {
                assert(s[j] == b[j - a.len() - 1]);
                assert(is_digit(b[j - a.len() - 1]));
            }
        }
    }
    assert(crate::strs::lower(a) =~= a) by {
        assert forall|j: int| 0 <= j < a.len() implies crate::strs::lower(a)[j] == a[j] by {
            assert(is_digit(a[j]));
        }
    }
    assert(is_digit(a[0]));
    assert(s[0] == a[0]);
    // no exponent
    assert forall|j: int| 0 <= j < s.len() implies s[j] != 'e' by {
        if j < a.len() {
            assert(is_digit(a[j]));
        } else if j > a.len() {
            assert(s[j] == b[j - a.len() - 1]);
            assert(is_digit(b[j - a.len() - 1]));
        }
    }
    lemma_find_absent(s, 'e');
    assert(s.subrange(0, s.len() as int) =~= s);
    crate::strs::lemma_find_from(s, 0, '.');
    let dot = crate::strs::find_from(s, 0, '.');
    assert(s[a.len() as int] == '.');
    if dot < a.len() {
        assert(is_digit(a[dot]));
        assert(s[dot] == a[dot]);
    }
    assert(dot == a.len());
    assert(s.subrange(0, dot) =~= a);
    assert(s.subrange(dot + 1, s.len() as int) =~= b);
    assert(is_decimal_number(s));
    assert forall|j: int| 0 <= j < a.len() implies a[j] != 'e' && a[j] != '.' by {
        assert(is_digit(a[j]));
    }
    lemma_find_absent(a, 'e');
    lemma_find_absent(a, '.');
    assert(a.subrange(0, a.len() as int) =~= a);
    assert(is_decimal_number(a));
    lemma_float_sign(s);
    lemma_float_sign(a);
}

/// Whether `str::parse::<f64>` would accept `s`.
pub fn parses_as_float_exec(s: &Vec<char>) -> (r: bool)
    ensures
        r == parses_as_float(s@),
{
    let t = crate::strs::lower_vec(s);
    let from: usize = if t.len() > 0 && (t[0] == '+' || t[0] == '-') {
        1
    } else {
        0
    };
    let u = crate::strs::sub_vec(&t, from, t.len());
    assert(u@ =~= (if t@.len() > 0 && (t@[0] == '+' || t@[0] == '-') {
        t@.subrange(1, t@.len() as int)
    } else {
        t@
    }));
    let inf = crate::strs::chars_of("inf");
    let infinity = crate::strs::chars_of("infinity");
    let nan = crate::strs::chars_of("nan");
    proof {
        reveal_strlit("inf");
        reveal_strlit("infinity");
        reveal_strlit("nan");
    }
    assert(inf@ == seq!['i', 'n', 'f']);
    assert(infinity@ == seq!['i', 'n', 'f', 'i', 'n', 'i', 't', 'y']);
    assert(nan@ == seq!['n', 'a', 'n']);
    let word = chars_eq(&u, &inf) || chars_eq(&u, &infinity) || chars_eq(&u, &nan);
    word || is_decimal_number_exec(&u)
}

/// The two character vectors hold the same characters.
pub fn chars_eq(a: &Vec<char>, b: &Vec<char>) -> (r: bool)
    ensures
        r == (a@ == b@),
{
    if a.len() != b.len() {
        return false;
    }
    let mut k: usize = 0;
    while k < a.len()
        invariant
            k <= a@.len() == b@.len(),
            forall|j: int| 0 <= j < k ==> a@[j] == b@[j],
        decreases a@.len() - k,
    {
        if a[k] != b[k] {
            return false;
        }
        k += 1;
    }
    assert(a@ =~= b@);
    true
}

} // verus!

verus! {

/// The decimal form of a number is made of digits and reads back as the number.
pub proof fn lemma_decimal_reads_back(n: nat)
    ensures
        all_digits(crate::strs::decimal(n)),
        digits_value(crate::strs::decimal(n)) == n,
        crate::strs::decimal(n).len() > 0,
    decreases n,
{
    let d = crate::strs::decimal(n);
    if n < 10 {
        lemma_digit_char(n);
        assert(d.drop_last() =~= Seq::<char>::empty());
        assert(digits_value(d) == digits_value(d.drop_last()) * 10 + digit_value(d.last()));
    } else {
        lemma_decimal_reads_back(n / 10);
        lemma_digit_char(n % 10);
        assert(d.drop_last() =~= crate::strs::decimal(n / 10));
        assert(n == (n / 10) * 10 + n % 10) by (nonlinear_arith);
        assert(d.last() == crate::strs::digit_char(n % 10));
        assert(digits_value(d) == digits_value(d.drop_last()) * 10 + digit_value(d.last()));
        assert forall|k: int| 0 <= k < d.len() implies is_digit(#[trigger] d[k]) by {
            if k < d.len() - 1 {
                assert(d[k] == crate::strs::decimal(n / 10)[k]);
            }
        }
    }
}

proof fn lemma_digit_char(k: nat)
    requires
        k < 10,
    ensures
        is_digit(crate::strs::digit_char(k)),
        digit_value(crate::strs::digit_char(k)) == k,
{
}

/// A decimal form parses back to its value.
pub proof fn lemma_parse_decimal(n: nat, max: nat)
    requires
        n <= max,
    ensures
        parse_unsigned(crate::strs::decimal(n), max) == Some(n),
{
    lemma_decimal_reads_back(n);
    let d = crate::strs::decimal(n);
    assert(is_digit(d[0]));
    assert(unsigned_digits(d) == d);
}

} // verus!

//! Character-level helpers shared by the renderers.

use vstd::prelude::*;

verus! {

/// The characters of `s`, in order (`str::chars` collected into a `Vec`).
#[verifier::external_body]
pub(crate) fn chars_of(s: &str) -> (r: Vec<char>)
    ensures
        r@ == s@,
{
    s.chars().collect()
}

/// Appends one character (`String::push`).
#[verifier::external_body]
pub(crate) fn push_char(s: &mut String, c: char)
    ensures
        final(s)@ == old(s)@.push(c),
{
    s.push(c);
}

/// Builds a `String` holding exactly the given characters (`FromIterator<char>`).
#[verifier::external_body]
pub(crate) fn string_of(v: &[char]) -> (r: String)
    ensures
        r@ == v@,
{
    v.iter().collect()
}

} // verus!

verus! {

/// Appends `s[from..to]` to `out`.
pub fn push_range(out: &mut String, s: &Vec<char>, from: usize, to: usize)
    requires
        from <= to <= s@.len(),
    ensures
        final(out)@ == old(out)@ + s@.subrange(from as int, to as int),
{
    let ghost start = out@;
    let mut k = from;
    while k < to
        invariant
            from <= k <= to <= s@.len(),
            out@ == start + s@.subrange(from as int, k as int),
        decreases to - k,
    {
        push_char(out, s[k]);
        k += 1;
        assert(out@ =~= start + s@.subrange(from as int, k as int));
    }
}

} // verus!

verus! {

/// Appends `n` copies of `c` to `out`.
pub fn push_repeat(out: &mut String, c: char, n: usize)
    ensures
        final(out)@ == old(out)@ + crate::escape::repeat(c, n as nat),
{
    let ghost start = out@;
    let mut k: usize = 0;
    while k < n
        invariant
            k <= n,
            out@ == start + crate::escape::repeat(c, k as nat),
        decreases n - k,
    {
        push_char(out, c);
        k += 1;
        assert(out@ =~= start + crate::escape::repeat(c, k as nat));
    }
}

} // verus!

verus! {

/// The ASCII digit for `d < 10`.
pub open spec fn digit_char(d: nat) -> char {
    if d == 0 {
        '0'
    } else if d == 1 {
        '1'
    } else if d == 2 {
        '2'
    } else if d == 3 {
        '3'
    } else if d == 4 {
        '4'
    } else if d == 5 {
        '5'
    } else if d == 6 {
        '6'
    } else if d == 7 {
        '7'
    } else if d == 8 {
        '8'
    } else {
        '9'
    }
}

/// The decimal digits of `n`, most significant first, as `{}` formats it.
pub open spec fn decimal(n: nat) -> Seq<char>
    decreases n,
{
    if n < 10 {
        seq![digit_char(n)]
    } else {
        decimal(n / 10) + seq![digit_char(n % 10)]
    }
}

fn digit_exec(d: u64) -> (c: char)
    requires
        d < 10,
    ensures
        c == digit_char(d as nat),
{
    if d == 0 {
        '0'
    } else if d == 1 {
        '1'
    } else if d == 2 {
        '2'
    } else if d == 3 {
        '3'
    } else if d == 4 {
        '4'
    } else if d == 5 {
        '5'
    } else if d == 6 {
        '6'
    } else if d == 7 {
        '7'
    } else if d == 8 {
        '8'
    } else {
        '9'
    }
}

/// Appends the decimal form of `n`.
pub fn push_decimal(out: &mut String, n: u64)
    ensures
        final(out)@ == old(out)@ + decimal(n as nat),
    decreases n,
{
    if n < 10 {
        push_char(out, digit_exec(n));
    } else {
        push_decimal(out, n / 10);
        push_char(out, digit_exec(n % 10));
    }
}

/// The decimal form of `n`, as a new string.
pub fn decimal_string(n: u64) -> (r: String)
    ensures
        r@ == decimal(n as nat),
{
    let mut r = String::new();
    push_decimal(&mut r, n);
    r
}

/// A decimal form is never empty and never longer than 20 digits for a `u64`.
pub proof fn lemma_decimal_len(n: nat)
    ensures
        1 <= decimal(n).len(),
        n < 10 ==> decimal(n).len() == 1,
        n <= u64::MAX ==> decimal(n).len() <= 20,
{
    lemma_decimal_len_lower(n);
    if decimal(n).len() > 20 {
        lemma_pow10_monotone(20, (decimal(n).len() - 1) as nat);
        assert(pow10(20) == 100_000_000_000_000_000_000) by {
            reveal_with_fuel(pow10, 21);
        }
    }
}

/// `k` digits mean a value of at least `10^(k-1)`.
proof fn lemma_decimal_len_lower(n: nat)
    ensures
        1 <= decimal(n).len(),
        decimal(n).len() >= 2 ==> n >= pow10((decimal(n).len() - 1) as nat),
    decreases n,
{
    if n >= 10 {
        lemma_decimal_len_lower(n / 10);
        let k = decimal(n / 10).len();
        if k >= 2 {
            assert(pow10(k) == 10 * pow10((k - 1) as nat));
        } else {
            assert(pow10(1) == 10) by {
                reveal_with_fuel(pow10, 2);
            }
        }
    }
}

proof fn lemma_pow10_monotone(a: nat, b: nat)
    requires
        a <= b,
    ensures
        pow10(a) <= pow10(b),
    decreases b,
{
    if a < b {
        lemma_pow10_monotone(a, (b - 1) as nat);
    }
}

/// `10^k`.
pub open spec fn pow10(k: nat) -> nat
    decreases k,
{
    if k == 0 {
        1
    } else {
        10 * pow10((k - 1) as nat)
    }
}

} // verus!

verus! {

/// Index of the first `c` in `s` at or after `i`, or `s.len()` when there is none.
pub open spec fn find_from(s: Seq<char>, i: int, c: char) -> int
    decreases s.len() - i,
{
    if i < 0 || i >= s.len() {
        s.len() as int
    } else if s[i] == c {
        i
    } else {
        find_from(s, i + 1, c)
    }
}

pub proof fn lemma_find_from(s: Seq<char>, i: int, c: char)
    requires
        0 <= i <= s.len(),
    ensures
        i <= find_from(s, i, c) <= s.len(),
        find_from(s, i, c) < s.len() ==> s[find_from(s, i, c)] == c,
        forall|j: int| i <= j < find_from(s, i, c) ==> s[j] != c,
    decreases s.len() - i,
{
    if i < s.len() && s[i] != c {
        lemma_find_from(s, i + 1, c);
    }
}

/// Index of the first `c` in `s[i..]`, or `s.len()`.
pub fn find_char(s: &Vec<char>, i: usize, c: char) -> (r: usize)
    requires
        i <= s@.len(),
    ensures
        r == find_from(s@, i as int, c),
        i <= r <= s@.len(),
{
    proof {
        lemma_find_from(s@, i as int, c);
    }
    let mut k = i;
    while k < s.len()
        invariant
            i <= k <= s@.len(),
            find_from(s@, i as int, c) == find_from(s@, k as int, c),
        decreases s@.len() - k,
    {
        if s[k] == c {
            return k;
        }
        k += 1;
    }
    s.len()
}

/// `s[from..to]` as a new vector.
pub fn sub_vec(s: &Vec<char>, from: usize, to: usize) -> (r: Vec<char>)
    requires
        from <= to <= s@.len(),
    ensures
        r@ == s@.subrange(from as int, to as int),
{
    vstd::slice::slice_to_vec(vstd::slice::slice_subrange(s.as_slice(), from, to))
}

/// `s[from..to]` as a new string.
pub fn sub_string(s: &Vec<char>, from: usize, to: usize) -> (r: String)
    requires
        from <= to <= s@.len(),
    ensures
        r@ == s@.subrange(from as int, to as int),
{
    string_of(vstd::slice::slice_subrange(s.as_slice(), from, to))
}

/// Unicode `White_Space`, the property `char::is_whitespace` tests.
pub open spec fn is_ws(c: char) -> bool {
    let n = c as u32;
    (0x09 <= n && n <= 0x0d) || n == 0x20 || n == 0x85 || n == 0xa0 || n == 0x1680 || (0x2000 <= n && n
        <= 0x200a) || n == 0x2028 || n == 0x2029 || n == 0x202f || n == 0x205f || n == 0x3000
}

pub fn is_ws_exec(c: char) -> (r: bool)
    ensures
        r == is_ws(c),
{
    let n = c as u32;
    (0x09 <= n && n <= 0x0d) || n == 0x20 || n == 0x85 || n == 0xa0 || n == 0x1680 || (0x2000 <= n && n
        <= 0x200a) || n == 0x2028 || n == 0x2029 || n == 0x202f || n == 0x205f || n == 0x3000
}

/// Index of the first non-whitespace character at or after `i`, or `s.len()`.
pub open spec fn skip_ws(s: Seq<char>, i: int) -> int
    decreases s.len() - i,
{
    if i < 0 || i >= s.len() {
        s.len() as int
    } else if is_ws(s[i]) {
        skip_ws(s, i + 1)
    } else {
        i
    }
}

/// One past the last non-whitespace character before `j`, or `lo`.
pub open spec fn skip_ws_back(s: Seq<char>, lo: int, j: int) -> int
    decreases j - lo,
{
    if j <= lo || j > s.len() {
        lo
    } else if is_ws(s[j - 1]) {
        skip_ws_back(s, lo, j - 1)
    } else {
        j
    }
}

/// `s` without leading and trailing whitespace (`str::trim`).
pub open spec fn trim(s: Seq<char>) -> Seq<char> {
    let a = skip_ws(s, 0);
    s.subrange(a, skip_ws_back(s, a, s.len() as int))
}

pub proof fn lemma_skip_ws(s: Seq<char>, i: int)
    requires
        0 <= i <= s.len(),
    ensures
        i <= skip_ws(s, i) <= s.len(),
    decreases s.len() - i,
{
    if i < s.len() && is_ws(s[i]) {
        lemma_skip_ws(s, i + 1);
    }
}

pub proof fn lemma_skip_ws_back(s: Seq<char>, lo: int, j: int)
    requires
        0 <= lo <= j <= s.len(),
    ensures
        lo <= skip_ws_back(s, lo, j) <= j,
    decreases j - lo,
{
    if j > lo && is_ws(s[j - 1]) {
        lemma_skip_ws_back(s, lo, j - 1);
    }
}

/// The bounds of `s` once trimmed.
pub fn trim_bounds(s: &Vec<char>) -> (r: (usize, usize))
    ensures
        r.0 <= r.1 <= s@.len(),
        s@.subrange(r.0 as int, r.1 as int) == trim(s@),
{
    proof {
        lemma_skip_ws(s@, 0);
    }
    let mut a: usize = 0;
    while a < s.len() && is_ws_exec(s[a])
        invariant
            a <= s@.len(),
            skip_ws(s@, 0) == skip_ws(s@, a as int),
        decreases s@.len() - a,
    {
        a += 1;
    }
    proof {
        lemma_skip_ws_back(s@, a as int, s@.len() as int);
    }
    let mut b: usize = s.len();
    while b > a && is_ws_exec(s[b - 1])
        invariant
            a <= b <= s@.len(),
            skip_ws(s@, 0) == a,
            skip_ws_back(s@, a as int, s@.len() as int) == skip_ws_back(s@, a as int, b as int),
        decreases b - a,
    {
        b -= 1;
    }
    (a, b)
}

/// `s` trimmed, as a new string.
pub fn trim_string(s: &Vec<char>) -> (r: String)
    ensures
        r@ == trim(s@),
{
    let (a, b) = trim_bounds(s);
    sub_string(s, a, b)
}

/// ASCII letters lowercased, everything else unchanged (`to_ascii_lowercase`).
pub open spec fn ascii_lower(c: char) -> char {
    if 0x41 <= (c as u32) && (c as u32) <= 0x5a {
        ((c as u32) + 32) as char
    } else {
        c
    }
}

pub open spec fn lower(s: Seq<char>) -> Seq<char> {
    s.map_values(|c: char| ascii_lower(c))
}

pub fn ascii_lower_exec(c: char) -> (r: char)
    ensures
        r == ascii_lower(c),
{
    if 'A' <= c && c <= 'Z' {
        ((c as u8) + 32) as char
    } else {
        c
    }
}

/// `s` with ASCII letters lowercased.
pub fn lower_vec(s: &Vec<char>) -> (r: Vec<char>)
    ensures
        r@ == lower(s@),
{
    let mut r: Vec<char> = Vec::new();
    let mut i: usize = 0;
    while i < s.len()
        invariant
            i <= s@.len(),
            r@ == lower(s@.subrange(0, i as int)),
        decreases s@.len() - i,
    {
        r.push(ascii_lower_exec(s[i]));
        i += 1;
        assert(r@ =~= lower(s@.subrange(0, i as int)));
    }
    assert(s@.subrange(0, i as int) =~= s@);
    r
}

/// `s[i..]` starts with `p`.
pub open spec fn starts_with_at(s: Seq<char>, i: int, p: Seq<char>) -> bool {
    0 <= i && i + p.len() <= s.len() && s.subrange(i, i + p.len()) == p
}

pub fn starts_with_at_exec(s: &Vec<char>, i: usize, p: &Vec<char>) -> (r: bool)
    ensures
        r == starts_with_at(s@, i as int, p@),
{
    if i > s.len() || p.len() > s.len() - i {
        return false;
    }
    let sl = s.len();
    let mut k: usize = 0;
    while k < p.len()
        invariant
            k <= p@.len(),
            sl == s@.len(),
            i + p@.len() <= sl,
            forall|j: int| 0 <= j < k ==> s@[i + j] == p@[j],
        decreases p@.len() - k,
    {
        assert(i + k < sl);
        if s[i + k] != p[k] {
            assert(s@.subrange(i as int, i + p@.len())[k as int] != p@[k as int]);
            return false;
        }
        k += 1;
    }
    assert(s@.subrange(i as int, i + p@.len()) =~= p@);
    true
}

/// Index of the first occurrence of `p` in `s` at or after `i`.
pub open spec fn find_sub_from(s: Seq<char>, i: int, p: Seq<char>) -> Option<int>
    decreases s.len() + 1 - i,
{
    if i < 0 || i > s.len() {
        None
    } else if starts_with_at(s, i, p) {
        Some(i)
    } else {
        find_sub_from(s, i + 1, p)
    }
}

pub proof fn lemma_find_sub_from(s: Seq<char>, i: int, p: Seq<char>)
    ensures
        find_sub_from(s, i, p) matches Some(k) ==> i <= k && starts_with_at(s, k, p),
    decreases s.len() + 1 - i,
{
    if 0 <= i <= s.len() && !starts_with_at(s, i, p) {
        lemma_find_sub_from(s, i + 1, p);
    }
}

/// Index of the first occurrence of `p` in `s[i..]`.
pub fn find_sub(s: &Vec<char>, i: usize, p: &Vec<char>) -> (r: Option<usize>)
    requires
        i <= s@.len(),
    ensures
        r == (match find_sub_from(s@, i as int, p@) {
            Some(k) => Some(k as usize),
            None => None::<usize>,
        }),
        r matches Some(k) ==> i <= k && k + p@.len() <= s@.len() && find_sub_from(s@, i as int, p@)
            == Some(k as int),
{
    proof {
        lemma_find_sub_from(s@, i as int, p@);
    }
    let mut k = i;
    while k <= s.len()
        invariant
            i <= k <= s@.len() + 1,
            find_sub_from(s@, i as int, p@) == find_sub_from(s@, k as int, p@),
        decreases s@.len() + 1 - k,
    {
        if starts_with_at_exec(s, k, p) {
            proof {
                lemma_find_sub_from(s@, k as int, p@);
            }
            return Some(k);
        }
        if k == s.len() {
            assert(find_sub_from(s@, k + 1, p@) is None);
            return None;
        }
        k += 1;
    }
    None
}

} // verus!

verus! {

/// `n` is a Unicode scalar value: at most U+10FFFF and not a surrogate.
pub open spec fn is_scalar(n: u32) -> bool {
    n <= 0x10ffff && !(0xd800 <= n && n <= 0xdfff)
}

/// `char::from_u32`: the character `n` when it is a Unicode scalar value,
/// `None` otherwise, as std documents it.
#[verifier::external_body]
pub(crate) fn char_from_u32(n: u32) -> (r: Option<char>)
    ensures
        r == (if is_scalar(n) {
            Some(n as char)
        } else {
            None::<char>
        }),
{
    char::from_u32(n)
}

/// Index of the first character other than `c` at or after `i`, or `s.len()`.
pub open spec fn skip_char(s: Seq<char>, i: int, c: char) -> int
    decreases s.len() - i,
{
    if i < 0 || i >= s.len() {
        s.len() as int
    } else if s[i] == c {
        skip_char(s, i + 1, c)
    } else {
        i
    }
}

pub proof fn lemma_skip_char(s: Seq<char>, i: int, c: char)
    requires
        0 <= i <= s.len(),
    ensures
        i <= skip_char(s, i, c) <= s.len(),
    decreases s.len() - i,
{
    if i < s.len() && s[i] == c {
        lemma_skip_char(s, i + 1, c);
    }
}

/// Index of the first whitespace character at or after `i`, or `s.len()`.
pub open spec fn find_ws(s: Seq<char>, i: int) -> int
    decreases s.len() - i,
{
    if i < 0 || i >= s.len() {
        s.len() as int
    } else if is_ws(s[i]) {
        i
    } else {
        find_ws(s, i + 1)
    }
}

pub proof fn lemma_find_ws(s: Seq<char>, i: int)
    requires
        0 <= i <= s.len(),
    ensures
        i <= find_ws(s, i) <= s.len(),
    decreases s.len() - i,
{
    if i < s.len() && !is_ws(s[i]) {
        lemma_find_ws(s, i + 1);
    }
}

/// Whether two strings hold the same characters.
pub fn str_is(a: &str, b: &str) -> (r: bool)
    ensures
        r == (a@ == b@),
{
    let x = chars_of(a);
    let y = chars_of(b);
    crate::numeric::chars_eq(&x, &y)
}

} // verus!

//! Character-level groundwork shared by the three decoders: conversion
//! between `str` and `Vec<char>`, line and field splitting, and the
//! decimal integer grammar.

use vstd::prelude::*;

verus! {

// ---------------------------------------------------------------------
// Digits and decimal integers
// ---------------------------------------------------------------------

/// A decimal digit `'0'..='9'`.
pub open spec fn is_digit(c: char) -> bool {
    48 <= c as int <= 57
}

/// Numeric value of a decimal digit.
pub open spec fn digit_val(c: char) -> int {
    c as int - 48
}

/// Every character of `s` is a decimal digit.
pub open spec fn all_digits(s: Seq<char>) -> bool {
    forall|i: int| 0 <= i < s.len() ==> is_digit(#[trigger] s[i])
}

/// The value of a run of decimal digits, most significant first.
pub open spec fn digits_value(s: Seq<char>) -> int
    decreases s.len(),
{
    if s.len() == 0 {
        0
    } else {
        digits_value(s.drop_last()) * 10 + digit_val(s.last())
    }
}

/// `s` with one leading `'+'` or `'-'` removed, if present.
pub open spec fn unsigned_part(s: Seq<char>) -> Seq<char> {
    if s.len() > 0 && (s[0] == '+' || s[0] == '-') {
        s.subrange(1, s.len() as int)
    } else {
        s
    }
}

/// `s` is a decimal integer: an optional sign followed by one or more digits.
pub open spec fn is_int_text(s: Seq<char>) -> bool {
    unsigned_part(s).len() > 0 && all_digits(unsigned_part(s))
}

/// The signed value of a decimal integer text.
pub open spec fn int_text_value(s: Seq<char>) -> int {
    if s.len() > 0 && s[0] == '-' {
        -digits_value(unsigned_part(s))
    } else {
        digits_value(unsigned_part(s))
    }
}

/// What parsing `s` as an `i32` yields: the value when `s` is an integer
/// text in range, nothing otherwise.
pub open spec fn spec_parse_i32(s: Seq<char>) -> Option<i32> {
    if is_int_text(s) && i32::MIN <= int_text_value(s) <= i32::MAX {
        Some(int_text_value(s) as i32)
    } else {
        None
    }
}

/// What parsing `s` as an `i64` yields.
pub open spec fn spec_parse_i64(s: Seq<char>) -> Option<i64> {
    if is_int_text(s) && i64::MIN <= int_text_value(s) <= i64::MAX {
        Some(int_text_value(s) as i64)
    } else {
        None
    }
}

/// What parsing `s` as a `u32` yields; a leading `'-'` is never accepted.
pub open spec fn spec_parse_u32(s: Seq<char>) -> Option<u32> {
    if is_int_text(s) && !(s.len() > 0 && s[0] == '-') && int_text_value(s) <= u32::MAX {
        Some(int_text_value(s) as u32)
    } else {
        None
    }
}

/// A run of digits is worth at least any of its prefixes, and at least 0.
pub proof fn lemma_digits_value_bounds(s: Seq<char>, k: int)
    requires
        0 <= k <= s.len(),
        all_digits(s),
    ensures
        digits_value(s) >= digits_value(s.take(k)) >= 0,
    decreases s.len() - k,
{
    lemma_digits_value_nonneg(s.take(k));
    if k < s.len() {
        assert(s.take(k + 1).drop_last() =~= s.take(k));
        assert(s.take(k + 1).last() == s[k]);
        assert(digits_value(s.take(k + 1)) == digits_value(s.take(k)) * 10 + digit_val(s[k]));
        lemma_digits_value_nonneg(s.take(k));
        assert(digits_value(s.take(k)) * 10 >= digits_value(s.take(k)));
        lemma_digits_value_bounds(s, k + 1);
        assert(s.take(s.len() as int) =~= s);
    } else {
        assert(s.take(k) =~= s);
    }
}

/// A run of digits is never worth less than 0.
pub proof fn lemma_digits_value_nonneg(s: Seq<char>)
    requires
        all_digits(s),
    ensures
        digits_value(s) >= 0,
    decreases s.len(),
{
    if s.len() > 0 {
        assert(all_digits(s.drop_last()));
        lemma_digits_value_nonneg(s.drop_last());
    }
}

/// Reads the digit run `v[from..to]` into an accumulator, refusing values
/// above `cap` and anything that is not a pure digit run.
pub fn parse_digits_capped(v: &Vec<char>, from: usize, to: usize, cap: u64) -> (r: Option<u64>)
    requires
        from <= to <= v@.len(),
    ensures
        ({
            let s = v@.subrange(from as int, to as int);
            if s.len() > 0 && all_digits(s) && digits_value(s) <= cap {
                r == Some(digits_value(s) as u64)
            } else {
                r == None::<u64>
            }
        }),
{
    let ghost s = v@.subrange(from as int, to as int);
    if from == to {
        return None;
    }
    let mut acc: u128 = 0;
    let mut i: usize = from;
    while i < to
        invariant
            from <= i <= to <= v@.len(),
            s == v@.subrange(from as int, to as int),
            all_digits(s.take(i - from)),
            acc == digits_value(s.take(i - from)),
            acc <= cap,
            cap <= u64::MAX,
        decreases to - i,
    {
        let c = v[i];
        if c < '0' || c > '9' {
            assert(!is_digit(s[i - from]));
            assert(!all_digits(s));
            return None;
        }
        let dv = (c as u32 - 48) as u128;
        assert(acc * 10 + dv < u128::MAX) by (nonlinear_arith)
            requires
                acc <= u64::MAX,
                dv <= 9,
        ;
        let next = acc * 10 + dv;
        proof {
            assert(c == s[i - from]);
            assert(is_digit(s[i - from]));
            assert(dv == digit_val(s[i - from]));
            assert(s.take(i - from + 1).drop_last() =~= s.take(i - from));
            assert(s.take(i - from + 1).last() == s[i - from]);
            assert(digits_value(s.take(i - from + 1)) == digits_value(s.take(i - from)) * 10
                + digit_val(s[i - from]));
            assert forall|j: int| 0 <= j < i - from + 1 implies is_digit(
                #[trigger] s.take(i - from + 1)[j],
            ) by {
                assert(s.take(i - from + 1)[j] == s[j]);
                if j < i - from {
                    assert(is_digit(s.take(i - from)[j]));
                }
            }
        }
        if next > cap as u128 {
            proof {
                if all_digits(s) && digits_value(s) <= cap {
                    lemma_digits_value_bounds(s, i - from + 1);
                }
            }
            return None;
        }
        acc = next;
        i = i + 1;
    }
    proof {
        assert(s.take(to - from) =~= s);
    }
    Some(acc as u64)
}

} // verus!

verus! {

/// Parses `v[from..to]` as an `i32`, exactly as the decimal integer
/// grammar above allows.
pub fn parse_i32_range(v: &Vec<char>, from: usize, to: usize) -> (r: Option<i32>)
    requires
        from <= to <= v@.len(),
    ensures
        r == spec_parse_i32(v@.subrange(from as int, to as int)),
{
    let ghost s = v@.subrange(from as int, to as int);
    if from == to {
        return None;
    }
    let c0 = v[from];
    let neg = c0 == '-';
    let start: usize = if c0 == '-' || c0 == '+' {
        from + 1
    } else {
        from
    };
    let ghost d = unsigned_part(s);
    proof {
        assert(d =~= v@.subrange(start as int, to as int));
    }
    let cap: u64 = if neg {
        2147483648
    } else {
        2147483647
    };
    match parse_digits_capped(v, start, to, cap) {
        Some(m) => {
            proof {
                assert(d.len() > 0 && all_digits(d) && digits_value(d) <= cap);
                lemma_digits_value_nonneg(d);
                assert(m == digits_value(d));
                assert(is_int_text(s));
            }
            if neg {
                let x: i64 = -(m as i64);
                assert(int_text_value(s) == x);
                Some(x as i32)
            } else {
                assert(int_text_value(s) == m);
                Some(m as i32)
            }
        },
        None => {
            proof {
                if is_int_text(s) {
                    lemma_digits_value_nonneg(d);
                    assert(digits_value(d) > cap);
                }
            }
            None
        },
    }
}

/// Parses `v[from..to]` as an `i64`.
pub fn parse_i64_range(v: &Vec<char>, from: usize, to: usize) -> (r: Option<i64>)
    requires
        from <= to <= v@.len(),
    ensures
        r == spec_parse_i64(v@.subrange(from as int, to as int)),
{
    let ghost s = v@.subrange(from as int, to as int);
    if from == to {
        return None;
    }
    let c0 = v[from];
    let neg = c0 == '-';
    let start: usize = if c0 == '-' || c0 == '+' {
        from + 1
    } else {
        from
    };
    let ghost d = unsigned_part(s);
    proof {
        assert(d =~= v@.subrange(start as int, to as int));
    }
    let cap: u64 = if neg {
        9223372036854775808
    } else {
        9223372036854775807
    };
    match parse_digits_capped(v, start, to, cap) {
        Some(m) => {
            proof {
                assert(d.len() > 0 && all_digits(d) && digits_value(d) <= cap);
                lemma_digits_value_nonneg(d);
                assert(m == digits_value(d));
                assert(is_int_text(s));
            }
            if neg {
                let x: i128 = -(m as i128);
                assert(int_text_value(s) == x);
                Some(x as i64)
            } else {
                assert(int_text_value(s) == m);
                Some(m as i64)
            }
        },
        None => {
            proof {
                if is_int_text(s) {
                    lemma_digits_value_nonneg(d);
                    assert(digits_value(d) > cap);
                }
            }
            None
        },
    }
}

/// Parses `v[from..to]` as a `u32`; a minus sign is never accepted.
pub fn parse_u32_range(v: &Vec<char>, from: usize, to: usize) -> (r: Option<u32>)
    requires
        from <= to <= v@.len(),
    ensures
        r == spec_parse_u32(v@.subrange(from as int, to as int)),
{
    let ghost s = v@.subrange(from as int, to as int);
    if from == to {
        return None;
    }
    let c0 = v[from];
    if c0 == '-' {
        return None;
    }
    let start: usize = if c0 == '+' {
        from + 1
    } else {
        from
    };
    let ghost d = unsigned_part(s);
    proof {
        assert(d =~= v@.subrange(start as int, to as int));
    }
    match parse_digits_capped(v, start, to, 4294967295) {
        Some(m) => {
            proof {
                assert(d.len() > 0 && all_digits(d) && digits_value(d) <= u32::MAX);
                lemma_digits_value_nonneg(d);
                assert(m == digits_value(d));
                assert(is_int_text(s));
            }
            assert(int_text_value(s) == m);
            Some(m as u32)
        },
        None => {
            proof {
                if is_int_text(s) {
                    lemma_digits_value_nonneg(d);
                    assert(digits_value(d) > u32::MAX);
                }
            }
            None
        },
    }
}

// ---------------------------------------------------------------------
// Conversions between strings and character vectors
// ---------------------------------------------------------------------

/// The characters of `s`, in order.
pub fn to_chars(s: &str) -> (v: Vec<char>)
    ensures
        v@ == s@,
{
    let n = s.unicode_len();
    let mut v: Vec<char> = Vec::new();
    let mut i: usize = 0;
    while i < n
        invariant
            i <= n,
            n == s@.len(),
            v@ == s@.take(i as int),
        decreases n - i,
    {
        let c = s.get_char(i);
        v.push(c);
        proof {
            assert(v@ =~= s@.take(i + 1));
        }
        i = i + 1;
    }
    proof {
        assert(s@.take(n as int) =~= s@);
    }
    v
}

/// Relies on `String`'s `FromIterator<char>` impl: collecting an
/// iterator of characters yields the string of exactly those characters.
#[verifier::external_body]
pub fn chars_to_string(v: &Vec<char>) -> (s: String)
    ensures
        s@ == v@,
{
    v.iter().collect()
}

/// A copy of `v[from..to]`.
pub fn subvec(v: &Vec<char>, from: usize, to: usize) -> (r: Vec<char>)
    requires
        from <= to <= v@.len(),
    ensures
        r@ == v@.subrange(from as int, to as int),
{
    let mut r: Vec<char> = Vec::new();
    let mut i: usize = from;
    while i < to
        invariant
            from <= i <= to <= v@.len(),
            r@ == v@.subrange(from as int, i as int),
        decreases to - i,
    {
        r.push(v[i]);
        proof {
            assert(v@.subrange(from as int, i as int).push(v@[i as int]) =~= v@.subrange(
                from as int,
                i + 1,
            ));
        }
        i = i + 1;
    }
    r
}

} // verus!

verus! {

// ---------------------------------------------------------------------
// Splitting on a CRLF terminator and on a single separator character
// ---------------------------------------------------------------------

/// A carriage return and line feed stand at position `i` of `s`.
pub open spec fn has_crlf_at(s: Seq<char>, i: int) -> bool {
    0 <= i && i + 2 <= s.len() && s[i] == '\r' && s[i + 1] == '\n'
}

/// Index of the first CRLF pair of `s`, or `s.len()` when there is none.
pub open spec fn find_crlf(s: Seq<char>) -> int
    decreases s.len(),
{
    if s.len() < 2 {
        s.len() as int
    } else if s[0] == '\r' && s[1] == '\n' {
        0
    } else {
        1 + find_crlf(s.subrange(1, s.len() as int))
    }
}

pub proof fn lemma_find_crlf(s: Seq<char>)
    ensures
        0 <= find_crlf(s) <= s.len(),
        find_crlf(s) + 2 <= s.len() ==> has_crlf_at(s, find_crlf(s)),
        forall|j: int| 0 <= j < find_crlf(s) ==> !has_crlf_at(s, j),
        find_crlf(s) + 2 > s.len() ==> find_crlf(s) == s.len(),
    decreases s.len(),
{
    if s.len() < 2 {
    } else if s[0] == '\r' && s[1] == '\n' {
    } else {
        let t = s.subrange(1, s.len() as int);
        lemma_find_crlf(t);
        assert forall|j: int| 0 <= j < find_crlf(s) implies !has_crlf_at(s, j) by {
            if j >= 1 {
                assert(t[j - 1] == s[j]);
                if j + 2 <= s.len() {
                    assert(t[j] == s[j + 1]);
                }
                assert(!has_crlf_at(t, j - 1));
            }
        }
        if find_crlf(t) + 2 <= t.len() {
            assert(t[find_crlf(t)] == s[find_crlf(s)]);
            assert(t[find_crlf(t) + 1] == s[find_crlf(s) + 1]);
        }
    }
}

/// A position that carries a CRLF pair with none before it is exactly
/// `find_crlf`; so is `s.len()` when no pair exists at all.
pub proof fn lemma_find_crlf_unique(s: Seq<char>, k: int)
    requires
        0 <= k <= s.len(),
        forall|j: int| 0 <= j < k ==> !has_crlf_at(s, j),
        k + 2 <= s.len() ==> has_crlf_at(s, k),
        k + 2 > s.len() ==> k == s.len(),
    ensures
        find_crlf(s) == k,
{
    lemma_find_crlf(s);
    let f = find_crlf(s);
    if f < k {
        assert(f + 2 <= s.len());
        assert(has_crlf_at(s, f));
        assert(!has_crlf_at(s, f));
    } else if k < f {
        assert(k + 2 <= s.len());
        assert(has_crlf_at(s, k));
        assert(!has_crlf_at(s, k));
    }
}

/// The pieces of `s` between CRLF terminators; a final piece without a
/// terminator still counts, a final terminator adds no empty piece.
pub open spec fn spec_split_crlf(s: Seq<char>) -> Seq<Seq<char>>
    decreases s.len(),
{
    if s.len() == 0 {
        Seq::empty()
    } else {
        let i = find_crlf_clipped(s);
        if i + 2 <= s.len() {
            seq![s.subrange(0, i)] + spec_split_crlf(s.subrange(i + 2, s.len() as int))
        } else {
            seq![s]
        }
    }
}

/// `find_crlf`, clipped into `[0, s.len()]` so that recursion on it is
/// visibly well founded.
pub open spec fn find_crlf_clipped(s: Seq<char>) -> int {
    let i = find_crlf(s);
    if 0 <= i <= s.len() {
        i
    } else {
        s.len() as int
    }
}

/// Splits `v` into its CRLF-terminated pieces.
pub fn split_crlf(v: &Vec<char>) -> (r: Vec<Vec<char>>)
    ensures
        r.deep_view() == spec_split_crlf(v@),
{
    let n = v.len();
    let mut r: Vec<Vec<char>> = Vec::new();
    let mut p: usize = 0;
    proof {
        assert(v@.subrange(0, n as int) =~= v@);
        assert(r.deep_view() + spec_split_crlf(v@) =~= spec_split_crlf(v@));
    }
    while p < n
        invariant
            p <= n,
            n == v@.len(),
            spec_split_crlf(v@) == r.deep_view() + spec_split_crlf(
                v@.subrange(p as int, n as int),
            ),
        decreases n - p,
    {
        let ghost suffix = v@.subrange(p as int, n as int);
        // scan for the next CRLF pair
        let mut k: usize = p;
        while k < n - 1 && !(v[k] == '\r' && v[k + 1] == '\n')
            invariant
                p < n,
                p <= k <= n,
                n == v@.len(),
                forall|j: int| p <= j < k ==> !has_crlf_at(v@, j),
            decreases n - k,
        {
            k = k + 1;
        }
        let found = k < n - 1;
        if !found {
            k = n;
        }
        proof {
            assert forall|j: int| 0 <= j < k - p implies !has_crlf_at(suffix, j) by {
                assert(suffix[j] == v@[p + j]);
                if j + 2 <= suffix.len() {
                    assert(suffix[j + 1] == v@[p + j + 1]);
                }
                assert(!has_crlf_at(v@, p + j));
            }
            if found {
                assert(suffix[k - p] == v@[k as int]);
                assert(suffix[k - p + 1] == v@[k + 1]);
                assert(has_crlf_at(suffix, k - p));
            }
            lemma_find_crlf_unique(suffix, k - p);
        }
        if found {
            let piece = subvec(v, p, k);
            proof {
                assert(piece@ =~= suffix.subrange(0, k - p));
                assert(suffix.subrange(k - p + 2, suffix.len() as int) =~= v@.subrange(
                    k + 2,
                    n as int,
                ));
                assert(spec_split_crlf(suffix) == seq![piece@] + spec_split_crlf(
                    v@.subrange(k + 2, n as int),
                ));
            }
            let ghost prev = r.deep_view();
            r.push(piece);
            proof {
                assert(piece.deep_view() =~= piece@);
                assert(r.deep_view() =~= prev.push(piece@));
                assert(prev.push(piece@) =~= prev + seq![piece@]);
            }
            p = k + 2;
        } else {
            let piece = subvec(v, p, n);
            proof {
                assert(piece@ =~= suffix);
                assert(spec_split_crlf(suffix) == seq![piece@]);
            }
            let ghost prev = r.deep_view();
            r.push(piece);
            proof {
                assert(piece.deep_view() =~= piece@);
                assert(r.deep_view() =~= prev.push(piece@));
                assert(prev.push(piece@) =~= prev + seq![piece@]);
            }
            p = n;
        }
        proof {
            assert(spec_split_crlf(v@) =~= r.deep_view() + spec_split_crlf(
                v@.subrange(p as int, n as int),
            ));
        }
    }
    proof {
        assert(v@.subrange(n as int, n as int) =~= Seq::<char>::empty());
        assert(spec_split_crlf(v@) =~= r.deep_view());
    }
    r
}

} // verus!

verus! {

/// Index of the first occurrence of `c` in `s`, or `s.len()` when absent.
pub open spec fn find_char(s: Seq<char>, c: char) -> int
    decreases s.len(),
{
    if s.len() == 0 {
        0
    } else if s[0] == c {
        0
    } else {
        1 + find_char(s.subrange(1, s.len() as int), c)
    }
}

pub proof fn lemma_find_char(s: Seq<char>, c: char)
    ensures
        0 <= find_char(s, c) <= s.len(),
        find_char(s, c) < s.len() ==> s[find_char(s, c)] == c,
        forall|j: int| 0 <= j < find_char(s, c) ==> s[j] != c,
    decreases s.len(),
{
    if s.len() == 0 {
    } else if s[0] == c {
    } else {
        let t = s.subrange(1, s.len() as int);
        lemma_find_char(t, c);
        assert forall|j: int| 0 <= j < find_char(s, c) implies s[j] != c by {
            if j >= 1 {
                assert(t[j - 1] == s[j]);
            }
        }
        if find_char(t, c) < t.len() {
            assert(t[find_char(t, c)] == s[find_char(s, c)]);
        }
    }
}

/// A position holding `c` with none before it is exactly `find_char`;
/// so is `s.len()` when `c` is absent.
pub proof fn lemma_find_char_unique(s: Seq<char>, c: char, k: int)
    requires
        0 <= k <= s.len(),
        forall|j: int| 0 <= j < k ==> s[j] != c,
        k < s.len() ==> s[k] == c,
    ensures
        find_char(s, c) == k,
{
    lemma_find_char(s, c);
    let f = find_char(s, c);
    if f < k {
        assert(s[f] == c);
        assert(s[f] != c);
    } else if k < f {
        assert(s[k] == c);
        assert(s[k] != c);
    }
}

/// `find_char`, clipped into `[0, s.len()]`.
pub open spec fn find_char_clipped(s: Seq<char>, c: char) -> int {
    let i = find_char(s, c);
    if 0 <= i <= s.len() {
        i
    } else {
        s.len() as int
    }
}

/// The pieces of `s` between occurrences of the separator `c`; an empty
/// `s` yields one empty piece, a trailing separator yields one as well.
pub open spec fn spec_split_char(s: Seq<char>, c: char) -> Seq<Seq<char>>
    decreases s.len(),
{
    let i = find_char_clipped(s, c);
    if i < s.len() {
        seq![s.subrange(0, i)] + spec_split_char(s.subrange(i + 1, s.len() as int), c)
    } else {
        seq![s]
    }
}

/// Splits `v` into the pieces between occurrences of `sep`.
pub fn split_char(v: &Vec<char>, sep: char) -> (r: Vec<Vec<char>>)
    ensures
        r.deep_view() == spec_split_char(v@, sep),
        r@.len() >= 1,
{
    let n = v.len();
    let mut r: Vec<Vec<char>> = Vec::new();
    let mut p: usize = 0;
    proof {
        assert(v@.subrange(0, n as int) =~= v@);
        assert(r.deep_view() + spec_split_char(v@, sep) =~= spec_split_char(v@, sep));
    }
    loop
        invariant
            p <= n,
            n == v@.len(),
            spec_split_char(v@, sep) == r.deep_view() + spec_split_char(
                v@.subrange(p as int, n as int),
                sep,
            ),
        decreases n - p,
    {
        let ghost suffix = v@.subrange(p as int, n as int);
        let mut k: usize = p;
        while k < n && v[k] != sep
            invariant
                p <= k <= n,
                n == v@.len(),
                forall|j: int| p <= j < k ==> v@[j] != sep,
            decreases n - k,
        {
            k = k + 1;
        }
        proof {
            assert forall|j: int| 0 <= j < k - p implies suffix[j] != sep by {
                assert(suffix[j] == v@[p + j]);
            }
            if k < n {
                assert(suffix[k - p] == v@[k as int]);
            }
            lemma_find_char_unique(suffix, sep, k - p);
        }
        let piece = subvec(v, p, k);
        let ghost prev = r.deep_view();
        proof {
            assert(piece@ =~= suffix.subrange(0, k - p));
        }
        r.push(piece);
        proof {
            assert(piece.deep_view() =~= piece@);
            assert(r.deep_view() =~= prev.push(piece@));
            assert(prev.push(piece@) =~= prev + seq![piece@]);
        }
        if k < n {
            proof {
                assert(suffix.subrange(k - p + 1, suffix.len() as int) =~= v@.subrange(
                    k + 1,
                    n as int,
                ));
                assert(spec_split_char(suffix, sep) == seq![piece@] + spec_split_char(
                    v@.subrange(k + 1, n as int),
                    sep,
                ));
                assert(spec_split_char(v@, sep) =~= r.deep_view() + spec_split_char(
                    v@.subrange(k + 1, n as int),
                    sep,
                ));
            }
            p = k + 1;
        } else {
            proof {
                assert(piece@ =~= suffix);
                assert(spec_split_char(suffix, sep) == seq![piece@]);
                assert(spec_split_char(v@, sep) =~= r.deep_view());
            }
            return r;
        }
    }
}

} // verus!

verus! {

// ---------------------------------------------------------------------
// The floating-point text grammar
//
// Calibration factors and frequencies are validated against this grammar
// and carried through as text; the decoders never compute with them.
// ---------------------------------------------------------------------

/// `c` is one of the two given cases of a letter.
pub open spec fn ci(c: char, lower: char, upper: char) -> bool {
    c == lower || c == upper
}

/// `s` spells `inf` in any casing.
pub open spec fn is_inf_text(s: Seq<char>) -> bool {
    s.len() == 3 && ci(s[0], 'i', 'I') && ci(s[1], 'n', 'N') && ci(s[2], 'f', 'F')
}

/// `s` spells `infinity` in any casing.
pub open spec fn is_infinity_text(s: Seq<char>) -> bool {
    s.len() == 8 && ci(s[0], 'i', 'I') && ci(s[1], 'n', 'N') && ci(s[2], 'f', 'F') && ci(
        s[3],
        'i',
        'I',
    ) && ci(s[4], 'n', 'N') && ci(s[5], 'i', 'I') && ci(s[6], 't', 'T') && ci(s[7], 'y', 'Y')
}

/// `s` spells `nan` in any casing.
pub open spec fn is_nan_text(s: Seq<char>) -> bool {
    s.len() == 3 && ci(s[0], 'n', 'N') && ci(s[1], 'a', 'A') && ci(s[2], 'n', 'N')
}

/// Digits with at most one decimal point, and at least one digit.
pub open spec fn is_mantissa_text(s: Seq<char>) -> bool {
    let i = find_char_clipped(s, '.');
    if i < s.len() {
        s.len() > 1 && all_digits(s.subrange(0, i)) && all_digits(
            s.subrange(i + 1, s.len() as int),
        )
    } else {
        s.len() > 0 && all_digits(s)
    }
}

/// Index of the first exponent marker (`e` or `E`), or `s.len()`.
pub open spec fn find_exp_clipped(s: Seq<char>) -> int {
    let ie = find_char_clipped(s, 'e');
    let iu = find_char_clipped(s, 'E');
    if ie <= iu {
        ie
    } else {
        iu
    }
}

/// A mantissa with an optional exponent.
pub open spec fn is_float_body(s: Seq<char>) -> bool {
    let e = find_exp_clipped(s);
    if e < s.len() {
        is_mantissa_text(s.subrange(0, e)) && is_int_text(s.subrange(e + 1, s.len() as int))
    } else {
        is_mantissa_text(s)
    }
}

/// `s` is a floating-point number text: an optional sign, then either a
/// special word (`inf`, `infinity`, `nan`, any casing) or a mantissa with
/// an optional exponent.
pub open spec fn is_float_text(s: Seq<char>) -> bool {
    is_inf_text(unsigned_part(s)) || is_infinity_text(unsigned_part(s)) || is_nan_text(
        unsigned_part(s),
    ) || is_float_body(unsigned_part(s))
}

/// Every character of `v[from..to]` is a decimal digit.
pub fn all_digits_range(v: &Vec<char>, from: usize, to: usize) -> (r: bool)
    requires
        from <= to <= v@.len(),
    ensures
        r == all_digits(v@.subrange(from as int, to as int)),
{
    let ghost s = v@.subrange(from as int, to as int);
    let mut i: usize = from;
    while i < to
        invariant
            from <= i <= to <= v@.len(),
            s == v@.subrange(from as int, to as int),
            forall|j: int| 0 <= j < i - from ==> is_digit(#[trigger] s[j]),
        decreases to - i,
    {
        let c = v[i];
        if c < '0' || c > '9' {
            assert(!is_digit(s[i - from]));
            return false;
        }
        proof {
            assert(is_digit(s[i - from]));
        }
        i = i + 1;
    }
    true
}

/// `v[from..to]` matches the decimal integer grammar.
pub fn is_int_text_range(v: &Vec<char>, from: usize, to: usize) -> (r: bool)
    requires
        from <= to <= v@.len(),
    ensures
        r == is_int_text(v@.subrange(from as int, to as int)),
{
    let ghost s = v@.subrange(from as int, to as int);
    if from == to {
        return false;
    }
    let c0 = v[from];
    let start: usize = if c0 == '-' || c0 == '+' {
        from + 1
    } else {
        from
    };
    proof {
        assert(unsigned_part(s) =~= v@.subrange(start as int, to as int));
    }
    if start == to {
        return false;
    }
    all_digits_range(v, start, to)
}

/// Position of the first `'.'` in `v[from..to]`, as an absolute index;
/// `to` when there is none.
pub fn find_dot(v: &Vec<char>, from: usize, to: usize) -> (k: usize)
    requires
        from <= to <= v@.len(),
    ensures
        from <= k <= to,
        k - from == find_char_clipped(v@.subrange(from as int, to as int), '.'),
{
    let ghost s = v@.subrange(from as int, to as int);
    let mut k: usize = from;
    while k < to && v[k] != '.'
        invariant
            from <= k <= to <= v@.len(),
            forall|j: int| from <= j < k ==> v@[j] != '.',
        decreases to - k,
    {
        k = k + 1;
    }
    proof {
        assert forall|j: int| 0 <= j < k - from implies s[j] != '.' by {
            assert(s[j] == v@[from + j]);
        }
        if k < to {
            assert(s[k - from] == v@[k as int]);
        }
        lemma_find_char_unique(s, '.', k - from);
    }
    k
}

/// Position of the first exponent marker in `v[from..to]`, as an absolute
/// index; `to` when there is none.
pub fn find_exp(v: &Vec<char>, from: usize, to: usize) -> (k: usize)
    requires
        from <= to <= v@.len(),
    ensures
        from <= k <= to,
        k - from == find_exp_clipped(v@.subrange(from as int, to as int)),
{
    let ghost s = v@.subrange(from as int, to as int);
    let mut k: usize = from;
    while k < to && v[k] != 'e' && v[k] != 'E'
        invariant
            from <= k <= to <= v@.len(),
            forall|j: int| from <= j < k ==> v@[j] != 'e' && v@[j] != 'E',
        decreases to - k,
    {
        k = k + 1;
    }
    proof {
        lemma_find_char(s, 'e');
        lemma_find_char(s, 'E');
        assert forall|j: int| 0 <= j < k - from implies s[j] != 'e' && s[j] != 'E' by {
            assert(s[j] == v@[from + j]);
        }
        if k < to {
            assert(s[k - from] == v@[k as int]);
            if v@[k as int] == 'e' {
                lemma_find_char_unique(s, 'e', k - from);
                assert(find_char(s, 'E') >= k - from);
            } else {
                lemma_find_char_unique(s, 'E', k - from);
                assert(find_char(s, 'e') >= k - from);
            }
        } else {
            lemma_find_char_unique(s, 'e', k - from);
            lemma_find_char_unique(s, 'E', k - from);
        }
    }
    k
}

/// `v[from..to]` matches the mantissa grammar.
fn is_mantissa_range(v: &Vec<char>, from: usize, to: usize) -> (r: bool)
    requires
        from <= to <= v@.len(),
    ensures
        r == is_mantissa_text(v@.subrange(from as int, to as int)),
{
    let ghost s = v@.subrange(from as int, to as int);
    let dot = find_dot(v, from, to);
    if dot < to {
        proof {
            assert(s.subrange(0, dot - from) =~= v@.subrange(from as int, dot as int));
            assert(s.subrange(dot - from + 1, s.len() as int) =~= v@.subrange(
                dot + 1,
                to as int,
            ));
        }
        if to - from <= 1 {
            return false;
        }
        let a = all_digits_range(v, from, dot);
        if !a {
            return false;
        }
        all_digits_range(v, dot + 1, to)
    } else {
        if from == to {
            return false;
        }
        all_digits_range(v, from, to)
    }
}

/// `v[from..to]` matches the floating-point text grammar.
pub fn is_float_text_range(v: &Vec<char>, from: usize, to: usize) -> (r: bool)
    requires
        from <= to <= v@.len(),
    ensures
        r == is_float_text(v@.subrange(from as int, to as int)),
{
    let ghost s = v@.subrange(from as int, to as int);
    if from == to {
        return false;
    }
    let c0 = v[from];
    let start: usize = if c0 == '-' || c0 == '+' {
        from + 1
    } else {
        from
    };
    let ghost b = unsigned_part(s);
    proof {
        assert(b =~= v@.subrange(start as int, to as int));
    }
    let blen = to - start;
    // the special words
    if blen == 3 {
        let c1 = v[start];
        let c2 = v[start + 1];
        let c3 = v[start + 2];
        if ((c1 == 'i' || c1 == 'I') && (c2 == 'n' || c2 == 'N') && (c3 == 'f' || c3 == 'F')) || (
        (c1 == 'n' || c1 == 'N') && (c2 == 'a' || c2 == 'A') && (c3 == 'n' || c3 == 'N')) {
            return true;
        }
    }
    if blen == 8 {
        let c1 = v[start];
        let c2 = v[start + 1];
        let c3 = v[start + 2];
        let c4 = v[start + 3];
        let c5 = v[start + 4];
        let c6 = v[start + 5];
        let c7 = v[start + 6];
        let c8 = v[start + 7];
        if (c1 == 'i' || c1 == 'I') && (c2 == 'n' || c2 == 'N') && (c3 == 'f' || c3 == 'F') && (c4
            == 'i' || c4 == 'I') && (c5 == 'n' || c5 == 'N') && (c6 == 'i' || c6 == 'I') && (c7
            == 't' || c7 == 'T') && (c8 == 'y' || c8 == 'Y') {
            return true;
        }
    }
    // mantissa with optional exponent
    let e = find_exp(v, start, to);
    if e < to {
        proof {
            assert(b.subrange(0, e - start) =~= v@.subrange(start as int, e as int));
            assert(b.subrange(e - start + 1, b.len() as int) =~= v@.subrange(e + 1, to as int));
        }
        let m = is_mantissa_range(v, start, e);
        if !m {
            return false;
        }
        is_int_text_range(v, e + 1, to)
    } else {
        is_mantissa_range(v, start, to)
    }
}

} // verus!

verus! {

/// `s` spells `ascii` in any casing.
pub open spec fn is_ascii_word(s: Seq<char>) -> bool {
    s.len() == 5 && ci(s[0], 'a', 'A') && ci(s[1], 's', 'S') && ci(s[2], 'c', 'C') && ci(
        s[3],
        'i',
        'I',
    ) && ci(s[4], 'i', 'I')
}

/// `s` spells `binary` in any casing.
pub open spec fn is_binary_word(s: Seq<char>) -> bool {
    s.len() == 6 && ci(s[0], 'b', 'B') && ci(s[1], 'i', 'I') && ci(s[2], 'n', 'N') && ci(
        s[3],
        'a',
        'A',
    ) && ci(s[4], 'r', 'R') && ci(s[5], 'y', 'Y')
}

/// Does `v` spell `ascii`, case-insensitively?
pub fn is_ascii_word_vec(v: &Vec<char>) -> (r: bool)
    ensures
        r == is_ascii_word(v@),
{
    if v.len() != 5 {
        return false;
    }
    let c0 = v[0];
    let c1 = v[1];
    let c2 = v[2];
    let c3 = v[3];
    let c4 = v[4];
    (c0 == 'a' || c0 == 'A') && (c1 == 's' || c1 == 'S') && (c2 == 'c' || c2 == 'C') && (c3 == 'i'
        || c3 == 'I') && (c4 == 'i' || c4 == 'I')
}

/// Does `v` spell `binary`, case-insensitively?
pub fn is_binary_word_vec(v: &Vec<char>) -> (r: bool)
    ensures
        r == is_binary_word(v@),
{
    if v.len() != 6 {
        return false;
    }
    let c0 = v[0];
    let c1 = v[1];
    let c2 = v[2];
    let c3 = v[3];
    let c4 = v[4];
    let c5 = v[5];
    (c0 == 'b' || c0 == 'B') && (c1 == 'i' || c1 == 'I') && (c2 == 'n' || c2 == 'N') && (c3 == 'a'
        || c3 == 'A') && (c4 == 'r' || c4 == 'R') && (c5 == 'y' || c5 == 'Y')
}

} // verus!

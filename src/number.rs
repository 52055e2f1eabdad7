use vstd::prelude::*;

verus! {

pub open spec fn is_digit(c: char) -> bool {
    '0' <= c && c <= '9'
}

/// A non-empty run of ASCII digits.
pub open spec fn is_digits(s: Seq<char>) -> bool {
    s.len() > 0 && forall|i: int| 0 <= i < s.len() ==> is_digit(#[trigger] s[i])
}

/// The number that a run of ASCII digits writes in base ten.
pub open spec fn digits_value(s: Seq<char>) -> nat
    decreases s.len(),
{
    if s.len() == 0 {
        0
    } else {
        digits_value(s.drop_last()) * 10 + ((s.last() as u32 - '0' as u32) as nat)
    }
}

/// The signed number that an optional minus sign and a run of digits write.
pub open spec fn signed_value(s: Seq<char>) -> int {
    if s.len() > 0 && s[0] == '-' {
        -(digits_value(s.drop_first()) as int)
    } else {
        digits_value(s) as int
    }
}

/// An optional minus sign followed by a run of digits.
pub open spec fn is_signed_digits(s: Seq<char>) -> bool {
    if s.len() > 0 && s[0] == '-' {
        is_digits(s.drop_first())
    } else {
        is_digits(s)
    }
}

/// A number as commands write it: an optional leading minus, then ASCII digits
/// (at least one) with at most one decimal point among them.
pub open spec fn numeric_text(s: Seq<char>) -> bool {
    numeric_body(if s.len() > 0 && s[0] == '-' { s.drop_first() } else { s })
}

/// Digits with at most one decimal point, and at least one digit.
pub open spec fn numeric_body(body: Seq<char>) -> bool {
    &&& forall|i: int| 0 <= i < body.len() ==> (is_digit(#[trigger] body[i]) || body[i] == '.')
    &&& exists|i: int| 0 <= i < body.len() && is_digit(#[trigger] body[i])
    &&& forall|i: int, j: int| 0 <= i < body.len() && 0 <= j < body.len() && body[i] == '.' && body[j] == '.' ==> i == j
}

/// Whether the text is a number: an optional leading minus, then digits with at
/// most one decimal point, and at least one digit.
pub fn is_number(val: &str) -> (r: bool)
    ensures
        r == numeric_text(val@),
{
    let n = val.unicode_len();
    let start: usize = if n > 0 && val.get_char(0) == '-' { 1 } else { 0 };
    let body = val.substring_char(start, n);
    proof {
        if start == 1 {
            assert(body@ =~= val@.drop_first());
        } else {
            assert(body@ =~= val@);
        }
        assert(numeric_text(val@) == numeric_body(body@));
    }
    let m = body.unicode_len();
    let mut i: usize = 0;
    let mut dot: Option<usize> = None;
    let mut digit = false;
    while i < m
        invariant
            m == body@.len(),
            0 <= i <= m,
            numeric_text(val@) == numeric_body(body@),
            forall|j: int| 0 <= j < i ==> (is_digit(#[trigger] body@[j]) || body@[j] == '.'),
            digit == exists|j: int| 0 <= j < i && is_digit(#[trigger] body@[j]),
            dot matches Some(d) ==> d < i && body@[d as int] == '.' && forall|j: int| 0 <= j < i && body@[j] == '.' ==> j == d,
            dot is None ==> forall|j: int| 0 <= j < i ==> body@[j] != '.',
        decreases m - i,
    {
        let c = body.get_char(i);
        if '0' <= c && c <= '9' {
            digit = true;
        } else if c == '.' {
            if dot.is_some() {
                proof {
                    let d = dot->Some_0;
                    assert(body@[d as int] == '.' && body@[i as int] == '.');
                    assert(d != i);
                    assert(!numeric_body(body@));
                }
                return false;
            }
            dot = Some(i);
        } else {
            proof {
                assert(!(is_digit(body@[i as int]) || body@[i as int] == '.'));
                assert(!numeric_body(body@));
            }
            return false;
        }
        i = i + 1;
    }
    digit
}

/// The index of the first `c` in `s`.
pub fn char_index(s: &str, c: char) -> (r: Option<usize>)
    ensures
        r matches Some(d) ==> d < s@.len() && s@[d as int] == c && forall|j: int| 0 <= j < d ==> s@[j] != c,
        r is None ==> forall|j: int| 0 <= j < s@.len() ==> s@[j] != c,
{
    let n = s.unicode_len();
    let mut i: usize = 0;
    while i < n
        invariant
            n == s@.len(),
            0 <= i <= n,
            forall|j: int| 0 <= j < i ==> s@[j] != c,
        decreases n - i,
    {
        if s.get_char(i) == c {
            return Some(i);
        }
        i = i + 1;
    }
    None
}

/// Whether the text is a non-empty run of ASCII digits.
pub fn all_digits(s: &str) -> (r: bool)
    ensures
        r == is_digits(s@),
{
    let n = s.unicode_len();
    let mut i: usize = 0;
    while i < n
        invariant
            n == s@.len(),
            0 <= i <= n,
            forall|j: int| 0 <= j < i ==> is_digit(#[trigger] s@[j]),
        decreases n - i,
    {
        let c = s.get_char(i);
        if !('0' <= c && c <= '9') {
            return false;
        }
        i = i + 1;
    }
    n > 0
}

/// `s` is `int.frac`, two runs of digits split by a point at index `d`.
pub open spec fn point_split(s: Seq<char>, d: int) -> bool {
    &&& 0 <= d < s.len()
    &&& s[d] == '.'
    &&& is_digits(s.subrange(0, d))
    &&& is_digits(s.subrange(d + 1, s.len() as int))
}

/// Milliseconds that the digits after a decimal point give: the first three,
/// padded with zeros.
pub open spec fn millis(f: Seq<char>) -> int {
    if f.len() >= 3 {
        digits_value(f.subrange(0, 3)) as int
    } else if f.len() == 2 {
        (digits_value(f) * 10) as int
    } else {
        (digits_value(f) * 100) as int
    }
}

/// A duration in seconds, whole or with a fraction, in whole milliseconds.
pub open spec fn seconds_ms(s: Seq<char>) -> Option<int> {
    if is_digits(s) {
        Some((digits_value(s) * 1000) as int)
    } else if exists|d: int| point_split(s, d) {
        let d = choose|d: int| point_split(s, d);
        Some((digits_value(s.subrange(0, d)) * 1000) as int + millis(s.subrange(d + 1, s.len() as int)))
    } else {
        None
    }
}

/// Reads seconds such as `2` or `0.25` as milliseconds, dropping digits past the
/// third after the point; `None` when the text has another shape or the result
/// does not fit.
pub fn parse_seconds_ms(s: &str) -> (r: Option<u64>)
    ensures
        r is Some <==> (seconds_ms(s@) matches Some(v) && v <= u64::MAX),
        r matches Some(v) ==> seconds_ms(s@) == Some(v as int),
{
    let n = s.unicode_len();
    let ghost mut d_g: usize = 0;
    let (whole, frac) = match char_index(s, '.') {
        None => {
            match parse_u64(s) {
                Some(v) => {
                    if v <= u64::MAX / 1000 {
                        return Some(v * 1000);
                    }
                    return None;
                },
                None => {
                    proof {
                        assert forall|d: int| !point_split(s@, d) by {}
                    }
                    return None;
                },
            }
        },
        Some(d) => {
            proof {
                assert(!is_digits(s@));
                assert forall|d2: int| point_split(s@, d2) implies d2 == d by {
                    if d2 > d {
                        assert(s@.subrange(0, d2)[d as int] == s@[d as int]);
                    }
                }
            }
            proof {
                d_g = d;
            }
            (s.substring_char(0, d), s.substring_char(d + 1, n))
        },
    };
    if !all_digits(frac) {
        return None;
    }
    let w = match parse_u64(whole) {
        Some(w) => w,
        None => {
            proof {
                if is_digits(whole@) {
                    assert(point_split(s@, d_g as int));
                    assert(digits_value(whole@) * 1000 >= digits_value(whole@));
                }
            }
            return None;
        },
    };
    let fl = frac.unicode_len();
    let k: usize = if fl >= 3 { 3 } else { fl };
    let head = frac.substring_char(0, k);
    proof {
        if fl < 3 {
            assert(head@ =~= frac@);
        }
        assert(is_digits(head@));
        lemma_small_digits(head@);
    }
    let f = match parse_u64(head) {
        Some(f) => f,
        None => {
            return None;
        },
    };
    let ms: u64 = if fl >= 3 { f } else if fl == 2 { f * 10 } else { f * 100 };
    proof {
        assert(point_split(s@, d_g as int));
        assert(millis(frac@) == ms as int);
    }
    if w > (u64::MAX - ms) / 1000 {
        proof {
            assert(w * 1000 + ms > u64::MAX) by (nonlinear_arith)
                requires w > (u64::MAX - ms) / 1000, ms <= u64::MAX;
        }
        return None;
    }
    Some(w * 1000 + ms)
}

pub open spec fn ten_to(n: nat) -> int
    decreases n,
{
    if n == 0 { 1 } else { 10 * ten_to((n - 1) as nat) }
}

proof fn lemma_digits_below(s: Seq<char>)
    requires
        forall|i: int| 0 <= i < s.len() ==> is_digit(#[trigger] s[i]),
    ensures
        digits_value(s) < ten_to(s.len()),
    decreases s.len(),
{
    if s.len() > 0 {
        lemma_digits_below(s.drop_last());
        assert(is_digit(s.last()));
        let a = digits_value(s.drop_last()) as int;
        let p = ten_to(s.drop_last().len());
        let d = (s.last() as u32 - '0' as u32) as int;
        assert(a * 10 + d < 10 * p) by (nonlinear_arith)
            requires a < p, 0 <= d < 10;
    }
}

proof fn lemma_small_digits(s: Seq<char>)
    requires
        s.len() <= 3,
        forall|i: int| 0 <= i < s.len() ==> is_digit(#[trigger] s[i]),
    ensures
        digits_value(s) < 1000,
{
    lemma_digits_below(s);
    assert(ten_to(0) == 1);
    assert(ten_to(1) == 10);
    assert(ten_to(2) == 100);
    assert(ten_to(3) == 1000);
}

proof fn lemma_prefix_le(s: Seq<char>, i: int)
    requires
        0 <= i <= s.len(),
        forall|j: int| 0 <= j < s.len() ==> is_digit(#[trigger] s[j]),
    ensures
        digits_value(s.take(i)) <= digits_value(s),
    decreases s.len() - i,
{
    if i < s.len() {
        lemma_prefix_le(s, i + 1);
        assert(s.take(i + 1).drop_last() =~= s.take(i));
    } else {
        assert(s.take(i) =~= s);
    }
}

/// Reads a run of ASCII digits as a `u64`; `None` when the text is not such a
/// run or its value does not fit.
pub fn parse_u64(s: &str) -> (r: Option<u64>)
    ensures
        r is Some <==> is_digits(s@) && digits_value(s@) <= u64::MAX,
        r matches Some(v) ==> v == digits_value(s@),
{
    let n = s.unicode_len();
    if n == 0 {
        return None;
    }
    let mut v: u64 = 0;
    let mut i: usize = 0;
    while i < n
        invariant
            n == s@.len(),
            0 <= i <= n,
            forall|j: int| 0 <= j < i ==> is_digit(#[trigger] s@[j]),
            v == digits_value(s@.take(i as int)),
        decreases n - i,
    {
        let c = s.get_char(i);
        if !('0' <= c && c <= '9') {
            return None;
        }
        let d = (c as u32 - '0' as u32) as u64;
        proof {
            assert(s@.take(i + 1).drop_last() =~= s@.take(i as int));
            assert(s@.take(i + 1).last() == c);
        }
        if v > (u64::MAX - d) / 10 {
            proof {
                assert(digits_value(s@.take(i + 1)) > u64::MAX);
                if is_digits(s@) {
                    lemma_prefix_le(s@, i + 1);
                }
            }
            return None;
        }
        v = v * 10 + d;
        i = i + 1;
    }
    proof {
        assert(s@.take(n as int) =~= s@);
    }
    Some(v)
}

/// Reads an optional minus sign and a run of digits as an `i64`; `None` when
/// the text has another shape or its value does not fit.
pub fn parse_i64(s: &str) -> (r: Option<i64>)
    ensures
        r is Some <==> is_signed_digits(s@) && i64::MIN <= signed_value(s@) <= i64::MAX,
        r matches Some(v) ==> v == signed_value(s@),
{
    let n = s.unicode_len();
    if n > 0 && s.get_char(0) == '-' {
        let rest = s.substring_char(1, n);
        proof {
            assert(rest@ =~= s@.drop_first());
        }
        match parse_u64(rest) {
            Some(m) => {
                if m <= 9223372036854775808 {
                    if m == 9223372036854775808 {
                        Some(i64::MIN)
                    } else {
                        Some(-(m as i64))
                    }
                } else {
                    None
                }
            },
            None => None,
        }
    } else {
        match parse_u64(s) {
            Some(m) => {
                if m <= 9223372036854775807 {
                    Some(m as i64)
                } else {
                    None
                }
            },
            None => None,
        }
    }
}

} // verus!

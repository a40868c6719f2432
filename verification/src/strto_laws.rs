use vstd::prelude::*;
use crate::strto::{
    byte_at, body_index, conversion_end, digit_value, digits_end, digits_start, digits_value,
    is_negative, magnitude, radix_of, signed_out_of_range, skip_spaces, strtoimax_errno,
    strtoimax_value, strtoumax_errno, strtoumax_value, subject_end, lemma_digits_value_nonneg, converts, is_space, sign_index,
    has_hex_prefix, lemma_skip_spaces_bounds,
};

verus! {

/// The decimal numeral of `n`, most significant digit first, with no leading zero.
pub open spec fn decimal(n: nat) -> Seq<u8>
    decreases n,
{
    if n < 10 {
        seq![(48 + n) as u8]
    } else {
        decimal(n / 10).push((48 + n % 10) as u8)
    }
}

proof fn lemma_decimal_digits(n: nat)
    ensures
        decimal(n).len() >= 1,
        forall|k: int| 0 <= k < decimal(n).len() ==> 48 <= #[trigger] decimal(n)[k] <= 57,
    decreases n,
{
    if n >= 10 {
        lemma_decimal_digits(n / 10);
    }
}

/// `digits_value` reads only the bytes it covers: two strings that agree there, the second
/// shifted by `off`, give the same value.
pub proof fn lemma_digits_value_shift(s1: Seq<u8>, s2: Seq<u8>, off: int, start: int, end: int, radix: int)
    requires
        forall|k: int| start <= k < end ==> byte_at(s1, k + off) == byte_at(s2, k),
    ensures
        digits_value(s1, start + off, end + off, radix) == digits_value(s2, start, end, radix),
    decreases end - start,
{
    if end > start {
        lemma_digits_value_shift(s1, s2, off, start, end - 1, radix);
        assert(byte_at(s1, end - 1 + off) == byte_at(s2, end - 1));
    }
}

/// `digits_end` reads only the bytes it passes over: two strings that agree from `i` on, the
/// second shifted by `off`, end their digits at the same place.
pub proof fn lemma_digits_end_shift(s1: Seq<u8>, s2: Seq<u8>, off: int, i: int, radix: int)
    requires
        0 <= i,
        0 <= off,
        s1.len() == s2.len() + off,
        forall|k: int| 0 <= k < s2.len() ==> s1[k + off] == #[trigger] s2[k],
    ensures
        digits_end(s1, i + off, radix) == digits_end(s2, i, radix) + off,
    decreases s2.len() - i,
{
    if i < s2.len() {
        assert(s1[i + off] == s2[i]);
        if digit_value(s2[i]) < radix {
            lemma_digits_end_shift(s1, s2, off, i + 1, radix);
        }
    }
}

proof fn lemma_digits_end_all_decimal(s: Seq<u8>, i: int)
    requires
        0 <= i <= s.len(),
        forall|k: int| 0 <= k < s.len() ==> 48 <= #[trigger] s[k] <= 57,
    ensures
        digits_end(s, i, 10) == s.len(),
    decreases s.len() - i,
{
    if i < s.len() {
        assert(48 <= s[i] <= 57);
        lemma_digits_end_all_decimal(s, i + 1);
    }
}

proof fn lemma_decimal_value(n: nat)
    ensures
        digits_value(decimal(n), 0, decimal(n).len() as int, 10) == n,
    decreases n,
{
    let s = decimal(n);
    if n < 10 {
        assert(digits_value(s, 0, 0, 10) == 0);
    } else {
        let p = decimal(n / 10);
        lemma_decimal_value(n / 10);
        lemma_decimal_digits(n / 10);
        assert forall|k: int| 0 <= k < p.len() implies byte_at(s, k + 0) == byte_at(p, k) by {}
        lemma_digits_value_shift(s, p, 0, 0, p.len() as int, 10);
        assert(digits_value(s, 0, s.len() as int, 10) == digits_value(s, 0, p.len() as int, 10) * 10
            + digit_value(byte_at(s, p.len() as int)));
    }
}

/// Reading the decimal numeral of any `u64` with `strtoumax` in base 10 (or base 0) gives the
/// number back, consumes the whole numeral and sets no `errno`.
pub proof fn law_strtoumax_reads_decimal(n: u64, base: int)
    requires
        base == 10 || base == 0,
    ensures
        strtoumax_value(decimal(n as nat), base) == n,
        conversion_end(decimal(n as nat), base) == decimal(n as nat).len(),
        strtoumax_errno(decimal(n as nat), base).is_none(),
{
    let s = decimal(n as nat);
    lemma_decimal_digits(n as nat);
    lemma_decimal_value(n as nat);
    assert(48 <= s[0] <= 57);
    assert(skip_spaces(s, 0) == 0);
    assert(body_index(s) == 0);
    assert(digits_start(s, base) == 0);
    if base == 0 && n == 0 {
        assert(s == seq![48u8]);
        assert(radix_of(s, base) == 8);
        assert(digits_end(s, 1, 8) == 1);
        assert(digits_end(s, 0, 8) == 1);
        assert(digits_value(s, 0, 0, 8) == 0);
        assert(byte_at(s, 0) == 48);
        assert(digits_value(s, 0, 1, 8) == 0 * 8 + 0);
    } else {
        if base == 0 {
            assert(s[0] != 48) by {
                if s[0] == 48 {
                    lemma_decimal_first_digit(n as nat);
                }
            }
        }
        assert(radix_of(s, base) == 10);
        lemma_digits_end_all_decimal(s, 0);
    }
}

proof fn lemma_decimal_first_digit(n: nat)
    requires
        n > 0,
    ensures
        decimal(n)[0] != 48,
    decreases n,
{
    if n >= 10 {
        lemma_decimal_first_digit(n / 10);
        lemma_decimal_digits(n / 10);
    }
}

/// Reading `-` followed by the decimal numeral of `n` with `strtoimax` in base 10 gives `-n`,
/// and the numeral alone gives `n`, wherever the value fits in `i64`; the whole string is
/// consumed and no `errno` is set.
pub proof fn law_strtoimax_reads_signed_decimal(n: nat, negative: bool)
    requires
        negative ==> n <= 0x8000_0000_0000_0000,
        !negative ==> n <= i64::MAX,
    ensures
        ({
            let s = if negative { seq![45u8] + decimal(n) } else { decimal(n) };
            &&& strtoimax_value(s, 10) == (if negative { -n } else { n as int })
            &&& conversion_end(s, 10) == s.len()
            &&& strtoimax_errno(s, 10).is_none()
        }),
{
    let d = decimal(n);
    lemma_decimal_digits(n);
    lemma_decimal_value(n);
    if negative {
        let s = seq![45u8] + d;
        assert(s[0] == 45);
        assert(skip_spaces(s, 0) == 0);
        assert(is_negative(s));
        assert(body_index(s) == 1);
        assert(digits_start(s, 10) == 1);
        assert forall|k: int| 0 <= k < d.len() implies s[k + 1] == #[trigger] d[k] by {}
        lemma_digits_end_shift(s, d, 1, 0, 10);
        lemma_digits_end_all_decimal(d, 0);
        assert forall|k: int| 0 <= k < d.len() implies byte_at(s, k + 1) == byte_at(d, k) by {}
        lemma_digits_value_shift(s, d, 1, 0, d.len() as int, 10);
        assert(magnitude(s, 10) == n);
    } else {
        assert(48 <= d[0] <= 57);
        assert(skip_spaces(d, 0) == 0);
        assert(body_index(d) == 0);
        assert(digits_start(d, 10) == 0);
        lemma_digits_end_all_decimal(d, 0);
    }
}

/// Where neither overflows, `strtoimax` and `strtoumax` read the same string into the same
/// value modulo 2^64, and both stop at the same place with the same `errno`.
pub proof fn law_signed_unsigned_agree(s: Seq<u8>, base: int)
    requires
        magnitude(s, base) <= u64::MAX,
        !signed_out_of_range(s, base),
    ensures
        strtoumax_value(s, base) == (if strtoimax_value(s, base) < 0 {
            strtoimax_value(s, base) + 0x1_0000_0000_0000_0000
        } else {
            strtoimax_value(s, base)
        }),
        strtoumax_errno(s, base) == strtoimax_errno(s, base),
{
    if converts(s, base) {
        lemma_digits_value_nonneg(s, digits_start(s, base), subject_end(s, base), radix_of(s, base));
    }
}

proof fn lemma_skip_spaces_prefix(t: Seq<u8>, w: int, i: int)
    requires
        0 <= i <= w <= t.len(),
        forall|k: int| 0 <= k < w ==> is_space(#[trigger] t[k]),
    ensures
        skip_spaces(t, i) == skip_spaces(t, w),
    decreases w - i,
{
    if i < w {
        lemma_skip_spaces_prefix(t, w, i + 1);
    }
}

proof fn lemma_skip_spaces_shift(t: Seq<u8>, s: Seq<u8>, w: int, j: int)
    requires
        0 <= w,
        0 <= j <= s.len(),
        t.len() == s.len() + w,
        forall|k: int| 0 <= k < s.len() ==> t[k + w] == #[trigger] s[k],
    ensures
        skip_spaces(t, w + j) == w + skip_spaces(s, j),
    decreases s.len() - j,
{
    if j < s.len() {
        assert(t[j + w] == s[j]);
        if is_space(s[j]) {
            lemma_skip_spaces_shift(t, s, w, j + 1);
        }
    }
}

/// Leading white space changes nothing but where the conversion ends: the value and `errno`
/// are those of the string without it, and the end moves by its length (it stays 0 where
/// nothing is converted).
#[verifier::rlimit(40)]
pub proof fn law_leading_space_skipped(ws: Seq<u8>, s: Seq<u8>, base: int)
    requires
        forall|k: int| 0 <= k < ws.len() ==> is_space(#[trigger] ws[k]),
    ensures
        strtoimax_value(ws + s, base) == strtoimax_value(s, base),
        strtoimax_errno(ws + s, base) == strtoimax_errno(s, base),
        strtoumax_value(ws + s, base) == strtoumax_value(s, base),
        strtoumax_errno(ws + s, base) == strtoumax_errno(s, base),
        converts(ws + s, base) == converts(s, base),
        conversion_end(ws + s, base) == (if converts(s, base) {
            ws.len() + conversion_end(s, base)
        } else {
            0
        }),
{
    let t = ws + s;
    let w = ws.len() as int;
    assert forall|k: int| 0 <= k < w implies is_space(#[trigger] t[k]) by {
        assert(t[k] == ws[k]);
    }
    assert forall|k: int| 0 <= k < s.len() implies t[k + w] == #[trigger] s[k] by {}
    assert forall|k: int| 0 <= k implies #[trigger] byte_at(t, k + w) == byte_at(s, k) by {}
    lemma_skip_spaces_bounds(s, 0);
    lemma_skip_spaces_prefix(t, w, 0);
    lemma_skip_spaces_shift(t, s, w, 0);
    assert(sign_index(t) == w + sign_index(s));
    let k = sign_index(s);
    assert(byte_at(t, k + w) == byte_at(s, k));
    assert(is_negative(t) == is_negative(s));
    assert(body_index(t) == w + body_index(s));
    let b = body_index(s);
    assert(byte_at(t, b + w) == byte_at(s, b));
    assert(byte_at(t, (b + 1) + w) == byte_at(s, b + 1));
    assert(byte_at(t, (b + 2) + w) == byte_at(s, b + 2));
    assert(has_hex_prefix(t, b + w) == has_hex_prefix(s, b));
    assert(radix_of(t, base) == radix_of(s, base));
    assert(digits_start(t, base) == w + digits_start(s, base));
    let st = digits_start(s, base);
    let r = radix_of(s, base);
    {
        lemma_digits_end_shift(t, s, w, st, r);
        assert(subject_end(t, base) == w + subject_end(s, base));
        assert forall|k: int| st <= k < subject_end(s, base) implies byte_at(t, k + w) == byte_at(s, k) by {}
        lemma_digits_value_shift(t, s, w, st, subject_end(s, base), r);
        assert(magnitude(t, base) == magnitude(s, base));
    }
}

} // verus!

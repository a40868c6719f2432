use vstd::prelude::*;
use vstd::arithmetic::div_mod::{lemma_div_decreases, lemma_fundamental_div_mod};
use crate::strto::{
    body_index, byte_at, conversion_end, converts, digit_value, digits_end, digits_start,
    digits_value, has_hex_prefix, is_negative, lemma_digits_value_nonneg, lemma_skip_spaces_bounds,
    magnitude, radix_of, sign_index, skip_spaces, strtoimax_errno, strtoimax_value,
    strtoumax_errno, strtoumax_value, subject_end,
};
use crate::strto_laws::{lemma_digits_end_shift, lemma_digits_value_shift};

verus! {

/// The byte that writes digit `d` (below 36): `0`-`9`, then lowercase `a`-`z`.
pub open spec fn digit_char(d: nat) -> u8 {
    if d < 10 {
        (48 + d) as u8
    } else {
        (87 + d) as u8
    }
}

/// The numeral of `n` in base `b` (2 to 36), most significant digit first, lowercase letters,
/// no leading zero.
pub open spec fn numeral(n: nat, b: nat) -> Seq<u8>
    decreases n,
{
    if b < 2 || n < b {
        seq![digit_char(n)]
    } else {
        proof {
            lemma_div_decreases(n as int, b as int);
        }
        numeral(n / b, b).push(digit_char(n % b))
    }
}

/// Every ASCII letter or decimal digit has its alphanumeric value, and a letter has the
/// same value in either case: `0`-`9` are 0 to 9, `A`-`Z` and `a`-`z` are 10 to 35. Any other
/// byte is a digit in no base.
pub proof fn law_digit_values(c: u8)
    ensures
        48 <= c <= 57 ==> digit_value(c) == c - 48,
        65 <= c <= 90 ==> digit_value(c) == c - 55 && digit_value(c) == digit_value((c + 32) as u8),
        97 <= c <= 122 ==> digit_value(c) == c - 87,
        !(48 <= c <= 57 || 65 <= c <= 90 || 97 <= c <= 122) ==> digit_value(c) >= 36,
{
}

proof fn lemma_digit_char(d: nat)
    requires
        d < 36,
    ensures
        digit_value(digit_char(d)) == d,
{
}

proof fn lemma_numeral_digits(n: nat, b: nat)
    requires
        2 <= b <= 36,
    ensures
        numeral(n, b).len() >= 1,
        n < b ==> numeral(n, b) == seq![digit_char(n)],
        forall|k: int| 0 <= k < numeral(n, b).len() ==> digit_value(#[trigger] numeral(n, b)[k]) < b,
    decreases n,
{
    if n < b {
        lemma_digit_char(n);
    } else {
        lemma_div_decreases(n as int, b as int);
        lemma_numeral_digits(n / b, b);
        assert(n % b < b) by (nonlinear_arith)
            requires
                b > 0,
        ;
        lemma_digit_char(n % b);
        let p = numeral(n / b, b);
        assert forall|k: int| 0 <= k < numeral(n, b).len() implies digit_value(
            #[trigger] numeral(n, b)[k],
        ) < b by {
            if k < p.len() {
                assert(numeral(n, b)[k] == p[k]);
            }
        }
    }
}

proof fn lemma_numeral_value(n: nat, b: nat)
    requires
        2 <= b <= 36,
    ensures
        digits_value(numeral(n, b), 0, numeral(n, b).len() as int, b as int) == n,
    decreases n,
{
    let s = numeral(n, b);
    if n < b {
        lemma_digit_char(n);
        assert(digits_value(s, 0, 0, b as int) == 0);
        assert(byte_at(s, 0) == digit_char(n));
    } else {
        lemma_div_decreases(n as int, b as int);
        let p = numeral(n / b, b);
        lemma_numeral_value(n / b, b);
        lemma_numeral_digits(n / b, b);
        assert(n % b < b) by (nonlinear_arith)
            requires
                b > 0,
        ;
        lemma_digit_char(n % b);
        assert forall|k: int| 0 <= k < p.len() implies byte_at(s, k + 0) == byte_at(p, k) by {}
        lemma_digits_value_shift(s, p, 0, 0, p.len() as int, b as int);
        assert(byte_at(s, p.len() as int) == digit_char(n % b));
        lemma_fundamental_div_mod(n as int, b as int);
        assert(digits_value(s, 0, s.len() as int, b as int) == digits_value(s, 0, p.len() as int, b as int)
            * b + digit_value(byte_at(s, p.len() as int)));
        assert((n / b) * b == b * (n / b)) by (nonlinear_arith);
    }
}

proof fn lemma_digits_end_all(s: Seq<u8>, i: int, radix: int)
    requires
        0 <= i <= s.len(),
        forall|k: int| 0 <= k < s.len() ==> digit_value(#[trigger] s[k]) < radix,
    ensures
        digits_end(s, i, radix) == s.len(),
    decreases s.len() - i,
{
    if i < s.len() {
        assert(digit_value(s[i]) < radix);
        lemma_digits_end_all(s, i + 1, radix);
    }
}

/// Round trip in every base: for every base `b` from 2 to 36 and every `u64` `n`, the base-`b`
/// numeral of `n` reads back as `n` with `strtoumax` (and with `strtoimax` where `n` fits in
/// `i64`), consuming the whole numeral and setting no `errno`.
pub proof fn law_round_trip_every_base(n: u64, b: int)
    requires
        2 <= b <= 36,
    ensures
        strtoumax_value(numeral(n as nat, b as nat), b) == n,
        conversion_end(numeral(n as nat, b as nat), b) == numeral(n as nat, b as nat).len(),
        strtoumax_errno(numeral(n as nat, b as nat), b).is_none(),
        n <= i64::MAX ==> strtoimax_value(numeral(n as nat, b as nat), b) == n,
        n <= i64::MAX ==> strtoimax_errno(numeral(n as nat, b as nat), b).is_none(),
{
    lemma_numeral_subject(n as nat, b);
}

/// Any one byte that is a digit of base `b` (2 to 36) is converted, in either case, to its
/// value by both conversions, with the end after it and no `errno`: every base from 2 to 36 is
/// accepted.
pub proof fn law_single_digit(c: u8, v: int, b: int)
    requires
        2 <= b <= 36,
        (48 <= c <= 57 && v == c - 48) || (65 <= c <= 90 && v == c - 55) || (97 <= c <= 122 && v
            == c - 87),
        v < b,
    ensures
        strtoumax_value(seq![c], b) == v,
        strtoimax_value(seq![c], b) == v,
        conversion_end(seq![c], b) == 1,
        strtoumax_errno(seq![c], b).is_none(),
        strtoimax_errno(seq![c], b).is_none(),
{
    let s = seq![c];
    assert(skip_spaces(s, 0) == 0);
    assert(body_index(s) == 0);
    assert(digits_start(s, b) == 0);
    assert(radix_of(s, b) == b);
    assert(digits_end(s, 1, b) == 1);
    assert(digits_end(s, 0, b) == 1);
    assert(digits_value(s, 0, 0, b) == 0);
    assert(byte_at(s, 0) == c);
    assert(digits_value(s, 0, 1, b) == 0 * b + v);
}

/// A base outside 0 and 2 to 36 is refused whatever the string: both conversions give 0, end
/// at 0 and set `EINVAL`.
pub proof fn law_invalid_base(s: Seq<u8>, base: int)
    requires
        base < 0 || base == 1 || base > 36,
    ensures
        strtoumax_value(s, base) == 0,
        strtoimax_value(s, base) == 0,
        conversion_end(s, base) == 0,
        strtoumax_errno(s, base) == Some(crate::errno::EINVAL),
        strtoimax_errno(s, base) == Some(crate::errno::EINVAL),
{
}

/// Two strings that agree after the first `w` bytes of the first one and whose bodies start
/// there read the same digits.
proof fn lemma_body_shift(t: Seq<u8>, s: Seq<u8>, w: int, base: int)
    requires
        0 <= w,
        t.len() == s.len() + w,
        forall|k: int| 0 <= k < s.len() ==> t[k + w] == #[trigger] s[k],
        body_index(t) == w + body_index(s),
        0 <= body_index(s),
    ensures
        radix_of(t, base) == radix_of(s, base),
        digits_start(t, base) == w + digits_start(s, base),
        subject_end(t, base) == w + subject_end(s, base),
        magnitude(t, base) == magnitude(s, base),
        converts(t, base) == converts(s, base),
{
    assert forall|k: int| 0 <= k implies #[trigger] byte_at(t, k + w) == byte_at(s, k) by {}
    let bi = body_index(s);
    assert(byte_at(t, bi + w) == byte_at(s, bi));
    assert(byte_at(t, (bi + 1) + w) == byte_at(s, bi + 1));
    assert(byte_at(t, (bi + 2) + w) == byte_at(s, bi + 2));
    assert(has_hex_prefix(t, bi + w) == has_hex_prefix(s, bi));
    let st = digits_start(s, base);
    let r = radix_of(s, base);
    lemma_digits_end_shift(t, s, w, st, r);
    assert forall|k: int| st <= k < subject_end(s, base) implies byte_at(t, k + w) == byte_at(s, k) by {}
    lemma_digits_value_shift(t, s, w, st, subject_end(s, base), r);
}

/// A minus sign negates in every base: for a string `d` that starts with neither white space
/// nor a sign, `-d` converts wherever `d` does, ends one byte further on, and where `d` reads
/// without error its value is negated: `strtoimax(-d) == -strtoimax(d)`, and `strtoumax(-d)`
/// is `2^64 - strtoumax(d)` (0 for 0).
pub proof fn law_minus_sign_negates(d: Seq<u8>, base: int)
    requires
        !(byte_at(d, 0) == 32 || (9 <= byte_at(d, 0) <= 13)),
        byte_at(d, 0) != 43,
        byte_at(d, 0) != 45,
    ensures
        converts(seq![45u8] + d, base) == converts(d, base),
        conversion_end(seq![45u8] + d, base) == (if converts(d, base) {
            1 + conversion_end(d, base)
        } else {
            0
        }),
        strtoimax_errno(d, base).is_none() ==> strtoimax_errno(seq![45u8] + d, base).is_none()
            && strtoimax_value(seq![45u8] + d, base) == -strtoimax_value(d, base),
        strtoumax_errno(d, base).is_none() ==> strtoumax_errno(seq![45u8] + d, base).is_none()
            && strtoumax_value(seq![45u8] + d, base) == (if strtoumax_value(d, base) == 0 {
            0
        } else {
            0x1_0000_0000_0000_0000 - strtoumax_value(d, base)
        }),
{
    let t = seq![45u8] + d;
    assert forall|k: int| 0 <= k < d.len() implies t[k + 1] == #[trigger] d[k] by {}
    assert(t[0] == 45);
    assert(skip_spaces(t, 0) == 0);
    assert(skip_spaces(d, 0) == 0);
    assert(sign_index(t) == 0);
    assert(is_negative(t));
    assert(!is_negative(d));
    assert(body_index(t) == 1);
    assert(body_index(d) == 0);
    lemma_body_shift(t, d, 1, base);
    if converts(d, base) {
        lemma_digits_value_nonneg(d, digits_start(d, base), subject_end(d, base), radix_of(d, base));
    }
}

/// In base 16 the `0x` prefix is optional and of either case, and base 0 reads a `0x` or `0X`
/// numeral as hexadecimal: for a non-empty string `h` of hexadecimal digits, `0x` or `0X`
/// followed by `h` reads, in base 16 or base 0, to the value and `errno` that `h` reads to in
/// base 16, with the end 2 bytes further on.
pub proof fn law_hex_prefix_optional(h: Seq<u8>, x: u8, base: int)
    requires
        h.len() >= 1,
        forall|k: int| 0 <= k < h.len() ==> (48 <= #[trigger] h[k] <= 57 || 65 <= h[k] <= 70 || 97
            <= h[k] <= 102),
        x == 120 || x == 88,
        base == 16 || base == 0,
    ensures
        strtoumax_value(seq![48u8, x] + h, base) == strtoumax_value(h, 16),
        strtoumax_errno(seq![48u8, x] + h, base) == strtoumax_errno(h, 16),
        strtoimax_value(seq![48u8, x] + h, base) == strtoimax_value(h, 16),
        strtoimax_errno(seq![48u8, x] + h, base) == strtoimax_errno(h, 16),
        conversion_end(seq![48u8, x] + h, base) == 2 + conversion_end(h, 16),
{
    let t = seq![48u8, x] + h;
    assert forall|k: int| 0 <= k < h.len() implies t[k + 2] == #[trigger] h[k] by {}
    assert forall|k: int| 0 <= k < h.len() implies digit_value(#[trigger] h[k]) < 16 by {
        assert(48 <= h[k] <= 57 || 65 <= h[k] <= 70 || 97 <= h[k] <= 102);
    }
    assert(digit_value(h[0]) < 16);
    assert(skip_spaces(t, 0) == 0);
    assert(body_index(t) == 0);
    assert(t[2] == h[0]);
    assert(has_hex_prefix(t, 0));
    assert(digits_start(t, base) == 2);
    assert(radix_of(t, base) == 16);
    assert(skip_spaces(h, 0) == 0);
    assert(body_index(h) == 0);
    if h.len() > 1 {
        assert(digit_value(h[1]) < 16);
    }
    assert(!has_hex_prefix(h, 0));
    assert(digits_start(h, 16) == 0);
    assert(radix_of(h, 16) == 16);
    assert(!is_negative(t));
    assert(!is_negative(h));
    lemma_digits_end_shift(t, h, 2, 0, 16);
    lemma_digits_end_all(h, 0, 16);
    assert forall|k: int| 0 <= k < h.len() implies byte_at(t, k + 2) == byte_at(h, k) by {}
    lemma_digits_value_shift(t, h, 2, 0, h.len() as int, 16);
    lemma_skip_spaces_bounds(h, 0);
}

proof fn lemma_numeral_subject(n: nat, b: int)
    requires
        2 <= b <= 36,
    ensures
        converts(numeral(n, b as nat), b),
        magnitude(numeral(n, b as nat), b) == n,
        conversion_end(numeral(n, b as nat), b) == numeral(n, b as nat).len(),
        !is_negative(numeral(n, b as nat)),
        body_index(numeral(n, b as nat)) == 0,
        !(byte_at(numeral(n, b as nat), 0) == 32 || (9 <= byte_at(numeral(n, b as nat), 0) <= 13)),
        byte_at(numeral(n, b as nat), 0) != 43,
        byte_at(numeral(n, b as nat), 0) != 45,
{
    let s = numeral(n, b as nat);
    lemma_numeral_digits(n, b as nat);
    lemma_numeral_value(n, b as nat);
    assert(digit_value(s[0]) < b);
    assert(skip_spaces(s, 0) == 0);
    assert(body_index(s) == 0);
    if s.len() > 1 {
        assert(digit_value(s[1]) < b);
    }
    if b == 16 {
        assert(!has_hex_prefix(s, 0));
    }
    assert(digits_start(s, b) == 0);
    assert(radix_of(s, b) == b);
    lemma_digits_end_all(s, 0, b);
}

/// What both conversions give for an optionally signed numeral of any size in any base from
/// 2 to 36: the whole string is consumed; `strtoumax` gives `n` (negated modulo 2^64 after a
/// minus sign), or `u64::MAX` with `ERANGE` where `n` exceeds it; `strtoimax` gives `n` or
/// `-n`, or `i64::MAX`/`i64::MIN` with `ERANGE` where that falls outside `i64`.
pub proof fn law_signed_numeral_every_base(n: nat, b: int, negative: bool)
    requires
        2 <= b <= 36,
    ensures
        ({
            let s = if negative { seq![45u8] + numeral(n, b as nat) } else { numeral(n, b as nat) };
            &&& conversion_end(s, b) == s.len()
            &&& n > u64::MAX ==> strtoumax_value(s, b) == u64::MAX && strtoumax_errno(s, b)
                == Some(crate::errno::ERANGE)
            &&& n <= u64::MAX ==> strtoumax_errno(s, b).is_none() && strtoumax_value(s, b) == (if negative
                && n > 0 {
                0x1_0000_0000_0000_0000 - n
            } else {
                n as int
            })
            &&& !negative && n > i64::MAX ==> strtoimax_value(s, b) == i64::MAX && strtoimax_errno(
                s,
                b,
            ) == Some(crate::errno::ERANGE)
            &&& negative && n > 0x8000_0000_0000_0000 ==> strtoimax_value(s, b) == i64::MIN
                && strtoimax_errno(s, b) == Some(crate::errno::ERANGE)
            &&& !negative && n <= i64::MAX ==> strtoimax_value(s, b) == n && strtoimax_errno(
                s,
                b,
            ).is_none()
            &&& negative && n <= 0x8000_0000_0000_0000 ==> strtoimax_value(s, b) == -n
                && strtoimax_errno(s, b).is_none()
        }),
{
    let d = numeral(n, b as nat);
    lemma_numeral_subject(n, b);
    if negative {
        let t = seq![45u8] + d;
        assert forall|k: int| 0 <= k < d.len() implies t[k + 1] == #[trigger] d[k] by {}
        assert(t[0] == 45);
        assert(skip_spaces(t, 0) == 0);
        assert(sign_index(t) == 0);
        assert(is_negative(t));
        assert(body_index(t) == 1);
        lemma_body_shift(t, d, 1, b);
    }
}

/// In base 0 a leading `0` selects octal: `0` followed by the octal numeral of `n` reads, in
/// base 0, to what that numeral reads to in base 8, with the end one byte further on.
pub proof fn law_base_zero_octal(n: nat)
    ensures
        strtoumax_value(seq![48u8] + numeral(n, 8), 0) == strtoumax_value(numeral(n, 8), 8),
        strtoumax_errno(seq![48u8] + numeral(n, 8), 0) == strtoumax_errno(numeral(n, 8), 8),
        strtoimax_value(seq![48u8] + numeral(n, 8), 0) == strtoimax_value(numeral(n, 8), 8),
        strtoimax_errno(seq![48u8] + numeral(n, 8), 0) == strtoimax_errno(numeral(n, 8), 8),
        conversion_end(seq![48u8] + numeral(n, 8), 0) == 1 + conversion_end(numeral(n, 8), 8),
{
    let d = numeral(n, 8);
    let t = seq![48u8] + d;
    lemma_numeral_subject(n, 8);
    lemma_numeral_digits(n, 8);
    lemma_numeral_value(n, 8);
    assert forall|k: int| 0 <= k < d.len() implies t[k + 1] == #[trigger] d[k] by {}
    assert forall|k: int| 0 <= k < t.len() implies digit_value(#[trigger] t[k]) < 8 by {
        if k > 0 {
            assert(t[k] == d[k - 1]);
            assert(digit_value(d[k - 1]) < 8);
        }
    }
    assert(t[0] == 48);
    assert(skip_spaces(t, 0) == 0);
    assert(body_index(t) == 0);
    assert(digit_value(t[1]) < 8);
    assert(!has_hex_prefix(t, 0));
    assert(radix_of(t, 0) == 8);
    assert(digits_start(t, 0) == 0);
    assert(!is_negative(t));
    lemma_digits_end_all(t, 0, 8);
    assert(digits_value(t, 0, 1, 8) == 0) by {
        assert(digits_value(t, 0, 0, 8) == 0);
        assert(byte_at(t, 0) == 48);
    }
    lemma_digits_value_shift_after_zero(t, d, t.len() as int);
}

/// A leading zero digit adds nothing: the value of `t[0..end]` is that of `d[0..end-1]`.
proof fn lemma_digits_value_shift_after_zero(t: Seq<u8>, d: Seq<u8>, end: int)
    requires
        t.len() == d.len() + 1,
        t[0] == 48,
        forall|k: int| 0 <= k < d.len() ==> t[k + 1] == #[trigger] d[k],
        1 <= end <= t.len(),
    ensures
        digits_value(t, 0, end, 8) == digits_value(d, 0, end - 1, 8),
    decreases end,
{
    if end == 1 {
        assert(digits_value(t, 0, 0, 8) == 0);
        assert(byte_at(t, 0) == 48);
    } else {
        lemma_digits_value_shift_after_zero(t, d, end - 1);
        assert(byte_at(t, end - 1) == byte_at(d, end - 2));
    }
}

} // verus!

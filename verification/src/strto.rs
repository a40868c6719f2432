use vstd::prelude::*;
use crate::errno::{EINVAL, ERANGE};

verus! {

/// The byte at `i` of a NUL-terminated string held in `s`: the end of `s` reads as NUL.
pub open spec fn byte_at(s: Seq<u8>, i: int) -> u8 {
    if 0 <= i < s.len() {
        s[i]
    } else {
        0
    }
}

/// White space in the C locale: space, `\t`, `\n`, `\v`, `\f`, `\r`.
pub open spec fn is_space(c: u8) -> bool {
    c == 32 || (9 <= c && c <= 13)
}

/// Value of an alphanumeric digit (`0`-`9`, then `a`-`z` or `A`-`Z` for 10 to 35); any other
/// byte gets 36, which is a digit in no base.
pub open spec fn digit_value(c: u8) -> int {
    if 48 <= c && c <= 57 {
        c - 48
    } else if 65 <= c && c <= 90 {
        c - 55
    } else if 97 <= c && c <= 122 {
        c - 87
    } else {
        36
    }
}

/// A base that the conversions accept: 0 (detected from the prefix) or 2 to 36.
pub open spec fn valid_base(base: int) -> bool {
    base == 0 || (2 <= base && base <= 36)
}

/// First index at or after `i` that does not hold white space.
pub open spec fn skip_spaces(s: Seq<u8>, i: int) -> int
    decreases s.len() - i,
{
    if 0 <= i < s.len() && is_space(s[i]) {
        skip_spaces(s, i + 1)
    } else {
        i
    }
}

/// First index at or after `i` that does not hold a digit of `radix`.
pub open spec fn digits_end(s: Seq<u8>, i: int, radix: int) -> int
    decreases s.len() - i,
{
    if 0 <= i < s.len() && digit_value(s[i]) < radix {
        digits_end(s, i + 1, radix)
    } else {
        i
    }
}

/// The number that the digits `s[start..end]` denote in `radix`.
pub open spec fn digits_value(s: Seq<u8>, start: int, end: int, radix: int) -> int
    decreases end - start,
{
    if end <= start {
        0
    } else {
        digits_value(s, start, end - 1, radix) * radix + digit_value(byte_at(s, end - 1))
    }
}

/// Index of the optional sign, after the leading white space.
pub open spec fn sign_index(s: Seq<u8>) -> int {
    skip_spaces(s, 0)
}

/// Whether the subject sequence carries a minus sign.
pub open spec fn is_negative(s: Seq<u8>) -> bool {
    byte_at(s, sign_index(s)) == 45
}

/// Index after the optional sign.
pub open spec fn body_index(s: Seq<u8>) -> int {
    let k = sign_index(s);
    if byte_at(s, k) == 43 || byte_at(s, k) == 45 {
        k + 1
    } else {
        k
    }
}

/// `0x` or `0X` at `k`, followed by a hexadecimal digit.
pub open spec fn has_hex_prefix(s: Seq<u8>, k: int) -> bool {
    &&& byte_at(s, k) == 48
    &&& byte_at(s, k + 1) == 120 || byte_at(s, k + 1) == 88
    &&& digit_value(byte_at(s, k + 2)) < 16
}

/// The radix the digits are read in: `base`, or for base 0 the one the prefix selects
/// (`0x` hexadecimal, `0` octal, else decimal).
pub open spec fn radix_of(s: Seq<u8>, base: int) -> int {
    let k = body_index(s);
    if base == 0 {
        if has_hex_prefix(s, k) {
            16
        } else if byte_at(s, k) == 48 {
            8
        } else {
            10
        }
    } else {
        base
    }
}

/// Index of the first digit: after a `0x` prefix where the radix is 16 and one stands there.
pub open spec fn digits_start(s: Seq<u8>, base: int) -> int {
    let k = body_index(s);
    if (base == 0 || base == 16) && has_hex_prefix(s, k) {
        k + 2
    } else {
        k
    }
}

/// End of the subject sequence: the first byte that is not a digit of the radix.
pub open spec fn subject_end(s: Seq<u8>, base: int) -> int {
    digits_end(s, digits_start(s, base), radix_of(s, base))
}

/// Whether a conversion is performed: the base is valid and at least one digit stands there.
pub open spec fn converts(s: Seq<u8>, base: int) -> bool {
    valid_base(base) && subject_end(s, base) > digits_start(s, base)
}

/// The magnitude that the digits of the subject sequence denote.
pub open spec fn magnitude(s: Seq<u8>, base: int) -> int {
    digits_value(s, digits_start(s, base), subject_end(s, base), radix_of(s, base))
}

/// Outcome of a conversion: the value, the index of the first byte not converted (the
/// `endptr` offset), and the `errno` value set, if any.
pub struct Conversion<T> {
    pub value: T,
    pub end: usize,
    pub errno: Option<i32>,
}

/// What the scan of a subject sequence found.
struct Scan {
    negative: bool,
    start: usize,
    end: usize,
    magnitude: u64,
    overflow: bool,
}

/// Whether `c` is white space in the C locale.
pub fn is_space_byte(c: u8) -> (r: bool)
    ensures
        r == is_space(c),
{
    c == 32 || (9 <= c && c <= 13)
}

/// Value of `c` as an alphanumeric digit, 36 for any other byte.
pub fn digit_of(c: u8) -> (r: u32)
    ensures
        r == digit_value(c),
{
    if 48 <= c && c <= 57 {
        (c - 48) as u32
    } else if 65 <= c && c <= 90 {
        (c - 55) as u32
    } else if 97 <= c && c <= 122 {
        (c - 87) as u32
    } else {
        36
    }
}

fn byte_at_exec(s: &[u8], i: usize) -> (r: u8)
    ensures
        r == byte_at(s@, i as int),
{
    if i < s.len() {
        s[i]
    } else {
        0
    }
}

/// A run of digits denotes a non-negative number.
pub proof fn lemma_digits_value_nonneg(s: Seq<u8>, start: int, end: int, radix: int)
    requires
        radix >= 0,
    ensures
        digits_value(s, start, end, radix) >= 0,
    decreases end - start,
{
    if end > start {
        lemma_digits_value_nonneg(s, start, end - 1, radix);
        let v = digits_value(s, start, end - 1, radix);
        assert(v * radix >= 0) by (nonlinear_arith)
            requires
                v >= 0,
                radix >= 0,
        ;
    }
}

/// Reads the digits of `radix` from `start` on, accumulating their value while it fits in
/// a `u64`.
fn scan_digits(s: &[u8], start: usize, radix: u32) -> (r: (u64, bool, usize))
    requires
        2 <= radix <= 36,
        start <= s.len(),
    ensures
        r.2 == digits_end(s@, start as int, radix as int),
        r.1 == (digits_value(s@, start as int, r.2 as int, radix as int) > u64::MAX),
        !r.1 ==> r.0 == digits_value(s@, start as int, r.2 as int, radix as int),
{
    let mut i = start;
    let mut acc: u64 = 0;
    let mut overflow = false;
    while i < s.len() && digit_of(s[i]) < radix
        invariant
            2 <= radix <= 36,
            start <= i <= s.len(),
            digits_end(s@, start as int, radix as int) == digits_end(s@, i as int, radix as int),
            overflow == (digits_value(s@, start as int, i as int, radix as int) > u64::MAX),
            !overflow ==> acc == digits_value(s@, start as int, i as int, radix as int),
        decreases s.len() - i,
    {
        let d = digit_of(s[i]) as u64;
        let ghost v = digits_value(s@, start as int, i as int, radix as int);
        proof {
            lemma_digits_value_nonneg(s@, start as int, i as int, radix as int);
            assert(digits_value(s@, start as int, i + 1, radix as int) == v * radix + d);
            assert(v * radix >= v) by (nonlinear_arith)
                requires
                    v >= 0,
                    radix >= 2,
            ;
        }
        if !overflow {
            match acc.checked_mul(radix as u64) {
                Some(m) => match m.checked_add(d) {
                    Some(n) => {
                        acc = n;
                    },
                    None => {
                        overflow = true;
                    },
                },
                None => {
                    overflow = true;
                },
            }
        }
        i = i + 1;
    }
    (acc, overflow, i)
}

/// Scans white space, sign, prefix and digits of the subject sequence for a valid base.
fn scan(s: &[u8], base: u32) -> (r: Scan)
    requires
        base == 0 || (2 <= base <= 36),
    ensures
        r.negative == is_negative(s@),
        r.start == digits_start(s@, base as int),
        r.end == subject_end(s@, base as int),
        r.overflow == (magnitude(s@, base as int) > u64::MAX),
        !r.overflow ==> r.magnitude == magnitude(s@, base as int),
{
    let mut k: usize = 0;
    while k < s.len() && is_space_byte(s[k])
        invariant
            k <= s.len(),
            skip_spaces(s@, 0) == skip_spaces(s@, k as int),
        decreases s.len() - k,
    {
        k = k + 1;
    }
    let sign = byte_at_exec(s, k);
    let negative = sign == 45;
    if sign == 43 || sign == 45 {
        k = k + 1;
    }
    let mut start = k;
    let mut radix: u32 = if base == 0 { 10 } else { base };
    if k < s.len() && s[k] == 48 {
        let x = byte_at_exec(s, k + 1);
        let hex = (x == 120 || x == 88) && digit_of(byte_at_exec(s, k + 2)) < 16;
        if hex && (base == 0 || base == 16) {
            start = k + 2;
            radix = 16;
        } else if base == 0 {
            radix = 8;
        }
    }
    let (value, overflow, end) = scan_digits(s, start, radix);
    Scan { negative, start, end, magnitude: value, overflow }
}

/// Index of the first byte not converted: the end of the subject sequence, or 0 where no
/// conversion is performed.
pub open spec fn conversion_end(s: Seq<u8>, base: int) -> int {
    if converts(s, base) {
        subject_end(s, base)
    } else {
        0
    }
}

/// Value `strtoumax` returns: the magnitude, negated modulo 2^64 after a minus sign, and
/// `u64::MAX` where the magnitude does not fit.
pub open spec fn strtoumax_value(s: Seq<u8>, base: int) -> int {
    if !converts(s, base) {
        0
    } else if magnitude(s, base) > u64::MAX {
        u64::MAX as int
    } else if is_negative(s) && magnitude(s, base) > 0 {
        0x1_0000_0000_0000_0000 - magnitude(s, base)
    } else {
        magnitude(s, base)
    }
}

/// `errno` that `strtoumax` sets: `EINVAL` where nothing is converted, `ERANGE` where the
/// magnitude does not fit, none otherwise.
pub open spec fn strtoumax_errno(s: Seq<u8>, base: int) -> Option<i32> {
    if !converts(s, base) {
        Some(EINVAL)
    } else if magnitude(s, base) > u64::MAX {
        Some(ERANGE)
    } else {
        None
    }
}

/// Whether the signed value of the subject sequence lies outside the range of `i64`.
pub open spec fn signed_out_of_range(s: Seq<u8>, base: int) -> bool {
    if is_negative(s) {
        magnitude(s, base) > 0x8000_0000_0000_0000
    } else {
        magnitude(s, base) > i64::MAX
    }
}

/// Value `strtoimax` returns: the signed value of the subject sequence, clamped to
/// `i64::MIN` or `i64::MAX` (by its sign) where it does not fit.
pub open spec fn strtoimax_value(s: Seq<u8>, base: int) -> int {
    if !converts(s, base) {
        0
    } else if signed_out_of_range(s, base) {
        if is_negative(s) {
            i64::MIN as int
        } else {
            i64::MAX as int
        }
    } else if is_negative(s) {
        -magnitude(s, base)
    } else {
        magnitude(s, base)
    }
}

/// `errno` that `strtoimax` sets: `EINVAL` where nothing is converted, `ERANGE` where the
/// value does not fit, none otherwise.
pub open spec fn strtoimax_errno(s: Seq<u8>, base: int) -> Option<i32> {
    if !converts(s, base) {
        Some(EINVAL)
    } else if signed_out_of_range(s, base) {
        Some(ERANGE)
    } else {
        None
    }
}

fn accepts_base(base: i32) -> (r: bool)
    ensures
        r == valid_base(base as int),
{
    base == 0 || (2 <= base && base <= 36)
}

/// Skipping white space from inside the string stops inside it.
pub proof fn lemma_skip_spaces_bounds(s: Seq<u8>, i: int)
    requires
        0 <= i <= s.len(),
    ensures
        i <= skip_spaces(s, i) <= s.len(),
    decreases s.len() - i,
{
    if i < s.len() && is_space(s[i]) {
        lemma_skip_spaces_bounds(s, i + 1);
    }
}

proof fn lemma_digits_end_bounds(s: Seq<u8>, i: int, radix: int)
    requires
        0 <= i,
    ensures
        i <= digits_end(s, i, radix),
        i <= s.len() ==> digits_end(s, i, radix) <= s.len(),
    decreases s.len() - i,
{
    if i < s.len() && digit_value(s[i]) < radix {
        lemma_digits_end_bounds(s, i + 1, radix);
    }
}

/// The end of a conversion lies within the string.
proof fn lemma_conversion_end_bounds(s: Seq<u8>, base: int)
    ensures
        0 <= conversion_end(s, base) <= s.len(),
{
    lemma_skip_spaces_bounds(s, 0);
    let start = digits_start(s, base);
    lemma_digits_end_bounds(s, start, radix_of(s, base));
    if converts(s, base) {
        assert(start < s.len()) by {
            if start >= s.len() {
                assert(digits_end(s, start, radix_of(s, base)) == start);
            }
        }
    }
}

/// Converts the initial part of the NUL-terminated string `s` to an unsigned integer in
/// `base`: leading white space is skipped, a `+` or `-` sign read, then a `0x`/`0X` prefix
/// (bases 0 and 16) or a leading `0` (base 0, octal), then the longest run of digits.
pub fn strtoumax(s: &[u8], base: i32) -> (r: Conversion<u64>)
    ensures
        r.value == strtoumax_value(s@, base as int),
        r.end == conversion_end(s@, base as int),
        r.errno == strtoumax_errno(s@, base as int),
        r.end <= s.len(),
{
    proof {
        lemma_conversion_end_bounds(s@, base as int);
    }
    if !accepts_base(base) {
        return Conversion { value: 0, end: 0, errno: Some(EINVAL) };
    }
    let sc = scan(s, base as u32);
    if sc.end <= sc.start {
        return Conversion { value: 0, end: 0, errno: Some(EINVAL) };
    }
    if sc.overflow {
        Conversion { value: u64::MAX, end: sc.end, errno: Some(ERANGE) }
    } else if sc.negative && sc.magnitude > 0 {
        Conversion { value: u64::MAX - sc.magnitude + 1, end: sc.end, errno: None }
    } else {
        Conversion { value: sc.magnitude, end: sc.end, errno: None }
    }
}

/// Converts the initial part of the NUL-terminated string `s` to a signed integer in
/// `base`, read as `strtoumax` reads it; a value outside the range of `i64` gives `i64::MIN`
/// or `i64::MAX` and `ERANGE`.
pub fn strtoimax(s: &[u8], base: i32) -> (r: Conversion<i64>)
    ensures
        r.value == strtoimax_value(s@, base as int),
        r.end == conversion_end(s@, base as int),
        r.errno == strtoimax_errno(s@, base as int),
        r.end <= s.len(),
{
    proof {
        lemma_conversion_end_bounds(s@, base as int);
    }
    if !accepts_base(base) {
        return Conversion { value: 0, end: 0, errno: Some(EINVAL) };
    }
    let sc = scan(s, base as u32);
    if sc.end <= sc.start {
        return Conversion { value: 0, end: 0, errno: Some(EINVAL) };
    }
    if sc.negative {
        if sc.overflow || sc.magnitude > 0x8000_0000_0000_0000 {
            Conversion { value: i64::MIN, end: sc.end, errno: Some(ERANGE) }
        } else if sc.magnitude == 0x8000_0000_0000_0000 {
            Conversion { value: i64::MIN, end: sc.end, errno: None }
        } else {
            Conversion { value: -(sc.magnitude as i64), end: sc.end, errno: None }
        }
    } else {
        if sc.overflow || sc.magnitude > 0x7fff_ffff_ffff_ffff {
            Conversion { value: i64::MAX, end: sc.end, errno: Some(ERANGE) }
        } else {
            Conversion { value: sc.magnitude as i64, end: sc.end, errno: None }
        }
    }
}

} // verus!

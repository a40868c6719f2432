use posixlib::errno::{EINVAL, ERANGE};
use posixlib::strto::{strtoimax, strtoumax};

#[test]
fn decimal_with_space_and_sign() {
    let r = strtoimax(b"  42", 10);
    assert_eq!((r.value, r.end, r.errno), (42, 4, None));
    let r = strtoimax(b"-123abc", 10);
    assert_eq!((r.value, r.end, r.errno), (-123, 4, None));
    let r = strtoimax(b"+7", 10);
    assert_eq!((r.value, r.end, r.errno), (7, 2, None));
    let r = strtoimax(b"\t\n\x0b\x0c\r 5", 0);
    assert_eq!((r.value, r.end, r.errno), (5, 7, None));
}

#[test]
fn hexadecimal_prefix() {
    let r = strtoimax(b"0x1F", 16);
    assert_eq!((r.value, r.end), (31, 4));
    let r = strtoimax(b"0X1f", 0);
    assert_eq!((r.value, r.end), (31, 4));
    let r = strtoimax(b"1f", 16);
    assert_eq!((r.value, r.end), (31, 2));
    let r = strtoimax(b"0x1F", 10);
    assert_eq!((r.value, r.end, r.errno), (0, 1, None));
    let r = strtoimax(b"0xg", 16);
    assert_eq!((r.value, r.end, r.errno), (0, 1, None));
    let r = strtoimax(b"-0x10", 0);
    assert_eq!((r.value, r.end), (-16, 5));
}

#[test]
fn octal_and_other_bases() {
    let r = strtoimax(b"0755", 0);
    assert_eq!((r.value, r.end), (493, 4));
    let r = strtoimax(b"0", 0);
    assert_eq!((r.value, r.end, r.errno), (0, 1, None));
    let r = strtoimax(b"0789", 0);
    assert_eq!((r.value, r.end), (7, 2));
    let r = strtoimax(b"z", 36);
    assert_eq!((r.value, r.end), (35, 1));
    let r = strtoimax(b"1012", 2);
    assert_eq!((r.value, r.end), (5, 3));
}

#[test]
fn no_conversion_sets_einval() {
    for (s, base) in [(&b""[..], 10), (&b"abc"[..], 10), (&b"   "[..], 0), (&b"-"[..], 10), (&b"+ 1"[..], 10)] {
        let r = strtoimax(s, base);
        assert_eq!((r.value, r.end, r.errno), (0, 0, Some(EINVAL)));
        let r = strtoumax(s, base);
        assert_eq!((r.value, r.end, r.errno), (0, 0, Some(EINVAL)));
    }
}

#[test]
fn invalid_base_sets_einval() {
    for base in [1, -1, 37, 100] {
        let r = strtoimax(b"10", base);
        assert_eq!((r.value, r.end, r.errno), (0, 0, Some(EINVAL)));
        let r = strtoumax(b"10", base);
        assert_eq!((r.value, r.end, r.errno), (0, 0, Some(EINVAL)));
    }
}

#[test]
fn signed_range() {
    let r = strtoimax(b"9223372036854775807", 10);
    assert_eq!((r.value, r.end, r.errno), (i64::MAX, 19, None));
    let r = strtoimax(b"9223372036854775808", 10);
    assert_eq!((r.value, r.end, r.errno), (i64::MAX, 19, Some(ERANGE)));
    let r = strtoimax(b"-9223372036854775808", 10);
    assert_eq!((r.value, r.end, r.errno), (i64::MIN, 20, None));
    let r = strtoimax(b"-9223372036854775809", 10);
    assert_eq!((r.value, r.end, r.errno), (i64::MIN, 20, Some(ERANGE)));
    let r = strtoimax(b"99999999999999999999999999 rest", 10);
    assert_eq!((r.value, r.end, r.errno), (i64::MAX, 26, Some(ERANGE)));
}

#[test]
fn unsigned_range_and_negation() {
    let r = strtoumax(b"18446744073709551615", 10);
    assert_eq!((r.value, r.end, r.errno), (u64::MAX, 20, None));
    let r = strtoumax(b"18446744073709551616", 10);
    assert_eq!((r.value, r.end, r.errno), (u64::MAX, 20, Some(ERANGE)));
    let r = strtoumax(b"-1", 10);
    assert_eq!((r.value, r.end, r.errno), (u64::MAX, 2, None));
    let r = strtoumax(b"-0", 10);
    assert_eq!((r.value, r.end, r.errno), (0, 2, None));
    let r = strtoumax(b"-18446744073709551616", 10);
    assert_eq!((r.value, r.errno), (u64::MAX, Some(ERANGE)));
    let r = strtoumax(b"ffffffffffffffff", 16);
    assert_eq!((r.value, r.end, r.errno), (u64::MAX, 16, None));
}

#[test]
fn nul_ends_the_string() {
    let r = strtoimax(b"12\0 34", 10);
    assert_eq!((r.value, r.end), (12, 2));
    let r = strtoumax(b"\0 12", 10);
    assert_eq!((r.value, r.end, r.errno), (0, 0, Some(EINVAL)));
}

#[test]
fn decimal_round_trip() {
    for n in [0u64, 1, 9, 10, 12345, 4294967296, u64::MAX - 1, u64::MAX] {
        let text = n.to_string();
        let r = strtoumax(text.as_bytes(), 10);
        assert_eq!((r.value, r.end, r.errno), (n, text.len(), None));
    }
    for n in [0i64, -1, 77, -9000, i64::MAX, i64::MIN] {
        let text = n.to_string();
        let r = strtoimax(text.as_bytes(), 10);
        assert_eq!((r.value, r.end, r.errno), (n, text.len(), None));
    }
}

#[test]
fn leading_space_only_moves_the_end() {
    let plain = strtoimax(b"-42x", 10);
    let spaced = strtoimax(b" \t -42x", 10);
    assert_eq!((plain.value, plain.errno), (spaced.value, spaced.errno));
    assert_eq!(spaced.end, plain.end + 3);
    let plain = strtoumax(b"zz", 10);
    let spaced = strtoumax(b"   zz", 10);
    assert_eq!((plain.value, plain.end, plain.errno), (spaced.value, spaced.end, spaced.errno));
}

#[test]
fn signed_and_unsigned_agree_modulo() {
    for s in [&b"-5"[..], b"123", b"-0x7f", b"0"] {
        let i = strtoimax(s, 0);
        let u = strtoumax(s, 0);
        assert_eq!(i.value as u64, u.value);
        assert_eq!(i.end, u.end);
        assert_eq!(i.errno, u.errno);
    }
}

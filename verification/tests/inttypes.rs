use posixlib::inttypes::{imaxabs, imaxdiv};

#[test]
fn imaxabs_of_positive_and_negative() {
    assert_eq!(imaxabs(5), 5);
    assert_eq!(imaxabs(-5), 5);
    assert_eq!(imaxabs(0), 0);
    assert_eq!(imaxabs(i64::MAX), i64::MAX);
    assert_eq!(imaxabs(i64::MIN + 1), i64::MAX);
}

#[test]
fn imaxabs_is_even() {
    for i in [1i64, 17, 123456789, i64::MAX] {
        assert_eq!(imaxabs(i), imaxabs(-i));
    }
}

#[test]
fn imaxdiv_rounds_toward_zero() {
    let r = imaxdiv(7, 2);
    assert_eq!((r.quot, r.rem), (3, 1));
    let r = imaxdiv(-7, 2);
    assert_eq!((r.quot, r.rem), (-3, -1));
    let r = imaxdiv(7, -2);
    assert_eq!((r.quot, r.rem), (-3, 1));
    let r = imaxdiv(-7, -2);
    assert_eq!((r.quot, r.rem), (3, -1));
}

#[test]
fn imaxdiv_extremes() {
    let r = imaxdiv(i64::MIN, 1);
    assert_eq!((r.quot, r.rem), (i64::MIN, 0));
    let r = imaxdiv(i64::MIN, 2);
    assert_eq!((r.quot, r.rem), (i64::MIN / 2, 0));
    let r = imaxdiv(i64::MAX, -1);
    assert_eq!((r.quot, r.rem), (-i64::MAX, 0));
    let r = imaxdiv(0, 9);
    assert_eq!((r.quot, r.rem), (0, 0));
}

#[test]
fn imaxdiv_identity_holds() {
    let samples = [-1000i64, -37, -1, 0, 1, 5, 99, 1000, i64::MAX, i64::MIN + 1];
    for &i in samples.iter() {
        for &j in [-7i64, -3, -1, 1, 2, 10, 1 << 40].iter() {
            let r = imaxdiv(i, j);
            assert_eq!(r.quot * j + r.rem, i);
            assert!(r.rem.abs() < j.abs());
            assert!(r.rem == 0 || (r.rem < 0) == (i < 0));
        }
    }
}

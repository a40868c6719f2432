use vstd::prelude::*;

verus! {

/// The widest signed integer type.
#[allow(non_camel_case_types)]
pub type intmax_t = i64;

/// The widest unsigned integer type.
#[allow(non_camel_case_types)]
pub type uintmax_t = u64;

/// Absolute value of a mathematical integer.
pub open spec fn abs_spec(i: int) -> int {
    if i < 0 {
        -i
    } else {
        i
    }
}

/// Quotient of `a / b` rounded toward zero, as C99 and Rust define it.
pub open spec fn trunc_div(a: int, b: int) -> int {
    if (a < 0) == (b < 0) {
        abs_spec(a) / abs_spec(b)
    } else {
        -(abs_spec(a) / abs_spec(b))
    }
}

/// Remainder of `a / b` when the quotient is rounded toward zero: it takes the sign of `a`.
pub open spec fn trunc_rem(a: int, b: int) -> int {
    if a < 0 {
        -(abs_spec(a) % abs_spec(b))
    } else {
        abs_spec(a) % abs_spec(b)
    }
}

/// Quotient and remainder of one division, as `imaxdiv` returns them.
#[allow(non_camel_case_types)]
pub struct intmaxdiv_t {
    pub quot: intmax_t,
    pub rem: intmax_t,
}

/// Absolute value of `i`. `i64::MIN` has no representable absolute value, so it is not
/// accepted.
pub fn imaxabs(i: intmax_t) -> (r: intmax_t)
    requires
        i != i64::MIN,
    ensures
        r == abs_spec(i as int),
        r >= 0,
{
    if i < 0 {
        -i
    } else {
        i
    }
}

/// The division identity of a quotient rounded toward zero and its remainder.
pub proof fn lemma_trunc_div_rem(a: int, b: int)
    requires
        b != 0,
    ensures
        trunc_div(a, b) * b + trunc_rem(a, b) == a,
        abs_spec(trunc_rem(a, b)) < abs_spec(b),
        trunc_rem(a, b) == 0 || ((trunc_rem(a, b) < 0) == (a < 0)),
        abs_spec(trunc_div(a, b)) * abs_spec(b) <= abs_spec(a),
{
    let x = abs_spec(a);
    let d = abs_spec(b);
    let q = x / d;
    let r = x % d;
    assert(q * d + r == x && 0 <= r < d) by (nonlinear_arith)
        requires
            d > 0,
            x >= 0,
            q == x / d,
            r == x % d,
    ;
    if a < 0 && b < 0 {
        assert(q * b == -(q * d)) by (nonlinear_arith)
            requires
                d == -b,
        ;
    } else if a < 0 {
        assert(-q * b == -(q * d)) by (nonlinear_arith)
            requires
                d == b,
        ;
    } else if b < 0 {
        assert(-q * b == q * d) by (nonlinear_arith)
            requires
                d == -b,
        ;
    }
}

/// Quotient and remainder of `i / j`, the quotient rounded toward zero. A zero divisor,
/// and `i64::MIN / -1` whose quotient does not fit, are not accepted.
pub fn imaxdiv(i: intmax_t, j: intmax_t) -> (r: intmaxdiv_t)
    requires
        j != 0,
        !(i == i64::MIN && j == -1),
    ensures
        r.quot == trunc_div(i as int, j as int),
        r.rem == trunc_rem(i as int, j as int),
        r.quot * j + r.rem == i,
        abs_spec(r.rem as int) < abs_spec(j as int),
        r.rem == 0 || ((r.rem < 0) == (i < 0)),
{
    proof {
        lemma_trunc_div_rem(i as int, j as int);
        let q = trunc_div(i as int, j as int);
        assert(abs_spec(q) <= abs_spec(q) * abs_spec(j as int)) by (nonlinear_arith)
            requires
                abs_spec(j as int) >= 1,
                abs_spec(q) >= 0,
        ;
        if q > i64::MAX {
            assert(abs_spec(q) * abs_spec(j as int) <= abs_spec(i as int));
            assert(abs_spec(j as int) == 1) by (nonlinear_arith)
                requires
                    abs_spec(q) * abs_spec(j as int) <= abs_spec(i as int),
                    abs_spec(i as int) <= abs_spec(q),
                    abs_spec(q) > 0,
                    abs_spec(j as int) >= 1,
            ;
        }
        assert(i64::MIN <= q <= i64::MAX);
    }
    let quot = match i.checked_div(j) {
        Some(q) => q,
        None => 0,
    };
    let rem = match i.checked_rem(j) {
        Some(m) => m,
        None => 0,
    };
    intmaxdiv_t { quot, rem }
}

} // verus!

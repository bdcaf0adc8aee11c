use vstd::prelude::*;

verus! {

/// Rust's truncating quotient of `a` by `b`, in terms of Euclidean division.
pub open spec fn trunc_div(a: int, b: int) -> int {
    if a >= 0 { a / b } else { -((-a) / b) }
}

/// Rust's truncating remainder of `a` by `b`.
pub open spec fn trunc_rem(a: int, b: int) -> int {
    if a >= 0 { a % b } else { -((-a) % b) }
}

/// `q` is `a // b` rounded toward negative infinity (and 0 when `b == 0`).
pub open spec fn is_floor_div(a: int, b: int, q: int) -> bool {
    &&& b == 0 ==> q == 0
    &&& b > 0 ==> q * b <= a < q * b + b
    &&& b < 0 ==> q * b >= a > q * b + b
}

pub proof fn lemma_trunc_div_rem(a: int, b: int)
    requires
        b != 0,
    ensures
        a == trunc_div(a, b) * b + trunc_rem(a, b),
        a >= 0 ==> 0 <= trunc_rem(a, b) < (if b > 0 { b } else { -b }),
        a < 0 ==> -(if b > 0 { b } else { -b }) < trunc_rem(a, b) <= 0,
        -(if a >= 0 { a } else { -a }) <= trunc_div(a, b) <= (if a >= 0 { a } else { -a }),
{
    if a >= 0 {
        vstd::arithmetic::div_mod::lemma_fundamental_div_mod(a, b);
        assert(a == (a / b) * b + a % b) by (nonlinear_arith)
            requires a == b * (a / b) + a % b;
        assert(-a <= a / b <= a) by (nonlinear_arith)
            requires a == b * (a / b) + a % b, a >= 0, b != 0,
                0 <= a % b < (if b > 0 { b } else { -b });
    } else {
        vstd::arithmetic::div_mod::lemma_fundamental_div_mod(-a, b);
        assert(-a == b * ((-a) / b) + (-a) % b);
        assert(a == (-((-a) / b)) * b + (-((-a) % b))) by (nonlinear_arith)
            requires -a == b * ((-a) / b) + (-a) % b;
        assert(a <= (-a) / b <= -a) by (nonlinear_arith)
            requires -a == b * ((-a) / b) + (-a) % b, a < 0, b != 0,
                0 <= (-a) % b < (if b > 0 { b } else { -b });
    }
}

/// For a positive divisor, floor division is the Euclidean quotient.
pub proof fn lemma_floor_div_pos(a: int, b: int, q: int)
    requires
        b > 0,
        is_floor_div(a, b, q),
    ensures
        q == a / b,
{
    vstd::arithmetic::div_mod::lemma_fundamental_div_mod(a, b);
    let e = a / b;
    assert(e * b <= a < e * b + b) by (nonlinear_arith)
        requires a == b * (a / b) + a % b, 0 <= a % b < b, e == a / b;
    assert(q == e) by (nonlinear_arith)
        requires q * b <= a < q * b + b, e * b <= a < e * b + b, b > 0;
}

/// Floor division `a // b` (Python semantics); 0 when `b` is 0.
pub fn floor_div(a: i32, b: i32) -> (q: i32)
    requires
        !(a == i32::MIN && b == -1),
    ensures
        is_floor_div(a as int, b as int, q as int),
{
    if b == 0 {
        return 0;
    }
    let q = a / b;
    let r = a % b;
    proof {
        lemma_trunc_div_rem(a as int, b as int);
        assert(q == trunc_div(a as int, b as int));
        assert(r == trunc_rem(a as int, b as int));
    }
    if r != 0 && ((a < 0) != (b < 0)) {
        assert(q > i32::MIN) by (nonlinear_arith)
            requires a == q * b + r, r != 0, (a < 0) != (b < 0), b != 0,
                -(if a >= 0 { a as int } else { -a }) <= q,
                a >= 0 ==> 0 <= r < (if b > 0 { b as int } else { -b }),
                a < 0 ==> -(if b > 0 { b as int } else { -b }) < r <= 0,
                i32::MIN <= a;
        let f = q - 1;
        assert(is_floor_div(a as int, b as int, f as int)) by (nonlinear_arith)
            requires a == q * b + r, r != 0, (a < 0) != (b < 0), f == q - 1,
                a >= 0 ==> 0 <= r < (if b > 0 { b as int } else { -b }),
                a < 0 ==> -(if b > 0 { b as int } else { -b }) < r <= 0;
        f
    } else {
        assert(is_floor_div(a as int, b as int, q as int)) by (nonlinear_arith)
            requires a == q * b + r, b != 0, !(r != 0 && ((a < 0) != (b < 0))),
                a >= 0 ==> 0 <= r < (if b > 0 { b as int } else { -b }),
                a < 0 ==> -(if b > 0 { b as int } else { -b }) < r <= 0;
        q
    }
}

/// The non-negative remainder of `x` by a positive `m` (`i32::rem_euclid`).
pub fn rem_euclid(x: i32, m: i32) -> (r: i32)
    requires
        m > 0,
    ensures
        r == (x as int) % (m as int),
        0 <= r < m,
{
    let t = x % m;
    proof {
        lemma_trunc_div_rem(x as int, m as int);
        assert(t == trunc_rem(x as int, m as int));
    }
    if t < 0 {
        proof {
            let q = trunc_div(x as int, m as int);
            assert(x == (q - 1) * m + (t + m)) by (nonlinear_arith)
                requires x == q * m + t;
            vstd::arithmetic::div_mod::lemma_fundamental_div_mod_converse_mod(x as int, m as int, q - 1, t + m);
        }
        t + m
    } else {
        proof {
            let q = trunc_div(x as int, m as int);
            vstd::arithmetic::div_mod::lemma_fundamental_div_mod_converse_mod(x as int, m as int, q, t as int);
        }
        t
    }
}

} // verus!

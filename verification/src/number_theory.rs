use vstd::prelude::*;
use vstd::arithmetic::div_mod::*;
use vstd::arithmetic::mul::lemma_mul_is_commutative;
use vstd::arithmetic::power::pow;

verus! {

pub open spec fn abs(x: int) -> int {
    if x < 0 { -x } else { x }
}

/// Rust's `%` on signed integers: the remainder of truncating division,
/// which takes the sign of the dividend. (The spec operator `%` is the
/// Euclidean remainder, which lies in `[0, |m|)` for any `m != 0`.)
pub open spec fn trem(a: int, m: int) -> int {
    if a >= 0 { a % m } else { -((-a) % m) }
}

/// Rust's `/` on signed integers: division rounded toward zero.
pub open spec fn tdiv(a: int, m: int) -> int {
    if a >= 0 { a / m } else { -((-a) / m) }
}

/// Euclidean division by a negative divisor, in terms of its magnitude.
proof fn lemma_div_mod_neg_divisor(x: int, m: int)
    requires
        m < 0,
    ensures
        x % m == x % (-m),
        x / m == -(x / (-m)),
{
    assert(0 <= x % m < -m) by (nonlinear_arith)
        requires m < 0;
    lemma_fundamental_div_mod(x, m);
    let q = x / m;
    assert(m * q == (-q) * (-m)) by (nonlinear_arith);
    lemma_fundamental_div_mod_converse(x, -m, -q, x % m);
    lemma_fundamental_div_mod(x, -m);
}

/// Truncating division in terms of magnitudes and signs.
pub proof fn lemma_tdiv_trem(a: int, m: int)
    requires
        m != 0,
    ensures
        a == tdiv(a, m) * m + trem(a, m),
        abs(tdiv(a, m)) == abs(a) / abs(m),
        abs(trem(a, m)) == abs(a) % abs(m),
        abs(trem(a, m)) < abs(m),
        abs(a) == abs(tdiv(a, m)) * abs(m) + abs(trem(a, m)),
        trem(a, m) == 0 || ((trem(a, m) > 0) == (a > 0)),
        tdiv(a, m) == 0 || ((tdiv(a, m) > 0) == ((a > 0) == (m > 0))),
{
    let am = abs(m);
    let aa = abs(a);
    lemma_fundamental_div_mod(aa, am);
    lemma_mod_pos_bound(aa, am);
    lemma_div_pos_is_pos(aa, am);
    let q = aa / am;
    let r = aa % am;
    if m < 0 {
        lemma_div_mod_neg_divisor(a, m);
        lemma_div_mod_neg_divisor(-a, m);
    }
    let tq = tdiv(a, m);
    let tr = trem(a, m);
    assert(tq == if (a >= 0) == (m > 0) { q } else { -q });
    assert(tr == if a >= 0 { r } else { -r });
    assert(aa == q * am + r) by (nonlinear_arith)
        requires aa == am * q + r;
    assert(a == tq * m + tr) by (nonlinear_arith)
        requires
            aa == q * am + r,
            tq == if (a >= 0) == (m > 0) { q } else { -q },
            tr == if a >= 0 { r } else { -r },
            aa == if a < 0 { -a } else { a },
            am == if m < 0 { -m } else { m },
    ;
    if q != 0 {
        assert(q > 0);
        assert(aa > 0) by (nonlinear_arith)
            requires aa == q * am + r, q > 0, am > 0, r >= 0;
    }
}

/// Greatest common divisor of two natural numbers (Euclid).
pub open spec fn gcd(a: nat, b: nat) -> nat
    decreases b,
{
    if b == 0 {
        a
    } else {
        gcd(b, a % b)
    }
}

/// The extended Euclidean algorithm on integers, with Rust's truncating
/// division: `(s, t, g)` with `s * a + t * b == g` and `|g| == gcd(|a|, |b|)`.
pub open spec fn ext_gcd(a: int, b: int) -> (int, int, int)
    decreases abs(b),
{
    if b == 0 {
        (1, 0, a)
    } else {
        proof {
            lemma_tdiv_trem(a, b);
        }
        let e = ext_gcd(b, trem(a, b));
        (e.1, e.0 - tdiv(a, b) * e.1, e.2)
    }
}

/// `ext_gcd` gives Bezout coefficients of the gcd.
pub proof fn lemma_ext_gcd(a: int, b: int)
    ensures
        ext_gcd(a, b).0 * a + ext_gcd(a, b).1 * b == ext_gcd(a, b).2,
        abs(ext_gcd(a, b).2) == gcd(abs(a) as nat, abs(b) as nat),
        a >= 0 && b >= 0 ==> ext_gcd(a, b).2 >= 0,
    decreases abs(b),
{
    if b != 0 {
        lemma_tdiv_trem(a, b);
        let r = trem(a, b);
        let q = tdiv(a, b);
        lemma_ext_gcd(b, r);
        let e = ext_gcd(b, r);
        assert(e.1 * a + (e.0 - q * e.1) * b == e.0 * b + e.1 * r) by (nonlinear_arith)
            requires a == q * b + r;
        assert(abs(r) as nat == (abs(a) as nat) % (abs(b) as nat));
    }
}

/// Nonzero numbers whose signs agree, or disagree, in the same way.
pub open spec fn alternating(s0: int, s1: int, a0: int, a1: int) -> bool {
    s0 == 0 || s1 == 0 || a0 == 0 || a1 == 0 || (((s0 > 0) != (s1 > 0)) == ((a0 > 0) == (a1 > 0)))
}

proof fn lemma_abs_mul(x: int, y: int)
    ensures
        abs(x * y) == abs(x) * abs(y),
        x != 0 && y != 0 ==> x * y != 0 && ((x * y > 0) == ((x > 0) == (y > 0))),
{
    assert(abs(x * y) == abs(x) * abs(y)) by (nonlinear_arith);
    assert(x != 0 && y != 0 ==> x * y != 0 && ((x * y > 0) == ((x > 0) == (y > 0)))) by (nonlinear_arith);
}

/// One step of the extended Euclidean algorithm keeps the coefficients
/// bounded: `|s_{i+1}| * |r_i| + |s_i| * |r_{i+1}|` is the same at every step.
pub proof fn lemma_xgcd_coeff_step(a0: int, a1: int, s0: int, s1: int, bound: int)
    requires
        a1 != 0,
        abs(s1) * abs(a0) + abs(s0) * abs(a1) == bound,
        alternating(s0, s1, a0, a1),
    ensures
        ({
            let q = tdiv(a0, a1);
            let a2 = trem(a0, a1);
            let s2 = s0 - q * s1;
            &&& abs(s2) * abs(a1) + abs(s1) * abs(a2) == bound
            &&& alternating(s1, s2, a1, a2)
            &&& abs(q * s1) <= abs(s2) <= bound
        }),
{
    lemma_tdiv_trem(a0, a1);
    let q = tdiv(a0, a1);
    let a2 = trem(a0, a1);
    let s2 = s0 - q * s1;
    lemma_abs_mul(q, s1);
    let qs = q * s1;
    assert(abs(s2) == abs(s0) + abs(qs));
    assert(abs(s2) * abs(a1) + abs(s1) * abs(a2) == bound) by (nonlinear_arith)
        requires
            abs(s2) == abs(s0) + abs(q) * abs(s1),
            abs(a0) == abs(q) * abs(a1) + abs(a2),
            abs(s1) * abs(a0) + abs(s0) * abs(a1) == bound,
    ;
    assert(abs(s2) <= bound) by (nonlinear_arith)
        requires
            abs(s2) * abs(a1) + abs(s1) * abs(a2) == bound,
            abs(a1) >= 1,
            abs(s2) >= 0,
            abs(s1) >= 0,
            abs(a2) >= 0,
    ;
}

/// What `trem` keeps of its argument: the residue, and the sign.
pub proof fn lemma_trem(a: int, m: int)
    requires
        m != 0,
    ensures
        trem(a, m) % m == a % m,
        abs(trem(a, m)) < abs(m),
        (trem(a, m) == 0) == (a % m == 0),
        trem(a, m) == 0 || ((trem(a, m) > 0) == (a > 0)),
        0 <= a ==> trem(a, m) == a % m,
        0 <= a < abs(m) ==> trem(a, m) == a,
{
    let am = abs(m);
    lemma_tdiv_trem(a, m);
    if m < 0 {
        lemma_div_mod_neg_divisor(a, m);
        lemma_div_mod_neg_divisor(-a, m);
        lemma_div_mod_neg_divisor(trem(a, m), m);
    }
    lemma_mod_twice(a, am);
    lemma_sub_mod_noop_right(0, -a, am);
    lemma_sub_mod_noop_right(0, a, am);
    lemma_mod_pos_bound(a % am, am);
    if a < 0 {
        lemma_mod_pos_bound(-a, am);
        let r = a % am;
        if r != 0 {
            lemma_fundamental_div_mod_converse(-r, am, -1, am - r);
        }
        lemma_small_mod(0, am as nat);
    }
    if 0 <= a < am {
        lemma_small_mod(a as nat, am as nat);
    }
}

/// Two numbers with the same residue and the same sign (or a zero residue)
/// have the same truncated remainder.
pub proof fn lemma_trem_congruent(x: int, y: int, m: int)
    requires
        m != 0,
        x % m == y % m,
        ((x >= 0) == (y >= 0)) || x % m == 0,
    ensures
        trem(x, m) == trem(y, m),
{
    lemma_trem(x, m);
    lemma_trem(y, m);
    let am = abs(m);
    if m < 0 {
        lemma_div_mod_neg_divisor(x, m);
        lemma_div_mod_neg_divisor(y, m);
        lemma_div_mod_neg_divisor(-x, m);
        lemma_div_mod_neg_divisor(-y, m);
    }
    lemma_sub_mod_noop_right(0, x, am);
    lemma_sub_mod_noop_right(0, y, am);
    lemma_mod_twice(x, am);
    lemma_mod_twice(y, am);
}

/// Reducing factors first does not change the truncated remainder of a product.
pub proof fn lemma_trem_mul(a: int, b: int, m: int)
    requires
        m != 0,
    ensures
        trem(trem(a, m) * trem(b, m), m) == trem(a * b, m),
        trem(trem(a, m) * b, m) == trem(a * b, m),
        trem(a * trem(b, m), m) == trem(a * b, m),
{
    let am = abs(m);
    let ta = trem(a, m);
    let tb = trem(b, m);
    lemma_trem(a, m);
    lemma_trem(b, m);
    if m < 0 {
        lemma_div_mod_neg_divisor(a, m);
        lemma_div_mod_neg_divisor(b, m);
        lemma_div_mod_neg_divisor(ta, m);
        lemma_div_mod_neg_divisor(tb, m);
        lemma_div_mod_neg_divisor(a * b, m);
        lemma_div_mod_neg_divisor(ta * tb, m);
        lemma_div_mod_neg_divisor(ta * b, m);
        lemma_div_mod_neg_divisor(a * tb, m);
    }
    lemma_mul_mod_noop_general(ta, tb, am);
    lemma_mul_mod_noop_general(a, b, am);
    lemma_mul_mod_noop_general(ta, b, am);
    lemma_mul_mod_noop_general(a, tb, am);
    lemma_abs_mul(ta, tb);
    lemma_abs_mul(a, b);
    lemma_abs_mul(ta, b);
    lemma_abs_mul(a, tb);
    assert(a * 0 == 0 && 0 * b == 0) by (nonlinear_arith);
    lemma_small_mod(0, am as nat);
    lemma_trem_congruent(ta * tb, a * b, m);
    lemma_trem_congruent(ta * b, a * b, m);
    lemma_trem_congruent(a * tb, a * b, m);
}

/// `n` is a prime: greater than one, with no divisor strictly between one and `n`.
pub open spec fn is_prime(n: int) -> bool {
    n > 1 && forall|d: int| 1 < d < n ==> #[trigger] (n % d) != 0
}

/// The gcd divides both arguments, and is positive unless both are zero.
pub proof fn lemma_gcd_divides(a: nat, b: nat)
    ensures
        a > 0 || b > 0 ==> gcd(a, b) > 0,
        gcd(a, b) > 0 ==> a % gcd(a, b) == 0 && b % gcd(a, b) == 0,
    decreases b,
{
    let g = gcd(a, b);
    if b == 0 {
        if a > 0 {
            lemma_mod_self_0(a as int);
        }
    } else {
        let r = a % b;
        lemma_mod_pos_bound(a as int, b as int);
        lemma_gcd_divides(b, r);
        if g > 0 {
            lemma_fundamental_div_mod(a as int, b as int);
            lemma_fundamental_div_mod(b as int, g as int);
            lemma_fundamental_div_mod(r as int, g as int);
            let qb = b / g;
            let qr = r / g;
            let q = a / b;
            assert(a == g * (qb * q + qr)) by (nonlinear_arith)
                requires
                    a == b * q + r,
                    b == g * qb,
                    r == g * qr,
            ;
            lemma_mod_multiples_basic((qb * q + qr) as int, g as int);
            lemma_mul_is_commutative(g as int, (qb * q + qr) as int);
        }
    }
}

/// Below a prime, every positive number is coprime to it.
pub proof fn lemma_coprime_below_prime(v: int, p: int)
    requires
        is_prime(p),
        0 < v < p,
    ensures
        gcd(v as nat, p as nat) == 1,
{
    let g = gcd(v as nat, p as nat);
    lemma_gcd_divides(v as nat, p as nat);
    if g != 1 {
        // g divides p, so g is p; but g also divides v < p.
        if g < p {
            assert(p % (g as int) == 0);
            assert(false);
        }
        lemma_small_mod(v as nat, g);
        assert(false);
    }
}

/// Powers of a nonnegative base are nonnegative.
pub proof fn lemma_pow_nonnegative(b: int, e: nat)
    requires
        b >= 0,
    ensures
        pow(b, e) >= 0,
    decreases e,
{
    reveal(pow);
    if e > 0 {
        lemma_pow_nonnegative(b, (e - 1) as nat);
        vstd::arithmetic::mul::lemma_mul_nonnegative(b, pow(b, (e - 1) as nat));
    }
}

} // verus!

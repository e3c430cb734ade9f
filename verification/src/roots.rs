//! Roots of polynomials over the Baby Bear field: a polynomial with fewer
//! coefficients than the points at which it vanishes is the zero polynomial.
use vstd::prelude::*;
use vstd::arithmetic::div_mod::{lemma_mul_mod_noop, lemma_mul_mod_noop_right, lemma_sub_mod_noop, lemma_small_mod, lemma_mod_bound};
use crate::field_operations::{BABY_BEAR_P, lemma_baby_bear_no_zero_divisors};
use crate::convolution::{coef, eval, synthetic_quotient, lemma_synthetic_division};

verus! {

/// The points are pairwise different modulo the Baby Bear prime.
pub open spec fn distinct_mod(xs: Seq<int>) -> bool {
    forall|i: int, j: int| 0 <= i < j < xs.len() ==> (#[trigger] xs[i] - #[trigger] xs[j]) % (BABY_BEAR_P as int) != 0
}

/// The polynomial `a` vanishes, modulo the prime, at every point of `xs`.
pub open spec fn vanishes_on(a: Seq<int>, xs: Seq<int>) -> bool {
    forall|i: int| 0 <= i < xs.len() ==> #[trigger] eval(a, xs[i]) % (BABY_BEAR_P as int) == 0
}

/// A product that is a multiple of the prime, with a first factor that is
/// not, has a second factor that is.
proof fn lemma_cancel_factor(u: int, v: int)
    requires
        (u * v) % (BABY_BEAR_P as int) == 0,
        u % (BABY_BEAR_P as int) != 0,
    ensures
        v % (BABY_BEAR_P as int) == 0,
{
    let pp = BABY_BEAR_P as int;
    lemma_mul_mod_noop(u, v, pp);
    lemma_mod_bound(u, pp);
    lemma_mod_bound(v, pp);
    if v % pp != 0 {
        lemma_baby_bear_no_zero_divisors(u % pp, v % pp);
    }
}

/// `x - c * y` is a multiple of the prime when `x` and `y` are.
proof fn lemma_sub_multiple(x: int, c: int, y: int)
    requires
        x % (BABY_BEAR_P as int) == 0,
        y % (BABY_BEAR_P as int) == 0,
    ensures
        (x - c * y) % (BABY_BEAR_P as int) == 0,
{
    let pp = BABY_BEAR_P as int;
    lemma_mul_mod_noop_right(c, y, pp);
    assert(c * 0 == 0);
    lemma_small_mod(0, pp as nat);
    lemma_sub_mod_noop(x, c * y, pp);
}

/// A multiple of the prime strictly between `-p` and `p` is zero.
pub proof fn lemma_small_multiple(d: int)
    requires
        -(BABY_BEAR_P as int) < d < BABY_BEAR_P as int,
        d % (BABY_BEAR_P as int) == 0,
    ensures
        d == 0,
{
    let pp = BABY_BEAR_P as int;
    vstd::arithmetic::div_mod::lemma_fundamental_div_mod(d, pp);
    assert(d == 0) by (nonlinear_arith)
        requires
            d == pp * (d / pp) + d % pp,
            d % pp == 0,
            -pp < d < pp,
            pp > 0,
    ;
}

/// A polynomial with at most as many coefficients as the distinct points on
/// which it vanishes has every coefficient a multiple of the prime.
pub proof fn lemma_vanishing_is_zero(a: Seq<int>, xs: Seq<int>)
    requires
        a.len() <= xs.len(),
        distinct_mod(xs),
        vanishes_on(a, xs),
    ensures
        forall|i: int| #[trigger] coef(a, i) % (BABY_BEAR_P as int) == 0,
    decreases a.len(),
{
    let pp = BABY_BEAR_P as int;
    if a.len() == 0 {
        assert forall|i: int| #[trigger] coef(a, i) % pp == 0 by {
            lemma_small_mod(0, pp as nat);
        }
    } else {
        let m = xs.len() - 1;
        let c = xs[m];
        let xt = xs.drop_last();
        let g = synthetic_quotient(a, c);
        lemma_synthetic_division(a, c, c);
        assert(eval(a, c) % pp == 0);
        assert forall|i: int| 0 <= i < xt.len() implies #[trigger] eval(g, xt[i]) % pp == 0 by {
            let x = xt[i];
            assert(x == xs[i]);
            lemma_synthetic_division(a, c, x);
            assert(eval(a, x) % pp == 0);
            lemma_sub_mod_noop(eval(a, x), eval(a, c), pp);
            lemma_small_mod(0, pp as nat);
            assert((x - c) * eval(g, x) == eval(a, x) - eval(a, c));
            assert((x - c) % pp != 0);
            lemma_cancel_factor(x - c, eval(g, x));
        }
        assert(distinct_mod(xt)) by {
            assert forall|i: int, j: int| 0 <= i < j < xt.len() implies (#[trigger] xt[i] - #[trigger] xt[j]) % pp != 0 by {
                assert(xt[i] == xs[i] && xt[j] == xs[j]);
            }
        }
        lemma_vanishing_is_zero(g, xt);
        assert forall|i: int| #[trigger] coef(a, i) % pp == 0 by {
            if i <= 0 {
                if i == 0 {
                    assert(coef(g, 0) % pp == 0);
                    lemma_sub_multiple(eval(a, c), c, coef(g, 0));
                } else {
                    lemma_small_mod(0, pp as nat);
                }
            } else {
                assert(coef(g, i - 1) % pp == 0);
                assert(coef(g, i) % pp == 0);
                lemma_sub_multiple(coef(g, i - 1), c, coef(g, i));
            }
        }
    }
}

} // verus!

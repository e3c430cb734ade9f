//! Univariate polynomials over the Baby Bear field, as lists of coefficients
//! in ascending order: `[1, 2, 3]` is `1 + 2x + 3x^2`.
use vstd::prelude::*;
use vstd::std_specs::ops::{AddSpecImpl, SubSpecImpl, MulSpecImpl, DivSpecImpl, RemSpecImpl, BitXorSpecImpl};
use vstd::arithmetic::power::{pow, lemma_pow0, lemma_pow1, lemma_pow_adds};
use vstd::arithmetic::div_mod::{lemma_mul_mod_noop_left, lemma_mul_mod_noop_right};
use crate::field_operations::{is_i64, lemma_inverse_ok, lemma_baby_bear_no_zero_divisors, BABY_BEAR_P, Field, FieldElement, elem, rem_ok, inv_rep, lemma_baby_bear_quotient};
use crate::number_theory::trem;
use crate::roots::{distinct_mod, vanishes_on, lemma_vanishing_is_zero, lemma_small_multiple};
use crate::convolution::{lemma_eval_mod, lemma_eval_add, lemma_eval_conv, lemma_eval_range, lemma_sum_single, lemma_sum_zero, lemma_conv_top, conv_seq, lemma_conv_seq, lemma_conv_mod, lemma_conv_comm, lemma_conv_assoc, lemma_conv_one, eval, eval_term, coef, conv, conv_term, sum_range, lemma_conv_rows, lemma_conv_row, lemma_conv_zero, lemma_conv_add_left, lemma_conv_monomial};
use vstd::arithmetic::div_mod::{lemma_add_mod_noop, lemma_mod_twice, lemma_small_mod, lemma_mod_pos_bound, lemma_mod_bound};

verus! {

/// A polynomial, by its coefficients from the constant term up.
#[derive(Debug, PartialEq)]
pub struct Polynomial {
    pub coefficients: Vec<FieldElement>,  // Example: vec![1,2,3] => 1 + 2x + 3x^2
}

impl View for Polynomial {
    type V = Seq<FieldElement>;

    open spec fn view(&self) -> Seq<FieldElement> {
        self.coefficients@
    }
}

/// A vector holds at most `isize::MAX` bytes, and a coefficient takes 16.
pub open spec fn within_capacity(s: Seq<FieldElement>) -> bool {
    s.len() <= isize::MAX as int / 16
}

/// The Baby Bear field, over which the polynomials' arithmetic is done.
pub open spec fn baby_bear() -> Field {
    Field { p: BABY_BEAR_P }
}

/// The zero of the Baby Bear field, against which coefficients are tested.
pub open spec fn bb_zero() -> FieldElement {
    FieldElement { value: 0, field: baby_bear() }
}

/// Coefficient `i`, with the Baby Bear zero past the end of the list.
pub open spec fn pad(s: Seq<FieldElement>, i: int) -> FieldElement {
    if 0 <= i < s.len() {
        s[i]
    } else {
        bb_zero()
    }
}

/// The index of the last coefficient that is not the Baby Bear zero, or -1
/// when there is none.
pub open spec fn degree_of(s: Seq<FieldElement>) -> int
    decreases s.len(),
{
    if s.len() == 0 {
        -1
    } else if s.last() != bb_zero() {
        s.len() - 1
    } else {
        degree_of(s.drop_last())
    }
}

/// The two lists hold the same coefficients, trailing zeros aside.
pub open spec fn same_coefficients(s: Seq<FieldElement>, t: Seq<FieldElement>) -> bool {
    forall|i: int| #[trigger] pad(s, i) == pad(t, i)
}

/// The representatives of the coefficients.
pub open spec fn values(s: Seq<FieldElement>) -> Seq<int> {
    s.map_values(|e: FieldElement| e.value as int)
}

/// A canonical element of the Baby Bear field.
pub open spec fn is_bb_element(e: FieldElement) -> bool {
    e.field == baby_bear() && 0 <= e.value < BABY_BEAR_P
}

/// Every coefficient is a canonical element of the Baby Bear field.
pub open spec fn all_bb(s: Seq<FieldElement>) -> bool {
    forall|i: int| 0 <= i < s.len() ==> #[trigger] is_bb_element(s[i])
}

/// Where `degree_of` lands: the last coefficient that is not zero.
pub proof fn lemma_degree_of(s: Seq<FieldElement>)
    ensures
        -1 <= degree_of(s) < s.len(),
        degree_of(s) >= 0 ==> s[degree_of(s)] != bb_zero(),
        forall|i: int| degree_of(s) < i < s.len() ==> #[trigger] s[i] == bb_zero(),
        forall|i: int| degree_of(s) < i ==> #[trigger] pad(s, i) == bb_zero(),
    decreases s.len(),
{
    if s.len() > 0 && s.last() == bb_zero() {
        lemma_degree_of(s.drop_last());
        assert forall|i: int| degree_of(s) < i < s.len() implies #[trigger] s[i] == bb_zero() by {
            if i < s.len() - 1 {
                assert(s[i] == s.drop_last()[i]);
            }
        }
    }
}

/// The degree is the index of a nonzero coefficient past which all are zero.
pub proof fn lemma_degree_is(s: Seq<FieldElement>, d: int)
    requires
        -1 <= d < s.len(),
        d >= 0 ==> s[d] != bb_zero(),
        forall|i: int| d < i < s.len() ==> #[trigger] s[i] == bb_zero(),
    ensures
        degree_of(s) == d,
{
    lemma_degree_of(s);
    if degree_of(s) < d {
        assert(s[d] == bb_zero());
    }
    if degree_of(s) > d {
        assert(s[degree_of(s)] == bb_zero());
    }
}

/// Coefficient lists with the same coefficients have the same degree.
pub proof fn lemma_degree_same(s: Seq<FieldElement>, t: Seq<FieldElement>)
    requires
        same_coefficients(s, t),
    ensures
        degree_of(s) == degree_of(t),
{
    lemma_degree_of(s);
    lemma_degree_of(t);
    let ds = degree_of(s);
    let dt = degree_of(t);
    if ds < dt {
        assert(pad(s, dt) == pad(t, dt));
    }
    if dt < ds {
        assert(pad(s, ds) == pad(t, ds));
    }
}

/// For canonical Baby Bear coefficients, the same coefficients means the same
/// representatives.
pub proof fn lemma_same_iff_values(s: Seq<FieldElement>, t: Seq<FieldElement>)
    requires
        all_bb(s),
        all_bb(t),
    ensures
        same_coefficients(s, t) == forall|i: int| #[trigger] coef(values(s), i) == coef(values(t), i),
{
    if forall|i: int| #[trigger] coef(values(s), i) == coef(values(t), i) {
        assert forall|i: int| #[trigger] pad(s, i) == pad(t, i) by {
            assert(coef(values(s), i) == coef(values(t), i));
            if 0 <= i < s.len() {
                assert(is_bb_element(s[i]));
            }
            if 0 <= i < t.len() {
                assert(is_bb_element(t[i]));
            }
        }
    }
    if same_coefficients(s, t) {
        assert forall|i: int| #[trigger] coef(values(s), i) == coef(values(t), i) by {
            assert(pad(s, i) == pad(t, i));
        }
    }
}

/// The zero polynomial, among canonical lists: every coefficient is zero.
pub proof fn lemma_zero_values(s: Seq<FieldElement>)
    requires
        all_bb(s),
    ensures
        (degree_of(s) == -1) == forall|i: int| #[trigger] coef(values(s), i) == 0,
{
    lemma_degree_of(s);
    if degree_of(s) == -1 {
        assert forall|i: int| #[trigger] coef(values(s), i) == 0 by {
            assert(pad(s, i) == bb_zero());
        }
    } else {
        let d = degree_of(s);
        assert(is_bb_element(s[d]));
        assert(coef(values(s), d) != 0);
    }
}

/// Negating canonical coefficients: `(p - a) % p`, canonical again.
pub proof fn lemma_negated_bb(s: Seq<FieldElement>)
    requires
        all_bb(s),
    ensures
        negate_ok(s),
        all_bb(negated(s)),
        negated(s).len() == s.len(),
        forall|i: int| #[trigger] coef(values(negated(s)), i) == (BABY_BEAR_P - coef(values(s), i)) % (BABY_BEAR_P as int),
{
    let pp = BABY_BEAR_P as int;
    assert forall|i: int| 0 <= i < s.len() implies rem_ok(#[trigger] s[i].field.p - s[i].value, s[i].field.p as int) by {
        assert(is_bb_element(s[i]));
    }
    assert forall|i: int| 0 <= i < negated(s).len() implies #[trigger] is_bb_element(negated(s)[i]) by {
        assert(is_bb_element(s[i]));
        lemma_mod_pos_bound(pp - s[i].value, pp);
    }
    assert forall|i: int| #[trigger] coef(values(negated(s)), i) == (pp - coef(values(s), i)) % pp by {
        if 0 <= i < s.len() {
            assert(is_bb_element(s[i]));
            lemma_mod_pos_bound(pp - s[i].value, pp);
        } else {
            vstd::arithmetic::div_mod::lemma_mod_self_0(pp);
        }
    }
}

/// Adding canonical coefficients: `(a + b) % p`, canonical again.
pub proof fn lemma_added_bb(s: Seq<FieldElement>, t: Seq<FieldElement>)
    requires
        all_bb(s),
        all_bb(t),
    ensures
        add_ok(s, t),
        all_bb(added(s, t)),
        forall|i: int| #[trigger] coef(values(added(s, t)), i) == (coef(values(s), i) + coef(values(t), i)) % (BABY_BEAR_P as int),
{
    let pp = BABY_BEAR_P as int;
    lemma_zero_values(s);
    lemma_zero_values(t);
    assert forall|i: int| 0 <= i < s.len() implies #[trigger] first_pass(s, i) == s[i] by {
        assert(is_bb_element(s[i]));
        lemma_small_mod(s[i].value as nat, pp as nat);
    }
    if degree_of(s) != -1 && degree_of(t) != -1 {
        assert forall|i: int| 0 <= i < t.len() implies rem_ok(first_pass(s, i).value + #[trigger] t[i].value, BABY_BEAR_P as int) by {
            assert(is_bb_element(t[i]));
            if i < s.len() {
                assert(is_bb_element(s[i]));
            }
        }
        let r = added(s, t);
        assert forall|i: int| 0 <= i < r.len() implies #[trigger] is_bb_element(r[i]) by {
            if i < s.len() {
                assert(is_bb_element(s[i]));
            }
            if i < t.len() {
                assert(is_bb_element(t[i]));
                lemma_mod_pos_bound(first_pass(s, i).value + t[i].value, pp);
            }
        }
    }
    assert forall|i: int| #[trigger] coef(values(added(s, t)), i) == (coef(values(s), i) + coef(values(t), i)) % pp by {
        if 0 <= i < s.len() {
            assert(is_bb_element(s[i]));
        }
        if 0 <= i < t.len() {
            assert(is_bb_element(t[i]));
        }
        lemma_small_mod(coef(values(s), i) as nat, pp as nat);
        lemma_small_mod(coef(values(t), i) as nat, pp as nat);
        lemma_mod_pos_bound(coef(values(s), i) + coef(values(t), i), pp);
    }
}

/// Multiplying canonical coefficients: the product's coefficients reduced,
/// canonical again.
pub proof fn lemma_multiplied_bb(s: Seq<FieldElement>, t: Seq<FieldElement>)
    requires
        all_bb(s),
        all_bb(t),
    ensures
        all_bb(multiplied(s, t)),
        forall|k: int| #[trigger] coef(values(multiplied(s, t)), k) == conv(values(s), values(t), k) % (BABY_BEAR_P as int),
{
    let pp = BABY_BEAR_P as int;
    let r = multiplied(s, t);
    assert forall|i: int| 0 <= i < r.len() implies #[trigger] is_bb_element(r[i]) by {
        lemma_mod_bound(conv(values(s), values(t), i), pp);
    }
    assert forall|k: int| #[trigger] coef(values(r), k) == conv(values(s), values(t), k) % pp by {
        if !(0 <= k < r.len()) {
            crate::convolution::lemma_conv_beyond(values(s), values(t), k);
            lemma_small_mod(0, pp as nat);
        } else {
            lemma_mod_bound(conv(values(s), values(t), k), pp);
        }
    }
}

/// For canonical coefficients the degree is the last index whose
/// representative is not zero.
pub proof fn lemma_degree_values(s: Seq<FieldElement>)
    requires
        all_bb(s),
    ensures
        degree_of(s) >= 0 ==> coef(values(s), degree_of(s)) != 0,
        forall|k: int| k > degree_of(s) ==> #[trigger] coef(values(s), k) == 0,
{
    lemma_degree_of(s);
    if degree_of(s) >= 0 {
        assert(is_bb_element(s[degree_of(s)]));
    }
    assert forall|k: int| k > degree_of(s) implies #[trigger] coef(values(s), k) == 0 by {
        assert(pad(s, k) == bb_zero());
    }
}

/// Canonical coefficients that vanish from `d` on leave a degree below `d`.
pub proof fn lemma_degree_below(s: Seq<FieldElement>, d: int)
    requires
        all_bb(s),
        d >= 0,
        forall|k: int| k >= d ==> #[trigger] coef(values(s), k) == 0,
    ensures
        degree_of(s) < d,
{
    lemma_degree_values(s);
    if degree_of(s) >= d {
        assert(coef(values(s), degree_of(s)) == 0);
    }
}

/// The outcome of long division of `n` by `d`: `n == q * d + r` with the
/// remainder `r` of lower degree than `d`, all canonical; the quotient has one
/// coefficient per power from `x^0` to `x^(deg n - deg d)`, none when `n` has
/// the lower degree (and then `r` is `n` itself); the remainder is as long as
/// `n`, or as `x^(deg n - deg d) * d` when that is longer.
pub open spec fn divided(n: Seq<FieldElement>, d: Seq<FieldElement>, q: Seq<FieldElement>, r: Seq<FieldElement>) -> bool {
    let dn = degree_of(n);
    let dd = degree_of(d);
    &&& all_bb(q)
    &&& all_bb(r)
    &&& degree_of(r) < dd
    &&& forall|k: int| #[trigger] coef(values(n), k) == (conv(values(q), values(d), k) + coef(values(r), k)) % (BABY_BEAR_P as int)
    &&& if dn < dd {
        q.len() == 0 && r == n
    } else {
        &&& q.len() == dn - dd + 1
        &&& r.len() == if n.len() >= dn - dd + d.len() { n.len() as int } else { dn - dd + d.len() }
    }
}

/// Subtracting `x` after adding it: `(a + x + (r - x mod p) mod p) mod p` is
/// `(a + r) mod p`.
proof fn lemma_mod_sub_cancel(a: int, x: int, r: int, p: int)
    requires
        p > 0,
    ensures
        (a + x + (r + (p - x % p) % p) % p) % p == (a + r) % p,
{
    let t = (p - x % p) % p;
    lemma_mod_bound(x, p);
    vstd::arithmetic::div_mod::lemma_add_mod_noop_right(a + x, r + t, p);
    assert((x + t) % p == 0) by {
        let xm = x % p;
        let q = x / p;
        vstd::arithmetic::div_mod::lemma_fundamental_div_mod(x, p);
        vstd::arithmetic::div_mod::lemma_mod_self_0(p);
        if xm == 0 {
            assert(t == 0);
            assert(x == q * p) by (nonlinear_arith) requires x == p * q + xm, xm == 0;
        } else {
            lemma_small_mod((p - xm) as nat, p as nat);
            assert(x + t == (q + 1) * p) by (nonlinear_arith)
                requires x == p * q + xm, t == p - xm;
        }
        vstd::arithmetic::div_mod::lemma_mod_multiples_basic(q + 1, p);
        vstd::arithmetic::div_mod::lemma_mod_multiples_basic(q, p);
    }
    vstd::arithmetic::div_mod::lemma_add_mod_noop_right(a + r, x + t, p);
    assert(a + x + (r + t) == (a + r) + (x + t));
    lemma_small_mod(0, p as nat);
}

/// The coefficients of the polynomial `x`.
pub open spec fn x_coefficients() -> Seq<FieldElement> {
    seq![bb_zero(), elem(1, baby_bear())]
}

/// The coefficients of `x - d`, as `Polynomial::sub` computes them.
pub open spec fn linear_factor(d: FieldElement) -> Seq<FieldElement> {
    added(x_coefficients(), negated(seq![d]))
}

/// The zerofier of `ds`: the product of `x - d` over the points `d` of `ds`,
/// starting from the constant one.
pub open spec fn zerofier_of(ds: Seq<FieldElement>) -> Seq<FieldElement>
    decreases ds.len(),
{
    if ds.len() == 0 {
        seq![elem(1, baby_bear())]
    } else {
        multiplied(zerofier_of(ds.drop_last()), linear_factor(ds.last()))
    }
}

/// The Lagrange basis polynomial for point `i`, after the factors for the
/// points before `j`: `vs[i]` times, for each such point `k != i`, the factor
/// `(x - ds[k]) * (ds[i] - ds[k])^-1`.
pub open spec fn lagrange_term(ds: Seq<FieldElement>, vs: Seq<FieldElement>, i: int, j: int) -> Seq<FieldElement>
    decreases j,
{
    if j <= 0 {
        seq![vs[i]]
    } else if j - 1 == i {
        lagrange_term(ds, vs, i, j - 1)
    } else {
        multiplied(
            multiplied(lagrange_term(ds, vs, i, j - 1), linear_factor(ds[j - 1])),
            seq![baby_bear().inverse_of(baby_bear().difference(ds[i], ds[j - 1]))],
        )
    }
}

/// The sum of the first `i` Lagrange terms.
pub open spec fn lagrange_sum(ds: Seq<FieldElement>, vs: Seq<FieldElement>, i: int) -> Seq<FieldElement>
    decreases i,
{
    if i <= 0 {
        Seq::empty()
    } else {
        added(lagrange_sum(ds, vs, i - 1), lagrange_term(ds, vs, i - 1, ds.len() as int))
    }
}

/// The Lagrange interpolant through the points `(ds[i], vs[i])`.
pub open spec fn interpolant(ds: Seq<FieldElement>, vs: Seq<FieldElement>) -> Seq<FieldElement> {
    lagrange_sum(ds, vs, ds.len() as int)
}

/// `x - d` for a canonical `d`: two canonical coefficients, `-d` and one.
pub proof fn lemma_linear_factor(d: FieldElement)
    requires
        is_bb_element(d),
    ensures
        all_bb(linear_factor(d)),
        linear_factor(d).len() == 2,
        coef(values(linear_factor(d)), 0) == (BABY_BEAR_P - d.value) % (BABY_BEAR_P as int),
        coef(values(linear_factor(d)), 1) == 1,
        forall|k: int| k >= 2 ==> #[trigger] coef(values(linear_factor(d)), k) == 0,
{
    let xs = x_coefficients();
    let nd = negated(seq![d]);
    assert(all_bb(xs)) by {
        assert forall|i: int| 0 <= i < xs.len() implies #[trigger] is_bb_element(xs[i]) by {}
    }
    assert(all_bb(seq![d])) by {
        assert forall|i: int| 0 <= i < 1 implies #[trigger] is_bb_element(seq![d][i]) by {}
    }
    lemma_negated_bb(seq![d]);
    lemma_added_bb(xs, nd);
    lemma_degree_of(xs);
    assert(xs[1] != bb_zero());
    assert(degree_of(xs) == 1);
    assert(coef(values(xs), 0) == 0);
    assert(coef(values(xs), 1) == 1);
    assert(coef(values(seq![d]), 0) == d.value);
    lemma_small_mod(1, BABY_BEAR_P as nat);
    lemma_small_mod(0, BABY_BEAR_P as nat);
    vstd::arithmetic::div_mod::lemma_mod_self_0(BABY_BEAR_P as int);
    lemma_mod_bound(BABY_BEAR_P - d.value, BABY_BEAR_P as int);
    lemma_mod_twice(BABY_BEAR_P - d.value, BABY_BEAR_P as int);
    assert(coef(values(nd), 0) == (BABY_BEAR_P - d.value) % (BABY_BEAR_P as int));
    if degree_of(nd) == -1 {
        assert(linear_factor(d) == xs);
        lemma_zero_values(nd);
        assert(coef(values(nd), 0) == 0);
    } else {
        assert(linear_factor(d).len() == 2);
    }
    assert forall|k: int| k >= 2 implies #[trigger] coef(values(linear_factor(d)), k) == 0 by {}
}

/// The constant polynomial one.
pub open spec fn one_coefficients() -> Seq<FieldElement> {
    seq![elem(1, baby_bear())]
}

/// `s` to the power `n`: one multiplied by `s`, `n` times over.
pub open spec fn power_of(s: Seq<FieldElement>, n: nat) -> Seq<FieldElement>
    decreases n,
{
    if n == 0 {
        one_coefficients()
    } else {
        multiplied(power_of(s, (n - 1) as nat), s)
    }
}

/// Multiplication of polynomials is commutative.
pub proof fn law_mul_commutative(a: Seq<FieldElement>, b: Seq<FieldElement>)
    ensures
        multiplied(a, b) == multiplied(b, a),
{
    assert forall|k: int| 0 <= k < multiplied(a, b).len() implies #[trigger] multiplied(a, b)[k] == multiplied(b, a)[k] by {
        lemma_conv_comm(values(a), values(b), k);
    }
    assert(multiplied(a, b) =~= multiplied(b, a));
}

/// Multiplication of polynomials is associative.
pub proof fn law_mul_associative(a: Seq<FieldElement>, b: Seq<FieldElement>, c: Seq<FieldElement>)
    requires
        all_bb(a),
        all_bb(b),
        all_bb(c),
    ensures
        multiplied(multiplied(a, b), c) == multiplied(a, multiplied(b, c)),
{
    let pp = BABY_BEAR_P as int;
    let (va, vb, vc) = (values(a), values(b), values(c));
    let ab = multiplied(a, b);
    let bc = multiplied(b, c);
    lemma_multiplied_bb(a, b);
    lemma_multiplied_bb(b, c);
    let lhs = multiplied(ab, c);
    let rhs = multiplied(a, bc);
    assert(lhs.len() == rhs.len());
    assert forall|k: int| 0 <= k < lhs.len() implies #[trigger] lhs[k] == rhs[k] by {
        assert forall|i: int| #[trigger] coef(values(ab), i) % pp == coef(conv_seq(va, vb), i) % pp by {
            lemma_conv_seq(va, vb, i);
            lemma_mod_twice(conv(va, vb, i), pp);
        }
        assert forall|i: int| #[trigger] coef(values(bc), i) % pp == coef(conv_seq(vb, vc), i) % pp by {
            lemma_conv_seq(vb, vc, i);
            lemma_mod_twice(conv(vb, vc, i), pp);
        }
        assert forall|i: int| #[trigger] coef(vc, i) % pp == coef(vc, i) % pp by {}
        assert forall|i: int| #[trigger] coef(va, i) % pp == coef(va, i) % pp by {}
        lemma_conv_mod(values(ab), conv_seq(va, vb), vc, vc, k, pp);
        lemma_conv_mod(va, va, values(bc), conv_seq(vb, vc), k, pp);
        lemma_conv_assoc(va, vb, vc, k);
    }
    assert(lhs =~= rhs);
}

/// One is the unit of multiplication.
pub proof fn law_mul_one(a: Seq<FieldElement>)
    requires
        all_bb(a),
    ensures
        multiplied(a, one_coefficients()) == a,
        multiplied(one_coefficients(), a) == a,
{
    let pp = BABY_BEAR_P as int;
    let one = one_coefficients();
    assert(values(one) =~= seq![1int]);
    assert forall|k: int| 0 <= k < multiplied(a, one).len() implies #[trigger] multiplied(a, one)[k] == a[k] by {
        lemma_conv_one(values(a), k);
        assert(is_bb_element(a[k]));
        lemma_small_mod(a[k].value as nat, pp as nat);
    }
    assert(multiplied(a, one) =~= a);
    law_mul_commutative(a, one);
}

/// Powers of a polynomial multiply by adding their exponents.
pub proof fn law_power_add(s: Seq<FieldElement>, m: nat, n: nat)
    requires
        all_bb(s),
    ensures
        multiplied(power_of(s, m), power_of(s, n)) == power_of(s, m + n),
        all_bb(power_of(s, n)),
    decreases n,
{
    lemma_power_bb(s, m);
    if n == 0 {
        law_mul_one(power_of(s, m));
    } else {
        law_power_add(s, m, (n - 1) as nat);
        lemma_power_bb(s, (n - 1) as nat);
        law_mul_associative(power_of(s, m), power_of(s, (n - 1) as nat), s);
        assert(power_of(s, m + n) == multiplied(power_of(s, (m + n - 1) as nat), s));
    }
    lemma_power_bb(s, n);
}

/// Powers of canonical polynomials are canonical, and of the expected length.
pub proof fn lemma_power_bb(s: Seq<FieldElement>, n: nat)
    requires
        all_bb(s),
    ensures
        all_bb(power_of(s, n)),
        s.len() > 0 ==> power_of(s, n).len() == (s.len() - 1) * n + 1,
    decreases n,
{
    if n == 0 {
        assert(all_bb(one_coefficients())) by {
            assert forall|k: int| 0 <= k < 1 implies #[trigger] is_bb_element(one_coefficients()[k]) by {}
        }
        assert((s.len() - 1) * 0 + 1 == 1) by (nonlinear_arith);
    } else {
        lemma_power_bb(s, (n - 1) as nat);
        lemma_multiplied_bb(power_of(s, (n - 1) as nat), s);
        if s.len() > 0 {
            assert((s.len() - 1) * (n - 1) >= 0) by (nonlinear_arith)
                requires s.len() > 0, n >= 1;
            assert(power_of(s, n).len() == power_of(s, (n - 1) as nat).len() + s.len() - 1);
            assert((s.len() - 1) * (n - 1) + 1 + s.len() - 1 == (s.len() - 1) * n + 1) by (nonlinear_arith);
        }
    }
}

/// The first coordinates of the points.
pub open spec fn abscissae(points: Seq<(FieldElement, FieldElement)>) -> Seq<FieldElement> {
    points.map_values(|pt: (FieldElement, FieldElement)| pt.0)
}

/// The second coordinates of the points.
pub open spec fn ordinates(points: Seq<(FieldElement, FieldElement)>) -> Seq<FieldElement> {
    points.map_values(|pt: (FieldElement, FieldElement)| pt.1)
}

/// A canonical list whose last nonzero coefficient is at `d` has degree `d`.
pub proof fn lemma_degree_exact(s: Seq<FieldElement>, d: int)
    requires
        all_bb(s),
        d >= 0,
        coef(values(s), d) != 0,
        forall|k: int| k > d ==> #[trigger] coef(values(s), k) == 0,
    ensures
        degree_of(s) == d,
{
    lemma_degree_below(s, d + 1);
    lemma_degree_values(s);
}

// Laws of polynomial arithmetic

/// A polynomial plus its negation is zero: `p + (-p) == 0`.
pub proof fn law_add_negation(s: Seq<FieldElement>)
    requires
        all_bb(s),
    ensures
        degree_of(added(s, negated(s))) == -1,
{
    let pp = BABY_BEAR_P as int;
    lemma_negated_bb(s);
    lemma_added_bb(s, negated(s));
    let r = added(s, negated(s));
    assert forall|i: int| #[trigger] coef(values(r), i) == 0 by {
        let v = coef(values(s), i);
        if 0 <= i < s.len() {
            assert(is_bb_element(s[i]));
        }
        vstd::arithmetic::div_mod::lemma_mod_self_0(pp);
        lemma_small_mod(0, pp as nat);
        if v != 0 {
            lemma_small_mod((pp - v) as nat, pp as nat);
        }
    }
    lemma_zero_values(r);
}

/// Negating twice gives the polynomial back: `-(-p) == p`.
pub proof fn law_double_negation(s: Seq<FieldElement>)
    requires
        all_bb(s),
    ensures
        negated(negated(s)) == s,
{
    let pp = BABY_BEAR_P as int;
    lemma_negated_bb(s);
    lemma_negated_bb(negated(s));
    assert forall|i: int| 0 <= i < s.len() implies #[trigger] negated(negated(s))[i] == s[i] by {
        assert(is_bb_element(s[i]));
        assert(is_bb_element(negated(s)[i]));
        let v = s[i].value as int;
        vstd::arithmetic::div_mod::lemma_mod_self_0(pp);
        if v != 0 {
            lemma_small_mod((pp - v) as nat, pp as nat);
            lemma_small_mod(v as nat, pp as nat);
        } else {
            lemma_small_mod(0, pp as nat);
        }
    }
    assert(negated(negated(s)) =~= s);
}

/// Adding the zero polynomial leaves the coefficients unchanged:
/// `0 + p == p` exactly, and `p + 0` has the coefficients of `p`.
pub proof fn law_add_zero(s: Seq<FieldElement>, z: Seq<FieldElement>)
    requires
        degree_of(z) == -1,
    ensures
        added(z, s) == s,
        same_coefficients(added(s, z), s),
{
    if degree_of(s) == -1 {
        lemma_degree_of(s);
        lemma_degree_of(z);
        assert forall|i: int| #[trigger] pad(z, i) == pad(s, i) by {}
    }
}

/// Addition of polynomials is commutative.
pub proof fn law_add_commutative(s: Seq<FieldElement>, t: Seq<FieldElement>)
    requires
        all_bb(s),
        all_bb(t),
    ensures
        same_coefficients(added(s, t), added(t, s)),
{
    lemma_added_bb(s, t);
    lemma_added_bb(t, s);
    assert forall|i: int| #[trigger] coef(values(added(s, t)), i) == coef(values(added(t, s)), i) by {}
    lemma_same_iff_values(added(s, t), added(t, s));
}

/// A polynomial minus itself is zero: `p - p == 0`.
pub proof fn law_sub_self(s: Seq<FieldElement>)
    requires
        all_bb(s),
    ensures
        degree_of(added(s, negated(s))) == -1,
{
    law_add_negation(s);
}

/// Multiplying by the zero polynomial gives the zero polynomial.
pub proof fn law_mul_zero(s: Seq<FieldElement>, z: Seq<FieldElement>)
    requires
        all_bb(s),
        all_bb(z),
        degree_of(z) == -1,
    ensures
        degree_of(multiplied(s, z)) == -1,
        degree_of(multiplied(z, s)) == -1,
{
    lemma_zero_values(z);
    lemma_multiplied_bb(s, z);
    lemma_multiplied_bb(z, s);
    assert forall|k: int| #[trigger] coef(values(multiplied(s, z)), k) == 0 by {
        crate::convolution::lemma_conv_zero(values(s), values(z), k);
        lemma_small_mod(0, BABY_BEAR_P as nat);
    }
    assert forall|k: int| #[trigger] coef(values(multiplied(z, s)), k) == 0 by {
        crate::convolution::lemma_conv_zero(values(s), values(z), k);
        lemma_small_mod(0, BABY_BEAR_P as nat);
    }
    lemma_zero_values(multiplied(s, z));
    lemma_zero_values(multiplied(z, s));
}

/// The degree of a product of nonzero polynomials is the sum of the degrees
/// (the Baby Bear field has no zero divisors).
pub proof fn law_mul_degree(s: Seq<FieldElement>, t: Seq<FieldElement>)
    requires
        all_bb(s),
        all_bb(t),
        degree_of(s) != -1,
        degree_of(t) != -1,
    ensures
        degree_of(multiplied(s, t)) == degree_of(s) + degree_of(t),
{
    let pp = BABY_BEAR_P as int;
    let (ds, dt) = (degree_of(s), degree_of(t));
    lemma_degree_of(s);
    lemma_degree_of(t);
    lemma_degree_values(s);
    lemma_degree_values(t);
    lemma_multiplied_bb(s, t);
    let m = multiplied(s, t);
    assert(is_bb_element(s[ds]));
    assert(is_bb_element(t[dt]));
    assert forall|k: int| k >= ds + dt implies #[trigger] coef(values(m), k) == if k == ds + dt {
        (coef(values(s), ds) * coef(values(t), dt)) % pp
    } else {
        0
    } by {
        lemma_conv_top(values(s), values(t), ds, dt, k);
        lemma_small_mod(0, pp as nat);
    }
    lemma_baby_bear_no_zero_divisors(coef(values(s), ds), coef(values(t), dt));
    lemma_degree_exact(m, ds + dt);
}

/// The degree of a power of a nonzero polynomial is the exponent times the
/// degree.
pub proof fn law_power_degree(s: Seq<FieldElement>, n: nat)
    requires
        all_bb(s),
        degree_of(s) != -1,
    ensures
        degree_of(power_of(s, n)) == n * degree_of(s),
    decreases n,
{
    lemma_power_bb(s, n);
    if n == 0 {
        let one = one_coefficients();
        lemma_degree_is(one, 0);
        assert(0 * degree_of(s) == 0);
    } else {
        law_power_degree(s, (n - 1) as nat);
        lemma_power_bb(s, (n - 1) as nat);
        lemma_degree_of(s);
        if degree_of(power_of(s, (n - 1) as nat)) == -1 {
            assert((n - 1) * degree_of(s) >= 0) by (nonlinear_arith)
                requires n >= 1, degree_of(s) >= 0;
        }
        law_mul_degree(power_of(s, (n - 1) as nat), s);
        assert((n - 1) * degree_of(s) + degree_of(s) == n * degree_of(s)) by (nonlinear_arith);
    }
}

/// The value at `x` of the polynomial with coefficients `s`, reduced into
/// the Baby Bear field.
pub open spec fn value_at(s: Seq<FieldElement>, x: int) -> int {
    eval(values(s), x) % (BABY_BEAR_P as int)
}

/// The value of a product is the product of the values.
pub proof fn law_eval_multiplied(s: Seq<FieldElement>, t: Seq<FieldElement>, x: int)
    requires
        all_bb(s),
        all_bb(t),
    ensures
        value_at(multiplied(s, t), x) == (value_at(s, x) * value_at(t, x)) % (BABY_BEAR_P as int),
{
    let pp = BABY_BEAR_P as int;
    let (vs, vt) = (values(s), values(t));
    let m = multiplied(s, t);
    lemma_multiplied_bb(s, t);
    let c = conv_seq(vs, vt);
    assert forall|i: int| #[trigger] coef(values(m), i) % pp == coef(c, i) % pp by {
        lemma_conv_seq(vs, vt, i);
        lemma_mod_twice(conv(vs, vt, i), pp);
    }
    let n = values(m).len() + c.len();
    lemma_eval_mod(values(m), c, x, n as int, pp);
    lemma_eval_conv(vs, vt, x);
    vstd::arithmetic::div_mod::lemma_mul_mod_noop(eval(vs, x), eval(vt, x), pp);
}

/// The value of a sum is the sum of the values.
pub proof fn law_eval_added(s: Seq<FieldElement>, t: Seq<FieldElement>, x: int)
    requires
        all_bb(s),
        all_bb(t),
    ensures
        value_at(added(s, t), x) == (value_at(s, x) + value_at(t, x)) % (BABY_BEAR_P as int),
{
    let pp = BABY_BEAR_P as int;
    let (vs, vt) = (values(s), values(t));
    lemma_added_bb(s, t);
    let r = values(added(s, t));
    let n = (vs.len() + vt.len() + r.len()) as int;
    let c = Seq::new(n as nat, |i: int| coef(vs, i) + coef(vt, i));
    assert forall|i: int| #[trigger] coef(c, i) == coef(vs, i) + coef(vt, i) by {}
    lemma_eval_add(vs, vt, c, x, n);
    assert forall|i: int| #[trigger] coef(r, i) % pp == coef(c, i) % pp by {
        lemma_mod_twice(coef(vs, i) + coef(vt, i), pp);
    }
    lemma_eval_mod(r, c, x, n, pp);
    lemma_add_mod_noop(eval(vs, x), eval(vt, x), pp);
}

/// The value of the negation is the negated value.
pub proof fn law_eval_negated(s: Seq<FieldElement>, x: int)
    requires
        all_bb(s),
    ensures
        value_at(negated(s), x) == (BABY_BEAR_P - value_at(s, x)) % (BABY_BEAR_P as int),
{
    let pp = BABY_BEAR_P as int;
    let vs = values(s);
    lemma_negated_bb(s);
    let r = values(negated(s));
    let n = (vs.len() + r.len()) as int;
    let c = Seq::new(n as nat, |i: int| -coef(vs, i));
    let z = Seq::new(n as nat, |i: int| 0int);
    assert forall|i: int| #[trigger] coef(z, i) == coef(vs, i) + coef(c, i) by {}
    lemma_eval_add(vs, c, z, x, n);
    assert(eval(z, x) == 0) by {
        assert forall|i: int| 0 <= i < n implies #[trigger] eval_term(z, x)(i) == 0 by {}
        lemma_sum_zero(eval_term(z, x), 0, n);
    }
    assert forall|i: int| #[trigger] coef(r, i) % pp == coef(c, i) % pp by {
        vstd::arithmetic::div_mod::lemma_sub_mod_noop(pp, coef(vs, i), pp);
        vstd::arithmetic::div_mod::lemma_mod_self_0(pp);
        lemma_mod_twice(pp - coef(vs, i), pp);
        vstd::arithmetic::div_mod::lemma_sub_mod_noop(0, coef(vs, i), pp);
        lemma_small_mod(0, pp as nat);
    }
    lemma_eval_mod(r, c, x, n, pp);
    vstd::arithmetic::div_mod::lemma_sub_mod_noop(pp, eval(vs, x), pp);
    vstd::arithmetic::div_mod::lemma_sub_mod_noop(0, eval(vs, x), pp);
    vstd::arithmetic::div_mod::lemma_mod_self_0(pp);
    lemma_small_mod(0, pp as nat);
}

/// At zero a polynomial takes the value of its constant coefficient.
pub proof fn law_eval_at_zero(s: Seq<FieldElement>)
    requires
        all_bb(s),
    ensures
        value_at(s, 0) == pad(s, 0).value,
{
    let pp = BABY_BEAR_P as int;
    let vs = values(s);
    let f = eval_term(vs, 0);
    lemma_eval_range(vs, 0, vs.len() + 1int);
    assert forall|i: int| 0 <= i < vs.len() + 1 && i != 0 implies #[trigger] f(i) == 0 by {
        vstd::arithmetic::power::lemma_pow0(0);
        reveal(pow);
        assert(pow(0, i as nat) == 0 * pow(0, (i - 1) as nat));
    }
    lemma_sum_single(f, 0, vs.len() + 1int, 0);
    vstd::arithmetic::power::lemma_pow0(0);
    if 0 < s.len() {
        assert(is_bb_element(s[0]));
    }
    lemma_small_mod(pad(s, 0).value as nat, pp as nat);
}

/// The value of `x - d` at `y`.
pub proof fn lemma_eval_linear_factor(d: FieldElement, y: int)
    requires
        is_bb_element(d),
        0 <= y < BABY_BEAR_P,
    ensures
        value_at(linear_factor(d), y) == (BABY_BEAR_P + y - d.value) % (BABY_BEAR_P as int),
{
    let pp = BABY_BEAR_P as int;
    lemma_linear_factor(d);
    let v = values(linear_factor(d));
    let f = eval_term(v, y);
    assert(eval(v, y) == f(0) + f(1)) by {
        assert(sum_range(f, 0, 2) == sum_range(f, 0, 1) + f(1));
        assert(sum_range(f, 0, 1) == sum_range(f, 0, 0) + f(0));
    }
    vstd::arithmetic::power::lemma_pow0(y);
    lemma_pow1(y);
    lemma_add_mod_noop((pp - d.value) % pp, y, pp);
    lemma_mod_twice(pp - d.value, pp);
    lemma_add_mod_noop(pp - d.value, y, pp);
    lemma_small_mod(y as nat, pp as nat);
}

/// The value of a constant polynomial.
pub proof fn lemma_eval_constant(c: FieldElement, y: int)
    requires
        is_bb_element(c),
    ensures
        value_at(seq![c], y) == c.value,
{
    let v = values(seq![c]);
    let f = eval_term(v, y);
    assert(eval(v, y) == f(0)) by {
        assert(sum_range(f, 0, 1) == sum_range(f, 0, 0) + f(0));
    }
    vstd::arithmetic::power::lemma_pow0(y);
    lemma_small_mod(c.value as nat, BABY_BEAR_P as nat);
}

/// The zerofier of canonical points vanishes on each of them, nowhere else,
/// and has one degree per point.
pub proof fn law_zerofier(ds: Seq<FieldElement>, y: int)
    requires
        all_bb(ds),
        0 <= y < BABY_BEAR_P,
    ensures
        all_bb(zerofier_of(ds)),
        degree_of(zerofier_of(ds)) == ds.len(),
        (value_at(zerofier_of(ds), y) == 0) == exists|i: int| 0 <= i < ds.len() && #[trigger] ds[i].value == y,
    decreases ds.len(),
{
    let pp = BABY_BEAR_P as int;
    let z = zerofier_of(ds);
    if ds.len() == 0 {
        let one = one_coefficients();
        assert(z == one);
        assert(all_bb(one)) by {
            assert forall|k: int| 0 <= k < 1 implies #[trigger] is_bb_element(one[k]) by {}
        }
        lemma_degree_is(one, 0);
        lemma_eval_constant(elem(1, baby_bear()), y);
    } else {
        let rest = ds.drop_last();
        let d = ds.last();
        assert(all_bb(rest)) by {
            assert forall|k: int| 0 <= k < rest.len() implies #[trigger] is_bb_element(rest[k]) by {
                assert(is_bb_element(ds[k]));
            }
        }
        assert(is_bb_element(d));
        law_zerofier(rest, y);
        lemma_linear_factor(d);
        lemma_multiplied_bb(zerofier_of(rest), linear_factor(d));
        // degree
        lemma_degree_exact(linear_factor(d), 1);
        lemma_degree_of(zerofier_of(rest));
        law_mul_degree(zerofier_of(rest), linear_factor(d));
        // value
        law_eval_multiplied(zerofier_of(rest), linear_factor(d), y);
        lemma_eval_linear_factor(d, y);
        let zr = value_at(zerofier_of(rest), y);
        let lv = (pp + y - d.value) % pp;
        lemma_mod_bound(eval(values(zerofier_of(rest)), y), pp);
        lemma_mod_bound(pp + y - d.value, pp);
        if y == d.value {
            vstd::arithmetic::div_mod::lemma_mod_self_0(pp);
            assert(zr * 0 == 0);
            lemma_small_mod(0, pp as nat);
            assert(ds[ds.len() - 1].value == y);
        } else {
            if y < d.value {
                lemma_small_mod((pp + y - d.value) as nat, pp as nat);
            } else {
                vstd::arithmetic::div_mod::lemma_mod_multiples_vanish(1, y - d.value, pp);
                lemma_small_mod((y - d.value) as nat, pp as nat);
            }
            assert(lv != 0);
            if zr == 0 {
                assert(zr * lv == 0) by (nonlinear_arith) requires zr == 0;
                lemma_small_mod(0, pp as nat);
                let i = choose|i: int| 0 <= i < rest.len() && #[trigger] rest[i].value == y;
                assert(ds[i].value == y);
            } else {
                lemma_baby_bear_no_zero_divisors(zr, lv);
                if exists|i: int| 0 <= i < ds.len() && #[trigger] ds[i].value == y {
                    let i = choose|i: int| 0 <= i < ds.len() && #[trigger] ds[i].value == y;
                    if i < rest.len() {
                        assert(rest[i].value == y);
                    }
                }
            }
        }
    }
}

/// The points have pairwise different representatives.
pub open spec fn distinct_points(ds: Seq<FieldElement>) -> bool {
    forall|a: int, b: int| 0 <= a < b < ds.len() ==> #[trigger] ds[a].value != #[trigger] ds[b].value
}

/// The Lagrange terms are canonical, one coefficient longer per factor.
pub proof fn lemma_lagrange_term_bb(ds: Seq<FieldElement>, vs: Seq<FieldElement>, i: int, j: int)
    requires
        all_bb(ds),
        all_bb(vs),
        0 <= i < ds.len(),
        ds.len() == vs.len(),
        0 <= j <= ds.len(),
    ensures
        all_bb(lagrange_term(ds, vs, i, j)),
        lagrange_term(ds, vs, i, j).len() == 1 + j - if i < j { 1int } else { 0 },
    decreases j,
{
    if j == 0 {
        assert(is_bb_element(vs[i]));
        assert(all_bb(seq![vs[i]])) by {
            assert forall|k: int| 0 <= k < 1 implies #[trigger] is_bb_element(seq![vs[i]][k]) by {}
        }
    } else {
        lemma_lagrange_term_bb(ds, vs, i, j - 1);
        if j - 1 != i {
            let prev = lagrange_term(ds, vs, i, j - 1);
            let d = ds[j - 1];
            assert(is_bb_element(d));
            assert(is_bb_element(ds[i]));
            lemma_linear_factor(d);
            lemma_multiplied_bb(prev, linear_factor(d));
            let c = baby_bear().inverse_of(baby_bear().difference(ds[i], d));
            lemma_mod_bound(BABY_BEAR_P + ds[i].value - d.value, BABY_BEAR_P as int);
            lemma_inverse_ok(baby_bear().difference(ds[i], d).value as int, BABY_BEAR_P as int);
            assert(is_bb_element(c));
            assert(all_bb(seq![c])) by {
                assert forall|k: int| 0 <= k < 1 implies #[trigger] is_bb_element(seq![c][k]) by {}
            }
            lemma_multiplied_bb(multiplied(prev, linear_factor(d)), seq![c]);
        }
    }
}

/// The Lagrange term for point `i` takes the value `vs[i]` at `ds[i]`, and
/// vanishes at every other point whose factor it holds.
pub proof fn lemma_lagrange_term_values(ds: Seq<FieldElement>, vs: Seq<FieldElement>, i: int, j: int, k: int)
    requires
        all_bb(ds),
        all_bb(vs),
        distinct_points(ds),
        0 <= i < ds.len(),
        0 <= k < ds.len(),
        ds.len() == vs.len(),
        0 <= j <= ds.len(),
    ensures
        k == i ==> value_at(lagrange_term(ds, vs, i, j), ds[k].value as int) == vs[i].value,
        k != i && k < j ==> value_at(lagrange_term(ds, vs, i, j), ds[k].value as int) == 0,
    decreases j,
{
    let pp = BABY_BEAR_P as int;
    let y = ds[k].value as int;
    assert(is_bb_element(ds[k]));
    assert(is_bb_element(ds[i]));
    assert(is_bb_element(vs[i]));
    if j == 0 {
        lemma_eval_constant(vs[i], y);
    } else if j - 1 == i {
        lemma_lagrange_term_values(ds, vs, i, j - 1, k);
    } else {
        lemma_lagrange_term_values(ds, vs, i, j - 1, k);
        lemma_lagrange_term_bb(ds, vs, i, j - 1);
        let prev = lagrange_term(ds, vs, i, j - 1);
        let d = ds[j - 1];
        assert(is_bb_element(d));
        lemma_linear_factor(d);
        lemma_multiplied_bb(prev, linear_factor(d));
        let diff = baby_bear().difference(ds[i], d);
        let c = baby_bear().inverse_of(diff);
        lemma_mod_bound(BABY_BEAR_P + ds[i].value - d.value, pp);
        lemma_inverse_ok(diff.value as int, pp);
        assert(is_bb_element(c));
        assert(all_bb(seq![c])) by {
            assert forall|m: int| 0 <= m < 1 implies #[trigger] is_bb_element(seq![c][m]) by {}
        }
        law_eval_multiplied(prev, linear_factor(d), y);
        law_eval_multiplied(multiplied(prev, linear_factor(d)), seq![c], y);
        lemma_eval_constant(c, y);
        lemma_eval_linear_factor(d, y);
        let t = value_at(prev, y);
        let lv = (pp + y - d.value) % pp;
        lemma_mod_bound(eval(values(prev), y), pp);
        lemma_mod_bound(pp + y - d.value, pp);
        if k == i {
            // the factor for point j - 1 is (d_i - d_j) * (d_i - d_j)^-1 == 1
            assert(diff.value == lv);
            if i < j - 1 {
                assert(ds[i].value != ds[j - 1].value);
            } else {
                assert(ds[j - 1].value != ds[i].value);
            }
            if lv == 0 {
                vstd::arithmetic::div_mod::lemma_fundamental_div_mod(pp + y - d.value, pp);
                assert(false) by (nonlinear_arith)
                    requires
                        pp + y - d.value == pp * ((pp + y - d.value) / pp) + 0,
                        0 <= y < pp,
                        0 <= d.value < pp,
                        y != d.value,
                ;
            }
            crate::field_operations::lemma_baby_bear_quotient(0, lv);
            let inv = c.value as int;
            assert((lv * inv) % pp == 1);
            lemma_mul_mod_noop_left(t * lv, inv, pp);
            assert((t * lv) * inv == t * (lv * inv)) by (nonlinear_arith);
            lemma_mul_mod_noop_right(t, lv * inv, pp);
            assert(t * 1 == t);
            lemma_small_mod(t as nat, pp as nat);
        } else if k < j {
            if k == j - 1 {
                assert(y == d.value);
                vstd::arithmetic::div_mod::lemma_mod_self_0(pp);
                assert(lv == 0);
                assert(t * lv == 0) by (nonlinear_arith)
                    requires lv == 0;
            } else {
                assert(t == 0);
                assert(t * lv == 0);
            }
            lemma_small_mod(0, pp as nat);
            assert(0 * c.value == 0);
        }
    }
}

/// The partial Lagrange sums take the value `vs[k]` at `ds[k]` once term `k`
/// is in, and zero before.
pub proof fn lemma_lagrange_sum_values(ds: Seq<FieldElement>, vs: Seq<FieldElement>, i: int, k: int)
    requires
        all_bb(ds),
        all_bb(vs),
        distinct_points(ds),
        0 <= i <= ds.len(),
        0 <= k < ds.len(),
        ds.len() == vs.len(),
    ensures
        all_bb(lagrange_sum(ds, vs, i)),
        value_at(lagrange_sum(ds, vs, i), ds[k].value as int) == if k < i { vs[k].value as int } else { 0 },
    decreases i,
{
    let pp = BABY_BEAR_P as int;
    let y = ds[k].value as int;
    if i == 0 {
        assert(all_bb(Seq::<FieldElement>::empty()));
        assert(eval(values(Seq::<FieldElement>::empty()), y) == 0);
        lemma_small_mod(0, pp as nat);
    } else {
        lemma_lagrange_sum_values(ds, vs, i - 1, k);
        let n = ds.len() as int;
        lemma_lagrange_term_bb(ds, vs, i - 1, n);
        lemma_lagrange_term_values(ds, vs, i - 1, n, k);
        let prev = lagrange_sum(ds, vs, i - 1);
        let term = lagrange_term(ds, vs, i - 1, n);
        lemma_added_bb(prev, term);
        law_eval_added(prev, term, y);
        assert(is_bb_element(vs[k]));
        lemma_small_mod(vs[k].value as nat, pp as nat);
        lemma_small_mod(0, pp as nat);
    }
}

/// The interpolant through points with distinct abscissae passes through
/// every one of them.
pub proof fn law_interpolant_passes_through(ds: Seq<FieldElement>, vs: Seq<FieldElement>, k: int)
    requires
        all_bb(ds),
        all_bb(vs),
        distinct_points(ds),
        ds.len() == vs.len(),
        0 <= k < ds.len(),
    ensures
        value_at(interpolant(ds, vs), ds[k].value as int) == vs[k].value,
{
    lemma_lagrange_sum_values(ds, vs, ds.len() as int, k);
}

/// The coefficients of `p(f * x)`: coefficient `i` times `f^i`, reduced.
pub open spec fn scaled(s: Seq<FieldElement>, f: int) -> Seq<FieldElement> {
    Seq::new(s.len(), |i: int| elem((pow(f, i as nat) * s[i].value) % (BABY_BEAR_P as int), baby_bear()))
}

/// Evaluation at congruent points gives congruent values.
proof fn lemma_eval_point_mod(a: Seq<int>, x: int, y: int)
    requires
        x % (BABY_BEAR_P as int) == y % (BABY_BEAR_P as int),
    ensures
        eval(a, x) % (BABY_BEAR_P as int) == eval(a, y) % (BABY_BEAR_P as int),
{
    let pp = BABY_BEAR_P as int;
    let f = eval_term(a, x);
    let g = eval_term(a, y);
    assert forall|i: int| 0 <= i < a.len() implies #[trigger] f(i) % pp == g(i) % pp by {
        vstd::arithmetic::power::lemma_pow_mod_noop(x, i as nat, pp);
        vstd::arithmetic::power::lemma_pow_mod_noop(y, i as nat, pp);
        lemma_mul_mod_noop_right(coef(a, i), pow(x, i as nat), pp);
        lemma_mul_mod_noop_right(coef(a, i), pow(y, i as nat), pp);
    }
    crate::convolution::lemma_sum_mod(f, g, 0, a.len() as int, pp);
}

/// Scaling by `f` composes the polynomial with `x -> f * x`.
pub proof fn law_eval_scaled(s: Seq<FieldElement>, f: int, x: int)
    requires
        all_bb(s),
    ensures
        all_bb(scaled(s, f)),
        value_at(scaled(s, f), x) == value_at(s, (f * x) % (BABY_BEAR_P as int)),
{
    let pp = BABY_BEAR_P as int;
    let vs = values(s);
    let r = scaled(s, f);
    assert forall|i: int| 0 <= i < r.len() implies #[trigger] is_bb_element(r[i]) by {
        lemma_mod_bound(pow(f, i as nat) * s[i].value, pp);
    }
    // coefficient i of the scaled list is f^i * s[i], up to reduction
    let c = Seq::new(s.len(), |i: int| pow(f, i as nat) * vs[i]);
    assert forall|i: int| #[trigger] coef(values(r), i) % pp == coef(c, i) % pp by {
        if 0 <= i < s.len() {
            lemma_mod_twice(pow(f, i as nat) * s[i].value, pp);
        }
    }
    lemma_eval_mod(values(r), c, x, s.len() as int, pp);
    // and sum of f^i * s[i] * x^i is the sum of s[i] * (f * x)^i
    let g = eval_term(c, x);
    let h = eval_term(vs, f * x);
    assert forall|i: int| 0 <= i < s.len() implies #[trigger] g(i) == h(i) by {
        vstd::arithmetic::power::lemma_pow_distributes(f, x, i as nat);
        assert(pow(f, i as nat) * vs[i] * pow(x, i as nat) == vs[i] * (pow(f, i as nat) * pow(x, i as nat))) by (nonlinear_arith);
    }
    crate::convolution::lemma_sum_ext(g, h, 0, s.len() as int);
    lemma_mod_twice(f * x, pp);
    lemma_eval_point_mod(vs, f * x, (f * x) % pp);
}

/// Scaling by one changes nothing.
pub proof fn law_scale_by_one(s: Seq<FieldElement>)
    requires
        all_bb(s),
    ensures
        scaled(s, 1) == s,
{
    assert forall|i: int| 0 <= i < s.len() implies #[trigger] scaled(s, 1)[i] == s[i] by {
        vstd::arithmetic::power::lemma_pow1(1);
        lemma_one_pow(i as nat);
        assert(is_bb_element(s[i]));
        lemma_small_mod(s[i].value as nat, BABY_BEAR_P as nat);
    }
    assert(scaled(s, 1) =~= s);
}

proof fn lemma_one_pow(n: nat)
    ensures
        pow(1, n) == 1,
    decreases n,
{
    reveal(pow);
    if n > 0 {
        lemma_one_pow((n - 1) as nat);
    }
}

/// Scaling by a nonzero element keeps the degree.
pub proof fn law_scale_degree(s: Seq<FieldElement>, f: int)
    requires
        all_bb(s),
        0 < f < BABY_BEAR_P,
    ensures
        degree_of(scaled(s, f)) == degree_of(s),
{
    let pp = BABY_BEAR_P as int;
    let r = scaled(s, f);
    assert(all_bb(r)) by {
        assert forall|i: int| 0 <= i < r.len() implies #[trigger] is_bb_element(r[i]) by {
            lemma_mod_bound(pow(f, i as nat) * s[i].value, pp);
        }
    }
    assert forall|i: int| (#[trigger] coef(values(r), i) == 0) == (coef(values(s), i) == 0) by {
        if 0 <= i < s.len() {
            assert(is_bb_element(s[i]));
            let v = s[i].value as int;
            lemma_pow_nonzero_mod(f, i as nat);
            let fp = pow(f, i as nat) % pp;
            lemma_mod_bound(pow(f, i as nat), pp);
            lemma_mul_mod_noop_left(pow(f, i as nat), v, pp);
            if v != 0 {
                lemma_baby_bear_no_zero_divisors(fp, v);
            } else {
                assert(pow(f, i as nat) * v == 0) by (nonlinear_arith)
                    requires v == 0;
                lemma_small_mod(0, pp as nat);
            }
        }
    }
    lemma_degree_values(r);
    lemma_degree_values(s);
    lemma_degree_of(r);
    lemma_degree_of(s);
    assert forall|k: int| k >= degree_of(r) + 1 implies #[trigger] coef(values(s), k) == 0 by {
        assert(coef(values(r), k) == 0);
    }
    assert forall|k: int| k >= degree_of(s) + 1 implies #[trigger] coef(values(r), k) == 0 by {
        assert(coef(values(s), k) == 0);
    }
    lemma_degree_below(s, degree_of(r) + 1);
    lemma_degree_below(r, degree_of(s) + 1);
    if degree_of(r) < degree_of(s) {
        assert(coef(values(r), degree_of(s)) == 0);
    }
    if degree_of(s) < degree_of(r) {
        assert(coef(values(s), degree_of(r)) == 0);
    }
}

/// Powers of a nonzero element of the Baby Bear field are nonzero.
proof fn lemma_pow_nonzero_mod(f: int, n: nat)
    requires
        0 < f < BABY_BEAR_P,
    ensures
        0 < pow(f, n) % (BABY_BEAR_P as int) < BABY_BEAR_P,
    decreases n,
{
    let pp = BABY_BEAR_P as int;
    reveal(pow);
    if n == 0 {
        lemma_small_mod(1, pp as nat);
    } else {
        lemma_pow_nonzero_mod(f, (n - 1) as nat);
        let q = pow(f, (n - 1) as nat) % pp;
        lemma_baby_bear_no_zero_divisors(f, q);
        lemma_mul_mod_noop_right(f, pow(f, (n - 1) as nat), pp);
        lemma_mod_bound(f * pow(f, (n - 1) as nat), pp);
    }
}

/// The interpolant through `n` points has `n` coefficients (none for none).
pub proof fn lemma_interpolant_len(ds: Seq<FieldElement>, vs: Seq<FieldElement>, i: int)
    requires
        all_bb(ds),
        all_bb(vs),
        ds.len() == vs.len(),
        0 <= i <= ds.len(),
    ensures
        lagrange_sum(ds, vs, i).len() == if i == 0 { 0 } else { ds.len() as int },
    decreases i,
{
    if i > 0 {
        lemma_interpolant_len(ds, vs, i - 1);
        lemma_lagrange_term_bb(ds, vs, i - 1, ds.len() as int);
    }
}

/// Every point `(ds[k], vs[k])` lies on the line `y = a0 + a1 * x`.
pub open spec fn on_line(ds: Seq<FieldElement>, vs: Seq<FieldElement>, a0: int, a1: int) -> bool {
    forall|k: int| 0 <= k < ds.len() ==> (a0 + a1 * ds[k].value) % (BABY_BEAR_P as int) == #[trigger] vs[k].value
}

/// Two points or fewer always lie on a line.
pub proof fn law_few_points_collinear(ds: Seq<FieldElement>, vs: Seq<FieldElement>)
    requires
        all_bb(ds),
        all_bb(vs),
        ds.len() == vs.len(),
        ds.len() <= 2,
    ensures
        degree_of(interpolant(ds, vs)) <= 1,
{
    lemma_interpolant_len(ds, vs, ds.len() as int);
    lemma_degree_of(interpolant(ds, vs));
}

/// Points whose interpolant has degree at most one lie on a line
/// `y = a0 + a1 * x`.
pub proof fn law_collinearity_sound(ds: Seq<FieldElement>, vs: Seq<FieldElement>)
    requires
        all_bb(ds),
        all_bb(vs),
        distinct_points(ds),
        ds.len() == vs.len(),
        degree_of(interpolant(ds, vs)) <= 1,
    ensures
        exists|a0: int, a1: int| #[trigger] on_line(ds, vs, a0, a1),
{
    let poly = interpolant(ds, vs);
    if ds.len() > 0 {
        lemma_lagrange_sum_values(ds, vs, ds.len() as int, 0);
    } else {
        assert(poly == Seq::<FieldElement>::empty());
    }
    let c = values(poly);
    lemma_degree_values(poly);
    let a0 = coef(c, 0);
    let a1 = coef(c, 1);
    assert forall|k: int| 0 <= k < ds.len() implies (a0 + a1 * ds[k].value) % (BABY_BEAR_P as int) == #[trigger] vs[k].value by {
        let x = ds[k].value as int;
        law_interpolant_passes_through(ds, vs, k);
        let f = eval_term(c, x);
        lemma_eval_range(c, x, c.len() + 2int);
        crate::convolution::lemma_sum_split(f, 0, 2, c.len() + 2int);
        assert forall|i: int| 2 <= i < c.len() + 2 implies #[trigger] f(i) == 0 by {
            assert(coef(c, i) == 0);
        }
        lemma_sum_zero(f, 2, c.len() + 2int);
        assert(sum_range(f, 0, 2) == f(0) + f(1)) by {
            assert(sum_range(f, 0, 2) == sum_range(f, 0, 1) + f(1));
            assert(sum_range(f, 0, 1) == sum_range(f, 0, 0) + f(0));
        }
        lemma_pow0(x);
        lemma_pow1(x);
    }
    assert(on_line(ds, vs, a0, a1));
}

/// The representatives of the points, as integers.
pub open spec fn abscissa_values(ds: Seq<FieldElement>) -> Seq<int> {
    Seq::new(ds.len(), |k: int| ds[k].value as int)
}

/// Canonical points with different representatives differ modulo the prime.
pub proof fn lemma_distinct_mod(ds: Seq<FieldElement>)
    requires
        all_bb(ds),
        distinct_points(ds),
    ensures
        distinct_mod(abscissa_values(ds)),
{
    let xs = abscissa_values(ds);
    assert forall|i: int, j: int| 0 <= i < j < xs.len() implies (#[trigger] xs[i] - #[trigger] xs[j]) % (BABY_BEAR_P as int) != 0 by {
        assert(is_bb_element(ds[i]) && is_bb_element(ds[j]));
        assert(ds[i].value != ds[j].value);
        if (xs[i] - xs[j]) % (BABY_BEAR_P as int) == 0 {
            lemma_small_multiple(xs[i] - xs[j]);
        }
    }
}

/// Interpolation has one answer: two canonical polynomials of degree below
/// the number of distinct points that take the same values at all of them
/// have the same coefficients.
pub proof fn law_interpolation_unique(ds: Seq<FieldElement>, s: Seq<FieldElement>, t: Seq<FieldElement>)
    requires
        all_bb(ds),
        distinct_points(ds),
        all_bb(s),
        all_bb(t),
        degree_of(s) < ds.len(),
        degree_of(t) < ds.len(),
        forall|k: int| 0 <= k < ds.len() ==> #[trigger] value_at(s, ds[k].value as int) == value_at(t, ds[k].value as int),
    ensures
        same_coefficients(s, t),
{
    let pp = BABY_BEAR_P as int;
    let n = ds.len() as int;
    let (vs, vt) = (values(s), values(t));
    let xs = abscissa_values(ds);
    let diff = Seq::new(n as nat, |i: int| coef(vs, i) - coef(vt, i));
    lemma_degree_values(s);
    lemma_degree_values(t);
    lemma_distinct_mod(ds);
    let big = n + s.len() + t.len();
    assert forall|i: int| #[trigger] coef(vs, i) == coef(diff, i) + coef(vt, i) by {
        if i >= n {
            assert(coef(vs, i) == 0);
            assert(coef(vt, i) == 0);
        }
    }
    assert forall|k: int| 0 <= k < xs.len() implies #[trigger] eval(diff, xs[k]) % pp == 0 by {
        let x = xs[k];
        lemma_eval_add(diff, vt, vs, x, big);
        assert(value_at(s, ds[k].value as int) == value_at(t, ds[k].value as int));
        vstd::arithmetic::div_mod::lemma_sub_mod_noop(eval(vs, x), eval(vt, x), pp);
        lemma_small_mod(0, pp as nat);
    }
    assert(vanishes_on(diff, xs));
    lemma_vanishing_is_zero(diff, xs);
    assert forall|i: int| #[trigger] coef(vs, i) == coef(vt, i) by {
        if 0 <= i < n {
            assert(coef(diff, i) % pp == 0);
            if i < s.len() {
                assert(is_bb_element(s[i]));
            }
            if i < t.len() {
                assert(is_bb_element(t[i]));
            }
            lemma_small_multiple(coef(diff, i));
        } else if i >= n {
            assert(coef(vs, i) == 0);
            assert(coef(vt, i) == 0);
        }
    }
    lemma_same_iff_values(s, t);
}

/// The values of `s` at the points, as canonical field elements.
pub open spec fn evaluations(s: Seq<FieldElement>, ds: Seq<FieldElement>) -> Seq<FieldElement> {
    Seq::new(ds.len(), |k: int| elem(value_at(s, ds[k].value as int), baby_bear()))
}

/// Interpolating a polynomial's own values at more distinct points than its
/// degree gives back its coefficients.
pub proof fn law_interpolation_recovers(ds: Seq<FieldElement>, s: Seq<FieldElement>)
    requires
        all_bb(ds),
        distinct_points(ds),
        all_bb(s),
        degree_of(s) < ds.len(),
    ensures
        same_coefficients(interpolant(ds, evaluations(s, ds)), s),
{
    let pp = BABY_BEAR_P as int;
    let vs = evaluations(s, ds);
    let n = ds.len() as int;
    assert forall|k: int| 0 <= k < n implies #[trigger] is_bb_element(vs[k]) by {
        lemma_mod_bound(eval(values(s), ds[k].value as int), pp);
    }
    let poly = interpolant(ds, vs);
    lemma_interpolant_len(ds, vs, n);
    if n > 0 {
        lemma_lagrange_sum_values(ds, vs, n, 0);
    } else {
        assert(poly == Seq::<FieldElement>::empty());
        assert(all_bb(poly));
    }
    lemma_degree_of(poly);
    assert forall|k: int| 0 <= k < n implies #[trigger] value_at(poly, ds[k].value as int) == value_at(s, ds[k].value as int) by {
        law_interpolant_passes_through(ds, vs, k);
        lemma_mod_bound(eval(values(s), ds[k].value as int), pp);
    }
    law_interpolation_unique(ds, poly, s);
}

/// Points with distinct abscissae on a line `y = a0 + a1 * x` have an
/// interpolant of degree at most one.
pub proof fn law_collinearity_complete(ds: Seq<FieldElement>, vs: Seq<FieldElement>, a0: int, a1: int)
    requires
        all_bb(ds),
        all_bb(vs),
        distinct_points(ds),
        ds.len() == vs.len(),
        on_line(ds, vs, a0, a1),
    ensures
        degree_of(interpolant(ds, vs)) <= 1,
{
    let pp = BABY_BEAR_P as int;
    let n = ds.len() as int;
    if n <= 2 {
        law_few_points_collinear(ds, vs);
    } else {
        let line = seq![elem(a0 % pp, baby_bear()), elem(a1 % pp, baby_bear())];
        lemma_mod_bound(a0, pp);
        lemma_mod_bound(a1, pp);
        assert(all_bb(line));
        lemma_degree_of(line);
        let poly = interpolant(ds, vs);
        lemma_interpolant_len(ds, vs, n);
        lemma_lagrange_sum_values(ds, vs, n, 0);
        lemma_degree_of(poly);
        assert forall|k: int| 0 <= k < n implies #[trigger] value_at(poly, ds[k].value as int) == value_at(line, ds[k].value as int) by {
            let x = ds[k].value as int;
            law_interpolant_passes_through(ds, vs, k);
            let c = values(line);
            assert(c =~= seq![a0 % pp, a1 % pp]);
            crate::convolution::lemma_eval_cons(a0 % pp, seq![a1 % pp], x);
            crate::convolution::lemma_eval_cons(a1 % pp, Seq::<int>::empty(), x);
            assert(seq![a0 % pp] + seq![a1 % pp] =~= c);
            assert(seq![a1 % pp] + Seq::<int>::empty() =~= seq![a1 % pp]);
            assert(eval(Seq::<int>::empty(), x) == 0);
            assert(x * 0 == 0);
            assert(eval(c, x) == a0 % pp + x * (a1 % pp));
            // (a0 % p + x * (a1 % p)) % p == (a0 + a1 * x) % p
            vstd::arithmetic::div_mod::lemma_mul_mod_noop_right(x, a1, pp);
            vstd::arithmetic::div_mod::lemma_add_mod_noop(a0, x * a1, pp);
            vstd::arithmetic::div_mod::lemma_add_mod_noop(a0 % pp, x * (a1 % pp), pp);
            lemma_mod_twice(a0, pp);
            assert(x * a1 == a1 * x) by (nonlinear_arith);
            assert(vs[k].value == (a0 + a1 * x) % pp);
        }
        law_interpolation_unique(ds, poly, line);
        lemma_degree_same(poly, line);
    }
}

/// The last index whose coefficient is not a multiple of the modulus, or
/// -1 when there is none.
pub open spec fn last_nonzero_mod(a: Seq<int>) -> int
    decreases a.len(),
{
    if a.len() == 0 {
        -1
    } else if a.last() % (BABY_BEAR_P as int) != 0 {
        a.len() - 1
    } else {
        last_nonzero_mod(a.drop_last())
    }
}

proof fn lemma_last_nonzero_mod(a: Seq<int>)
    ensures
        -1 <= last_nonzero_mod(a) < a.len(),
        last_nonzero_mod(a) >= 0 ==> a[last_nonzero_mod(a)] % (BABY_BEAR_P as int) != 0,
        forall|i: int| last_nonzero_mod(a) < i ==> #[trigger] coef(a, i) % (BABY_BEAR_P as int) == 0,
    decreases a.len(),
{
    if a.len() > 0 && a.last() % (BABY_BEAR_P as int) == 0 {
        lemma_last_nonzero_mod(a.drop_last());
        assert forall|i: int| last_nonzero_mod(a) < i implies #[trigger] coef(a, i) % (BABY_BEAR_P as int) == 0 by {
            if i < a.len() - 1 {
                assert(coef(a, i) == coef(a.drop_last(), i));
            }
        }
    }
    if last_nonzero_mod(a) == -1 || a.len() == 0 {
        lemma_small_mod(0, BABY_BEAR_P as nat);
    }
    assert forall|i: int| last_nonzero_mod(a) < i && (i < 0 || i >= a.len()) implies #[trigger] coef(a, i) % (BABY_BEAR_P as int) == 0 by {
        lemma_small_mod(0, BABY_BEAR_P as nat);
    }
}

/// A product `a * d` that vanishes, modulo the prime, at and above the degree of
/// `d` has a multiple of the prime for every coefficient of `a`.
proof fn lemma_product_vanishing_top(a: Seq<int>, d: Seq<FieldElement>)
    requires
        all_bb(d),
        degree_of(d) >= 0,
        forall|k: int| k >= degree_of(d) ==> #[trigger] conv(a, values(d), k) % (BABY_BEAR_P as int) == 0,
    ensures
        forall|i: int| #[trigger] coef(a, i) % (BABY_BEAR_P as int) == 0,
{
    let pp = BABY_BEAR_P as int;
    let dd = degree_of(d);
    let vd = values(d);
    lemma_last_nonzero_mod(a);
    let m = last_nonzero_mod(a);
    if m >= 0 {
        // reduce a modulo p: the reduced list is exactly zero above m
        let ar = Seq::new(a.len(), |i: int| a[i] % pp);
        assert forall|i: int| #[trigger] coef(ar, i) % pp == coef(a, i) % pp by {
            if 0 <= i < a.len() {
                lemma_mod_twice(a[i], pp);
            }
        }
        assert forall|i: int| #[trigger] coef(vd, i) % pp == coef(vd, i) % pp by {}
        lemma_conv_mod(ar, a, vd, vd, m + dd, pp);
        lemma_degree_values(d);
        assert forall|i: int| i > m implies #[trigger] coef(ar, i) == 0 by {
            if 0 <= i < a.len() {
                assert(coef(a, i) % pp == 0);
            }
        }
        lemma_conv_top(ar, vd, m, dd, m + dd);
        assert(is_bb_element(d[dd]));
        lemma_mod_bound(a[m], pp);
        lemma_baby_bear_no_zero_divisors(a[m] % pp, coef(vd, dd));
        assert(coef(ar, m) == a[m] % pp);
        assert(conv(a, vd, m + dd) % pp == 0);
        assert(false);
    }
}

/// Long division has one outcome: two quotient-remainder pairs of a
/// numerator by the same nonzero divisor, each remainder of lower degree
/// than the divisor, have the same coefficients.
pub proof fn law_division_unique(
    n: Seq<FieldElement>,
    d: Seq<FieldElement>,
    q1: Seq<FieldElement>,
    r1: Seq<FieldElement>,
    q2: Seq<FieldElement>,
    r2: Seq<FieldElement>,
)
    requires
        all_bb(d),
        all_bb(q1),
        all_bb(r1),
        all_bb(q2),
        all_bb(r2),
        degree_of(d) >= 0,
        degree_of(r1) < degree_of(d),
        degree_of(r2) < degree_of(d),
        forall|k: int| #[trigger] coef(values(n), k) == (conv(values(q1), values(d), k) + coef(values(r1), k)) % (BABY_BEAR_P as int),
        forall|k: int| #[trigger] coef(values(n), k) == (conv(values(q2), values(d), k) + coef(values(r2), k)) % (BABY_BEAR_P as int),
    ensures
        forall|k: int| #[trigger] coef(values(q1), k) == coef(values(q2), k),
        forall|k: int| #[trigger] coef(values(r1), k) == coef(values(r2), k),
{
    let pp = BABY_BEAR_P as int;
    let (v1, v2, vd) = (values(q1), values(q2), values(d));
    let dd = degree_of(d);
    let len = (v1.len() + v2.len()) as nat;
    let diff = Seq::new(len, |i: int| coef(v1, i) - coef(v2, i));
    lemma_degree_values(r1);
    lemma_degree_values(r2);
    assert forall|k: int| #[trigger] coef(v1, k) == coef(diff, k) + coef(v2, k) by {}
    assert forall|k: int| k >= dd implies #[trigger] conv(diff, vd, k) % pp == 0 by {
        lemma_conv_add_left(diff, v2, v1, vd, k);
        let c1 = conv(v1, vd, k);
        let c2 = conv(v2, vd, k);
        assert(coef(values(r1), k) == 0);
        assert(coef(values(r2), k) == 0);
        assert(coef(values(n), k) == (c1 + coef(values(r1), k)) % pp);
        assert(coef(values(n), k) == (c2 + coef(values(r2), k)) % pp);
        assert(c1 % pp == c2 % pp);
        vstd::arithmetic::div_mod::lemma_sub_mod_noop(c1, c2, pp);
        lemma_small_mod(0, pp as nat);
    }
    lemma_product_vanishing_top(diff, d);
    assert forall|k: int| #[trigger] coef(v1, k) == coef(v2, k) by {
        if 0 <= k < q1.len() {
            assert(is_bb_element(q1[k]));
        }
        if 0 <= k < q2.len() {
            assert(is_bb_element(q2[k]));
        }
        assert(coef(diff, k) % pp == 0);
        vstd::arithmetic::div_mod::lemma_fundamental_div_mod(coef(diff, k), pp);
        assert(coef(diff, k) == 0) by (nonlinear_arith)
            requires
                coef(diff, k) == pp * (coef(diff, k) / pp),
                -pp < coef(diff, k) < pp,
        ;
    }
    assert forall|k: int| #[trigger] coef(values(r1), k) == coef(values(r2), k) by {
        crate::convolution::lemma_sum_ext(
            crate::convolution::conv_term(v1, vd, k),
            crate::convolution::conv_term(v2, vd, k),
            0,
            k + 1,
        );
        assert(conv(v1, vd, k) == conv(v2, vd, k));
        if 0 <= k < r1.len() {
            assert(is_bb_element(r1[k]));
        }
        if 0 <= k < r2.len() {
            assert(is_bb_element(r2[k]));
        }
        let c = conv(v1, vd, k);
        assert(coef(values(n), k) == (c + coef(values(r1), k)) % pp);
        assert(coef(values(n), k) == (conv(v2, vd, k) + coef(values(r2), k)) % pp);
        vstd::arithmetic::div_mod::lemma_add_mod_noop(c, coef(values(r1), k), pp);
        vstd::arithmetic::div_mod::lemma_add_mod_noop(c, coef(values(r2), k), pp);
        lemma_mod_bound(c, pp);
        lemma_small_mod(coef(values(r1), k) as nat, pp as nat);
        lemma_small_mod(coef(values(r2), k) as nat, pp as nat);
        // (c + r1) % p == (c + r2) % p with r1, r2 in [0, p)
        assert((c % pp + coef(values(r1), k)) % pp == (c % pp + coef(values(r2), k)) % pp);
        lemma_mod_sum_cancel(c % pp, coef(values(r1), k), coef(values(r2), k), pp);
    }
}

/// `divide` has a single answer: two outcomes of the long division of `n` by
/// the same nonzero canonical divisor are the same quotient and remainder.
pub proof fn law_divided_unique(
    n: Seq<FieldElement>,
    d: Seq<FieldElement>,
    q1: Seq<FieldElement>,
    r1: Seq<FieldElement>,
    q2: Seq<FieldElement>,
    r2: Seq<FieldElement>,
)
    requires
        all_bb(d),
        degree_of(d) >= 0,
        divided(n, d, q1, r1),
        divided(n, d, q2, r2),
    ensures
        q1 == q2,
        r1 == r2,
{
    law_division_unique(n, d, q1, r1, q2, r2);
    lemma_same_iff_values(q1, q2);
    lemma_same_iff_values(r1, r2);
    assert(q1.len() == q2.len());
    assert(r1.len() == r2.len());
    assert forall|i: int| 0 <= i < q1.len() implies q1[i] == q2[i] by {
        assert(pad(q1, i) == pad(q2, i));
    }
    assert forall|i: int| 0 <= i < r1.len() implies r1[i] == r2[i] by {
        assert(pad(r1, i) == pad(r2, i));
    }
    assert(q1 =~= q2);
    assert(r1 =~= r2);
}

/// Adding residues: `(c + x) % p == (c + y) % p` with `x`, `y` in `[0, p)`
/// forces `x == y`.
proof fn lemma_mod_sum_cancel(c: int, x: int, y: int, p: int)
    requires
        p > 0,
        0 <= c < p,
        0 <= x < p,
        0 <= y < p,
        (c + x) % p == (c + y) % p,
    ensures
        x == y,
{
    vstd::arithmetic::div_mod::lemma_fundamental_div_mod(c + x, p);
    vstd::arithmetic::div_mod::lemma_fundamental_div_mod(c + y, p);
    lemma_mod_bound(c + x, p);
    lemma_mod_bound(c + y, p);
    let qx = (c + x) / p;
    let qy = (c + y) / p;
    assert(0 <= qx <= 1) by (nonlinear_arith)
        requires c + x == p * qx + (c + x) % p, 0 <= c + x < 2 * p, 0 <= (c + x) % p < p, p > 0;
    assert(0 <= qy <= 1) by (nonlinear_arith)
        requires c + y == p * qy + (c + y) % p, 0 <= c + y < 2 * p, 0 <= (c + y) % p < p, p > 0;
    if qx != qy {
        assert(false) by (nonlinear_arith)
            requires
                c + x == p * qx + (c + x) % p,
                c + y == p * qy + (c + y) % p,
                (c + x) % p == (c + y) % p,
                0 <= qx <= 1,
                0 <= qy <= 1,
                qx != qy,
                0 <= x < p,
                0 <= y < p,
        ;
    }
}

/// Whether every element of `s` equals `x`.
fn all_equal(s: &Vec<FieldElement>, x: FieldElement) -> (r: bool)
    ensures
        r == forall|i: int| 0 <= i < s.len() ==> #[trigger] s[i] == x,
{
    let mut k: usize = 0;
    while k < s.len()
        invariant
            k <= s.len(),
            forall|i: int| 0 <= i < k ==> #[trigger] s[i] == x,
        decreases s.len() - k,
    {
        if s[k] != x {
            return false;
        }
        k = k + 1;
    }
    true
}

/// Each coefficient negated in its own field.
pub open spec fn negated(s: Seq<FieldElement>) -> Seq<FieldElement> {
    s.map_values(|e: FieldElement| e.field.negation(e))
}

/// Negating each coefficient in its own field neither panics nor overflows.
pub open spec fn negate_ok(s: Seq<FieldElement>) -> bool {
    forall|i: int| 0 <= i < s.len() ==> rem_ok(#[trigger] s[i].field.p - s[i].value, s[i].field.p as int)
}

/// Coefficient `i` of the first pass of `Polynomial::add`: the coefficient
/// of `s` reduced into the Baby Bear field, or its zero past the end of `s`.
pub open spec fn first_pass(s: Seq<FieldElement>, i: int) -> FieldElement {
    if i < s.len() {
        baby_bear().sum(bb_zero(), s[i])
    } else {
        bb_zero()
    }
}

/// The coefficients of the sum, as `Polynomial::add` computes them: a zero
/// summand gives the other one back unchanged; otherwise coefficient `i` is
/// `s[i] + t[i]` reduced in the Baby Bear field.
pub open spec fn added(s: Seq<FieldElement>, t: Seq<FieldElement>) -> Seq<FieldElement> {
    if degree_of(s) == -1 {
        t
    } else if degree_of(t) == -1 {
        s
    } else {
        Seq::new(
            if s.len() >= t.len() { s.len() } else { t.len() },
            |i: int|
                if i < t.len() {
                    baby_bear().sum(first_pass(s, i), t[i])
                } else {
                    first_pass(s, i)
                },
        )
    }
}

/// Adding `t` to `s` neither panics nor overflows.
pub open spec fn add_ok(s: Seq<FieldElement>, t: Seq<FieldElement>) -> bool {
    degree_of(s) != -1 && degree_of(t) != -1 ==> forall|i: int|
        0 <= i < t.len() ==> rem_ok(first_pass(s, i).value + #[trigger] t[i].value, BABY_BEAR_P as int)
}

/// The coefficients of the product, reduced into the Baby Bear field; none
/// when either factor has none.
pub open spec fn multiplied(s: Seq<FieldElement>, t: Seq<FieldElement>) -> Seq<FieldElement> {
    if s.len() == 0 || t.len() == 0 {
        Seq::empty()
    } else {
        Seq::new(
            (s.len() + t.len() - 1) as nat,
            |k: int| elem(conv(values(s), values(t), k) % (BABY_BEAR_P as int), baby_bear()),
        )
    }
}

/// Row `i` of the product adds to coefficient `k`: `s[i]` is not the Baby Bear
/// zero and `t` has a coefficient `k - i`.
pub open spec fn contributes(s: Seq<FieldElement>, t: Seq<FieldElement>, i: int, k: int) -> bool {
    0 <= i < s.len() && 0 <= k - i < t.len() && s[i] != bb_zero()
}

/// The representative of `s[i] * t[k - i]`, computed in the field of `s[i]`.
pub open spec fn product_term(s: Seq<FieldElement>, t: Seq<FieldElement>, i: int, k: int) -> int {
    trem(s[i].value * t[k - i].value, s[i].field.p as int)
}

/// Coefficient `k` of the product after rows `0` to `i - 1`: each term that
/// a row contributes is added to it and the sum reduced in the Baby Bear
/// field, the rows taken in order.
pub open spec fn product_partial(s: Seq<FieldElement>, t: Seq<FieldElement>, k: int, i: int) -> int
    decreases i,
{
    if i <= 0 {
        0
    } else {
        let prev = product_partial(s, t, k, i - 1);
        if contributes(s, t, i - 1, k) {
            trem(prev + product_term(s, t, i - 1, k), BABY_BEAR_P as int)
        } else {
            prev
        }
    }
}

/// The coefficients that `mul` computes, for coefficients in any field: the
/// Baby Bear elements `product_partial(s, t, k, |s|)`; none when either
/// factor has none.
pub open spec fn product_coefficients(s: Seq<FieldElement>, t: Seq<FieldElement>) -> Seq<FieldElement> {
    if s.len() == 0 || t.len() == 0 {
        Seq::empty()
    } else {
        Seq::new((s.len() + t.len() - 1) as nat, |k: int| elem(product_partial(s, t, k, s.len() as int), baby_bear()))
    }
}

/// Multiplying `s` by `t` neither panics nor overflows: every product of
/// representatives fits and reduces in its field, and every running sum fits.
pub open spec fn mul_ok(s: Seq<FieldElement>, t: Seq<FieldElement>) -> bool {
    forall|i: int, j: int| 0 <= i < s.len() && 0 <= j < t.len() && s[i] != bb_zero() ==> {
        &&& rem_ok(#[trigger] s[i].value * #[trigger] t[j].value, s[i].field.p as int)
        &&& is_i64(product_partial(s, t, i + j, i) + product_term(s, t, i, i + j))
    }
}

/// The running sums stay strictly between `-p` and `p`.
pub proof fn lemma_product_partial_bound(s: Seq<FieldElement>, t: Seq<FieldElement>, k: int, i: int)
    ensures
        -(BABY_BEAR_P as int) < product_partial(s, t, k, i) < BABY_BEAR_P as int,
    decreases i,
{
    if i > 0 {
        lemma_product_partial_bound(s, t, k, i - 1);
        let prev = product_partial(s, t, k, i - 1);
        if contributes(s, t, i - 1, k) {
            crate::number_theory::lemma_trem(prev + product_term(s, t, i - 1, k), BABY_BEAR_P as int);
        }
    }
}

/// On canonical Baby Bear coefficients the running sums are the partial
/// convolutions, reduced.
pub proof fn lemma_product_partial_bb(s: Seq<FieldElement>, t: Seq<FieldElement>, k: int, i: int)
    requires
        all_bb(s),
        all_bb(t),
        0 <= i <= s.len(),
    ensures
        product_partial(s, t, k, i) == sum_range(conv_term(values(s), values(t), k), 0, i) % (BABY_BEAR_P as int),
    decreases i,
{
    let pp = BABY_BEAR_P as int;
    let (a, b) = (values(s), values(t));
    if i == 0 {
        lemma_small_mod(0, pp as nat);
    } else {
        lemma_product_partial_bb(s, t, k, i - 1);
        let prev = sum_range(conv_term(a, b, k), 0, i - 1);
        let term = coef(a, i - 1) * coef(b, k - (i - 1));
        assert(sum_range(conv_term(a, b, k), 0, i) == prev + term);
        lemma_mod_bound(prev, pp);
        assert(is_bb_element(s[i - 1]));
        if contributes(s, t, i - 1, k) {
            assert(is_bb_element(t[k - (i - 1)]));
            assert(0 <= term <= (pp - 1) * (pp - 1)) by (nonlinear_arith)
                requires
                    term == coef(a, i - 1) * coef(b, k - (i - 1)),
                    0 <= coef(a, i - 1) < pp,
                    0 <= coef(b, k - (i - 1)) < pp,
            ;
            crate::number_theory::lemma_trem(term, pp);
            lemma_mod_bound(term, pp);
            assert(product_term(s, t, i - 1, k) == term % pp);
            crate::number_theory::lemma_trem(prev % pp + term % pp, pp);
            lemma_add_mod_noop(prev, term, pp);
        } else {
            if 0 <= k - (i - 1) < t.len() {
                assert(s[i - 1] == bb_zero());
                assert(coef(a, i - 1) == 0);
            }
            assert(term == 0);
        }
    }
}

/// On canonical Baby Bear coefficients `mul` cannot fail, and computes the
/// reduced convolution.
pub proof fn lemma_product_bb(s: Seq<FieldElement>, t: Seq<FieldElement>)
    requires
        all_bb(s),
        all_bb(t),
    ensures
        mul_ok(s, t),
        product_coefficients(s, t) == multiplied(s, t),
{
    let pp = BABY_BEAR_P as int;
    assert forall|i: int, j: int| 0 <= i < s.len() && 0 <= j < t.len() && s[i] != bb_zero() implies {
        &&& rem_ok(#[trigger] s[i].value * #[trigger] t[j].value, s[i].field.p as int)
        &&& is_i64(product_partial(s, t, i + j, i) + product_term(s, t, i, i + j))
    } by {
        assert(is_bb_element(s[i]) && is_bb_element(t[j]));
        let (x, y) = (s[i].value as int, t[j].value as int);
        assert(0 <= x * y <= (pp - 1) * (pp - 1)) by (nonlinear_arith)
            requires 0 <= x < pp, 0 <= y < pp;
        crate::number_theory::lemma_trem(x * y, pp);
        assert(t[(i + j) - i] == t[j]);
        lemma_product_partial_bound(s, t, i + j, i);
    }
    if s.len() > 0 && t.len() > 0 {
        assert forall|k: int| 0 <= k < s.len() + t.len() - 1 implies #[trigger] product_coefficients(s, t)[k] == multiplied(s, t)[k] by {
            lemma_product_partial_bb(s, t, k, s.len() as int);
            lemma_conv_rows(values(s), values(t), k, s.len() as int);
        }
        assert(product_coefficients(s, t) =~= multiplied(s, t));
    }
}

/// Comparing `s` against `t` coefficient by coefficient does not run past the
/// end of `t`: that would happen when both have the same nonzero degree, `s`
/// is longer, and `t` is a prefix of `s`.
pub open spec fn equals_ok(s: Seq<FieldElement>, t: Seq<FieldElement>) -> bool {
    !(degree_of(s) == degree_of(t) && degree_of(s) >= 0 && s.len() > t.len() && forall|i: int|
        0 <= i < t.len() ==> #[trigger] s[i] == t[i])
}

/// Every `i64` can be reduced modulo the Baby Bear prime.
proof fn lemma_rem_ok_baby_bear(a: int)
    requires
        i64::MIN <= a <= i64::MAX,
    ensures
        rem_ok(a, BABY_BEAR_P as int),
{
}

impl Clone for Polynomial {
    fn clone(&self) -> (r: Self)
        ensures
            r.coefficients@ == self.coefficients@,
    {
        Polynomial { coefficients: self.coefficients.clone() }
    }
}

impl Polynomial {
    pub fn new(coeffs: Vec<FieldElement>) -> (r: Polynomial)
        ensures
            r.coefficients@ == coeffs@,
    {
        Polynomial { coefficients: coeffs }
    }

    /// The index of the last coefficient that is not zero; -1 for the zero
    /// polynomial.
    pub fn degree(&self) -> (r: i64)
        requires
            within_capacity(self.coefficients@),
        ensures
            r == degree_of(self.coefficients@),
    {
        let ghost s = self.coefficients@;
        if self.coefficients.is_empty() {
            return -1;
        }

        let zero = Field { p: BABY_BEAR_P }.zero();

        // Check if all coefficients are zero
        if all_equal(&self.coefficients, zero) {
            proof {
                lemma_degree_of(s);
            }
            return -1;
        }

        let mut max_index: i64 = 0;

        let mut i: usize = 0;
        while i < self.coefficients.len()
            invariant
                s == self.coefficients@,
                s.len() <= i64::MAX,
                zero == bb_zero(),
                i <= s.len(),
                max_index == if degree_of(s.subrange(0, i as int)) < 0 { 0 } else { degree_of(s.subrange(0, i as int)) },
            decreases s.len() - i,
        {
            proof {
                assert(s.subrange(0, i + 1).drop_last() == s.subrange(0, i as int));
            }
            if self.coefficients[i] != zero {
                max_index = i as i64;
            }
            i = i + 1;
        }
        proof {
            assert(s.subrange(0, s.len() as int) == s);
            lemma_degree_of(s);
        }
        max_index
    }

    /// Negation of each coefficient.
    pub fn neg(&self) -> (r: Polynomial)
        requires
            negate_ok(self.coefficients@),
        ensures
            r.coefficients@ == negated(self.coefficients@),
    {
        let mut negative_coefficients = self.coefficients.clone();
        let ghost s = self.coefficients@;
        proof {
            assert(negative_coefficients@ == s);
        }

        let mut i: usize = 0;
        while i < negative_coefficients.len()
            invariant
                negate_ok(s),
                negative_coefficients.len() == s.len(),
                i <= s.len(),
                forall|k: int| 0 <= k < i ==> #[trigger] negative_coefficients@[k] == s[k].field.negation(s[k]),
                forall|k: int| i <= k < s.len() ==> #[trigger] negative_coefficients@[k] == s[k],
            decreases s.len() - i,
        {
            negative_coefficients[i] = core::ops::Neg::neg(negative_coefficients[i].clone());
            i = i + 1;
        }
        proof {
            assert(negative_coefficients@ == negated(s));
        }

        Polynomial {
            coefficients: negative_coefficients,
        }
    }

    /// Addition of two polynomials, coefficient by coefficient.
    pub fn add(&self, other: &Polynomial) -> (r: Polynomial)
        requires
            within_capacity(self.coefficients@),
            within_capacity(other.coefficients@),
            add_ok(self.coefficients@, other.coefficients@),
        ensures
            r.coefficients@ == added(self.coefficients@, other.coefficients@),
    {
        let ghost s = self.coefficients@;
        let ghost t = other.coefficients@;
        if self.degree() == -1 {
            return other.clone();
        }

        if other.degree() == -1 {
            return self.clone();
        }

        let zero = Field { p: BABY_BEAR_P }.zero();

        let max_len = if self.coefficients.len() >= other.coefficients.len() {
            self.coefficients.len()
        } else {
            other.coefficients.len()
        };

        let mut coeffs = vec![zero; max_len];
        proof {
            assert forall|k: int| 0 <= k < max_len implies #[trigger] coeffs@[k] == bb_zero() by {
                assert(vstd::pervasive::cloned(zero, coeffs@[k]));
            }
        }

        // Add self coefficients
        let mut i: usize = 0;
        while i < self.coefficients.len()
            invariant
                s == self.coefficients@,
                coeffs.len() == max_len,
                max_len >= s.len(),
                i <= s.len(),
                forall|k: int| 0 <= k < i ==> #[trigger] coeffs@[k] == first_pass(s, k),
                forall|k: int| i <= k < max_len ==> #[trigger] coeffs@[k] == bb_zero(),
            decreases s.len() - i,
        {
            proof {
                lemma_rem_ok_baby_bear(coeffs@[i as int].value + s[i as int].value);
            }
            coeffs[i] = coeffs[i].clone() + self.coefficients[i].clone();
            i = i + 1;
        }

        // Add other coefficients
        let mut i: usize = 0;
        while i < other.coefficients.len()
            invariant
                s == self.coefficients@,
                t == other.coefficients@,
                degree_of(s) != -1,
                degree_of(t) != -1,
                add_ok(s, t),
                coeffs.len() == max_len,
                max_len >= s.len(),
                max_len >= t.len(),
                i <= t.len(),
                forall|k: int| 0 <= k < i ==> #[trigger] coeffs@[k] == baby_bear().sum(first_pass(s, k), t[k]),
                forall|k: int| i <= k < max_len ==> #[trigger] coeffs@[k] == first_pass(s, k),
            decreases t.len() - i,
        {
            coeffs[i] = coeffs[i].clone() + other.coefficients[i].clone();
            i = i + 1;
        }
        proof {
            assert(coeffs@ == added(s, t));
        }

        Polynomial {
            coefficients: coeffs,
        }
    }

    /// Whether the two polynomials have the same coefficients, trailing zeros
    /// aside.
    pub fn equals(&self, other: &Polynomial) -> (r: bool)
        requires
            within_capacity(self.coefficients@),
            within_capacity(other.coefficients@),
            equals_ok(self.coefficients@, other.coefficients@),
        ensures
            r == same_coefficients(self.coefficients@, other.coefficients@),
    {
        let ghost s = self.coefficients@;
        let ghost t = other.coefficients@;
        proof {
            lemma_degree_of(s);
            lemma_degree_of(t);
        }

        if self.degree() != other.degree() {
            proof {
                if same_coefficients(s, t) {
                    lemma_degree_same(s, t);
                }
            }
            return false;
        }

        if self.degree() == -1 {
            proof {
                assert forall|k: int| #[trigger] pad(s, k) == pad(t, k) by {}
            }
            return true;
        }

        let mut i: usize = 0;
        while i < self.coefficients.len()
            invariant
                s == self.coefficients@,
                t == other.coefficients@,
                equals_ok(s, t),
                degree_of(s) == degree_of(t),
                degree_of(s) >= 0,
                i <= s.len(),
                forall|k: int| 0 <= k < i ==> k < t.len() && #[trigger] s[k] == t[k],
            decreases s.len() - i,
        {
            if self.coefficients[i] != other.coefficients[i] {
                proof {
                    assert(pad(s, i as int) != pad(t, i as int));
                }
                return false;
            }
            i = i + 1;
        }
        proof {
            assert forall|k: int| #[trigger] pad(s, k) == pad(t, k) by {
                if 0 <= k < s.len() {
                    assert(s[k] == t[k]);
                }
            }
        }

        true
    }

    /// Whether this is the zero polynomial.
    pub fn is_zero(&self) -> (r: bool)
        requires
            within_capacity(self.coefficients@),
        ensures
            r == (degree_of(self.coefficients@) == -1),
    {
        self.degree() == -1
    }

    /// The coefficient of the highest power with a nonzero coefficient;
    /// none for the zero polynomial.
    pub fn leading_coefficient(&self) -> (r: Option<FieldElement>)
        requires
            within_capacity(self.coefficients@),
        ensures
            r == if degree_of(self.coefficients@) == -1 {
                None
            } else {
                Some(self.coefficients@[degree_of(self.coefficients@)])
            },
    {
        let deg = self.degree();
        proof {
            lemma_degree_of(self.coefficients@);
        }

        if deg == -1 {
            return None;
        }

        Some(self.coefficients[deg as usize].clone())
    }

    /// Subtraction: `self + (-other)`.
    pub fn sub(&self, other: &Polynomial) -> (r: Polynomial)
        requires
            within_capacity(self.coefficients@),
            within_capacity(other.coefficients@),
            negate_ok(other.coefficients@),
            add_ok(self.coefficients@, negated(other.coefficients@)),
        ensures
            r.coefficients@ == added(self.coefficients@, negated(other.coefficients@)),
    {
        self.add(&other.neg())
    }

    /// Multiplication of two polynomials: coefficient `k` of the product sums
    /// the terms `a[i] * b[k - i]`, each in the field of `a[i]`, with the sum
    /// kept in the Baby Bear field; rows whose `a[i]` is the Baby Bear zero are
    /// skipped. On canonical Baby Bear coefficients that is the reduced
    /// convolution.
    #[verifier::spinoff_prover]
    pub fn mul(&self, other: &Polynomial) -> (r: Polynomial)
        requires
            mul_ok(self.coefficients@, other.coefficients@),
            within_capacity(self.coefficients@),
            within_capacity(other.coefficients@),
            within_capacity(product_coefficients(self.coefficients@, other.coefficients@)),
        ensures
            r.coefficients@ == product_coefficients(self.coefficients@, other.coefficients@),
            all_bb(self.coefficients@) && all_bb(other.coefficients@) ==> r.coefficients@ == multiplied(
                self.coefficients@,
                other.coefficients@,
            ),
    {
        let ghost s = self.coefficients@;
        let ghost t = other.coefficients@;
        proof {
            if all_bb(s) && all_bb(t) {
                lemma_product_bb(s, t);
            }
        }
        if self.coefficients.is_empty() || other.coefficients.is_empty() {
            return Polynomial {
                coefficients: vec![],
            };
        }

        let zero = Field {p: BABY_BEAR_P}.zero();

        let n = self.coefficients.len();
        let m = other.coefficients.len();
        let mut buf = vec![
            zero;
            self.coefficients.len() + other.coefficients.len() - 1
        ];
        proof {
            assert forall|k: int| 0 <= k < n + m - 1 implies #[trigger] buf@[k] == elem(product_partial(s, t, k, 0), baby_bear()) by {
                assert(vstd::pervasive::cloned(zero, buf@[k]));
            }
        }

        let mut i: usize = 0;
        while i < n
            invariant
                s == self.coefficients@,
                t == other.coefficients@,
                mul_ok(s, t),
                n == s.len(),
                m == t.len(),
                n >= 1,
                m >= 1,
                zero == bb_zero(),
                buf.len() == n + m - 1,
                i <= n,
                forall|k: int| 0 <= k < n + m - 1 ==> #[trigger] buf@[k] == elem(product_partial(s, t, k, i as int), baby_bear()),
            decreases n - i,
        {
            if self.coefficients[i] != zero {
                let mut j: usize = 0;
                while j < m
                    invariant
                        s == self.coefficients@,
                        t == other.coefficients@,
                        mul_ok(s, t),
                        n == s.len(),
                        m == t.len(),
                        i < n,
                        s[i as int] != bb_zero(),
                        buf.len() == n + m - 1,
                        j <= m,
                        forall|k: int| 0 <= k < n + m - 1 ==> #[trigger] buf@[k] == elem(
                            if i <= k < i + j { product_partial(s, t, k, i + 1) } else { product_partial(s, t, k, i as int) },
                            baby_bear(),
                        ),
                    decreases m - j,
                {
                    let ghost k = (i + j) as int;
                    proof {
                        assert(t[k - i] == t[j as int]);
                        assert(contributes(s, t, i as int, k));
                        lemma_product_partial_bound(s, t, k, i as int);
                        lemma_product_partial_bound(s, t, k, i + 1);
                        assert(buf@[k].value == product_partial(s, t, k, i as int));
                        crate::number_theory::lemma_trem(s[i as int].value * t[j as int].value, s[i as int].field.p as int);
                    }
                    buf[i + j] = buf[i + j].clone() + self.coefficients[i].clone() * other.coefficients[j].clone();
                    proof {
                        assert(buf@[k].value == product_partial(s, t, k, i + 1));
                    }
                    j = j + 1;
                }
            } else {
                proof {
                    assert forall|k: int| 0 <= k < n + m - 1 implies #[trigger] buf@[k] == elem(product_partial(s, t, k, i + 1), baby_bear()) by {
                        assert(!contributes(s, t, i as int, k));
                    }
                }
            }
            i = i + 1;
        }
        proof {
            assert(buf@ =~= product_coefficients(s, t));
        }

        Polynomial {
            coefficients: buf,
        }
    }

    /// The value of the polynomial at `point`.
    pub fn evaluate(&self, point: FieldElement) -> (r: FieldElement)
        requires
            all_bb(self@),
            is_bb_element(point),
        ensures
            r == elem(eval(values(self@), point.value as int) % (BABY_BEAR_P as int), baby_bear()),
    {
        let ghost s = self@;
        let ghost a = values(s);
        let ghost x = point.value as int;
        let ghost pp = BABY_BEAR_P as int;
        let mut xi = point.field.one();
        let mut value = point.field.zero();
        proof {
            lemma_pow0(x);
            lemma_small_mod(1, pp as nat);
            lemma_small_mod(0, pp as nat);
        }

        let mut i: usize = 0;
        while i < self.coefficients.len()
            invariant
                s == self@,
                a == values(s),
                x == point.value,
                pp == BABY_BEAR_P,
                all_bb(s),
                is_bb_element(point),
                i <= s.len(),
                value == elem(sum_range(eval_term(a, x), 0, i as int) % pp, baby_bear()),
                xi == elem(pow(x, i as nat) % pp, baby_bear()),
            decreases s.len() - i,
        {
            let ghost sum = sum_range(eval_term(a, x), 0, i as int);
            let ghost xp = pow(x, i as nat);
            proof {
                assert(is_bb_element(s[i as int]));
                lemma_mod_bound(xp, pp);
                lemma_mod_bound(sum, pp);
                let c = s[i as int].value as int;
                assert(0 <= c * (xp % pp) <= (pp - 1) * (pp - 1)) by (nonlinear_arith)
                    requires 0 <= c < pp, 0 <= xp % pp < pp;
                assert(0 <= (xp % pp) * x <= (pp - 1) * (pp - 1)) by (nonlinear_arith)
                    requires 0 <= x < pp, 0 <= xp % pp < pp;
                lemma_mul_mod_noop_right(c, xp, pp);
                lemma_mod_bound(c * xp, pp);
                lemma_add_mod_noop(sum, c * xp, pp);
                lemma_mod_twice(sum, pp);
                lemma_mod_twice(c * xp, pp);
                assert(sum_range(eval_term(a, x), 0, i + 1) == sum + eval_term(a, x)(i as int));
                assert(eval_term(a, x)(i as int) == c * xp);
                lemma_pow_adds(x, i as nat, 1);
                lemma_pow1(x);
                lemma_mul_mod_noop_left(xp, x, pp);
                lemma_mod_bound(xp * x, pp);
            }
            value = value + self.coefficients[i] * xi;
            xi = xi * point;
            i = i + 1;
        }
        value
    }

    /// The values of the polynomial at each point of `domain`, in order.
    pub fn evaluate_domain(&self, domain: &Vec<FieldElement>) -> (r: Vec<FieldElement>)
        requires
            all_bb(self@),
            all_bb(domain@),
        ensures
            r@.len() == domain@.len(),
            forall|i: int| 0 <= i < domain@.len() ==> #[trigger] r@[i] == elem(
                eval(values(self@), domain@[i].value as int) % (BABY_BEAR_P as int),
                baby_bear(),
            ),
    {
        let mut results: Vec<FieldElement> = Vec::new();
        let mut i: usize = 0;
        while i < domain.len()
            invariant
                all_bb(self@),
                all_bb(domain@),
                i <= domain@.len(),
                results@.len() == i,
                forall|k: int| 0 <= k < i ==> #[trigger] results@[k] == elem(
                    eval(values(self@), domain@[k].value as int) % (BABY_BEAR_P as int),
                    baby_bear(),
                ),
            decreases domain@.len() - i,
        {
            proof {
                assert(is_bb_element(domain@[i as int]));
            }
            results.push(self.evaluate(domain[i]));
            i = i + 1;
        }
        results
    }

    /// The polynomial `p(factor * x)`: coefficient `i` multiplied by `factor^i`.
    pub fn scale(&self, factor: FieldElement) -> (r: Polynomial)
        requires
            all_bb(self@),
            is_bb_element(factor),
        ensures
            r@ == scaled(self@, factor.value as int),
    {
        let ghost s = self@;
        let ghost f = factor.value as int;
        let ghost pp = BABY_BEAR_P as int;
        let mut coeffs: Vec<FieldElement> = Vec::new();
        let mut power = factor.field.one();
        proof {
            lemma_pow0(f);
            lemma_small_mod(1, pp as nat);
        }
        let mut i: usize = 0;
        while i < self.coefficients.len()
            invariant
                s == self@,
                f == factor.value,
                pp == BABY_BEAR_P,
                all_bb(s),
                is_bb_element(factor),
                i <= s.len(),
                coeffs@.len() == i,
                power == elem(pow(f, i as nat) % pp, baby_bear()),
                forall|k: int| 0 <= k < i ==> #[trigger] coeffs@[k] == elem((pow(f, k as nat) * s[k].value) % pp, baby_bear()),
            decreases s.len() - i,
        {
            let ghost fp = pow(f, i as nat);
            proof {
                assert(is_bb_element(s[i as int]));
                let c = s[i as int].value as int;
                lemma_mod_bound(fp, pp);
                assert(0 <= (fp % pp) * c <= (pp - 1) * (pp - 1)) by (nonlinear_arith)
                    requires 0 <= c < pp, 0 <= fp % pp < pp;
                assert(0 <= (fp % pp) * f <= (pp - 1) * (pp - 1)) by (nonlinear_arith)
                    requires 0 <= f < pp, 0 <= fp % pp < pp;
                lemma_mul_mod_noop_left(fp, c, pp);
                lemma_mod_bound(fp * c, pp);
                lemma_pow_adds(f, i as nat, 1);
                lemma_pow1(f);
                lemma_mul_mod_noop_left(fp, f, pp);
                lemma_mod_bound(fp * f, pp);
            }
            coeffs.push(power * self.coefficients[i]);
            power = power * factor;
            i = i + 1;
        }
        proof {
            assert(coeffs@ =~= scaled(s, f));
        }
        Polynomial::new(coeffs)
    }

    /// The polynomial that vanishes exactly on `domain`: the product of
    /// `x - d` over its points.
    pub fn zerofier_domain(domain: &Vec<FieldElement>) -> (r: Polynomial)
        requires
            all_bb(domain@),
            domain@.len() + 1 <= isize::MAX as int / 16,
        ensures
            r@ == zerofier_of(domain@),
            all_bb(r@),
            r@.len() == domain@.len() + 1,
    {
        let field = Field { p: BABY_BEAR_P };
        let x = Polynomial::new(vec![field.zero(), field.one()]);
        let mut acc = Polynomial::new(vec![field.one()]);
        proof {
            assert(x@ == x_coefficients());
            assert(all_bb(acc@)) by {
                assert forall|i: int| 0 <= i < acc@.len() implies #[trigger] is_bb_element(acc@[i]) by {}
            }
            assert(domain@.take(0) == Seq::<FieldElement>::empty());
        }
        let mut i: usize = 0;
        while i < domain.len()
            invariant
                all_bb(domain@),
                domain@.len() + 1 <= isize::MAX as int / 16,
                x@ == x_coefficients(),
                i <= domain@.len(),
                acc@ == zerofier_of(domain@.take(i as int)),
                all_bb(acc@),
                acc@.len() == i + 1,
            decreases domain@.len() - i,
        {
            let d = domain[i];
            proof {
                assert(is_bb_element(d));
                lemma_linear_factor(d);
                lemma_negated_bb(seq![d]);
                assert(all_bb(seq![d])) by {
                    assert forall|k: int| 0 <= k < 1 implies #[trigger] is_bb_element(seq![d][k]) by {}
                }
                assert(all_bb(x_coefficients())) by {
                    assert forall|k: int| 0 <= k < 2 implies #[trigger] is_bb_element(x_coefficients()[k]) by {}
                }
                lemma_added_bb(x_coefficients(), negated(seq![d]));
                assert(domain@.take(i + 1).drop_last() == domain@.take(i as int));
                lemma_multiplied_bb(acc@, linear_factor(d));
                lemma_product_bb(acc@, linear_factor(d));
            }
            let single = Polynomial::new(vec![d]);
            assert(single@ =~= seq![d]);
            let factor = x.sub(&single);
            assert(factor@ == linear_factor(d));
            acc = acc.mul(&factor);
            proof {
                assert(domain@.take(i + 1).last() == d);
                assert(zerofier_of(domain@.take(i + 1)) == multiplied(zerofier_of(domain@.take(i as int)), linear_factor(d)));
            }
            i = i + 1;
        }
        proof {
            assert(domain@.take(domain@.len() as int) == domain@);
        }
        acc
    }

    /// The Lagrange interpolant through the points `(domain[i], values[i])`:
    /// the sum over `i` of `values[i]` times the product, over the other
    /// points `j`, of `(x - domain[j]) / (domain[i] - domain[j])`.
    pub fn interpolate_domain(domain: &Vec<FieldElement>, values: &Vec<FieldElement>) -> (r: Polynomial)
        requires
            domain@.len() == values@.len(),
            all_bb(domain@),
            all_bb(values@),
            within_capacity(domain@),
        ensures
            r@ == interpolant(domain@, values@),
            all_bb(r@),
            r@.len() == domain@.len(),
    {
        let ghost ds = domain@;
        let ghost vs = values@;
        let n = domain.len();
        let field = Field { p: BABY_BEAR_P };
        let x = Polynomial::new(vec![field.zero(), field.one()]);
        let mut acc = Polynomial::new(vec![]);
        proof {
            assert(x@ == x_coefficients());
            assert(all_bb(x_coefficients())) by {
                assert forall|k: int| 0 <= k < 2 implies #[trigger] is_bb_element(x_coefficients()[k]) by {}
            }
        }
        let mut i: usize = 0;
        while i < n
            invariant
                ds == domain@,
                vs == values@,
                n == ds.len(),
                vs.len() == n,
                all_bb(ds),
                all_bb(vs),
                within_capacity(ds),
                x@ == x_coefficients(),
                all_bb(x_coefficients()),
                i <= n,
                acc@ == lagrange_sum(ds, vs, i as int),
                all_bb(acc@),
                acc@.len() == if i == 0 { 0 } else { n as int },
            decreases n - i,
        {
            let mut prod = Polynomial::new(vec![values[i]]);
            proof {
                assert(is_bb_element(vs[i as int]));
                assert(all_bb(prod@)) by {
                    assert forall|k: int| 0 <= k < 1 implies #[trigger] is_bb_element(prod@[k]) by {}
                }
            }
            let mut j: usize = 0;
            while j < n
                invariant
                    ds == domain@,
                    vs == values@,
                    n == ds.len(),
                    vs.len() == n,
                    all_bb(ds),
                    all_bb(vs),
                    within_capacity(ds),
                    x@ == x_coefficients(),
                    all_bb(x_coefficients()),
                    i < n,
                    j <= n,
                    prod@ == lagrange_term(ds, vs, i as int, j as int),
                    all_bb(prod@),
                    prod@.len() == 1 + j - if i < j { 1int } else { 0 },
                decreases n - j,
            {
                if j != i {
                    let dj = domain[j];
                    let di = domain[i];
                    proof {
                        assert(is_bb_element(dj));
                        assert(is_bb_element(di));
                        lemma_linear_factor(dj);
                        lemma_negated_bb(seq![dj]);
                        assert(all_bb(seq![dj])) by {
                            assert forall|k: int| 0 <= k < 1 implies #[trigger] is_bb_element(seq![dj][k]) by {}
                        }
                        lemma_added_bb(x_coefficients(), negated(seq![dj]));
                        lemma_multiplied_bb(prod@, linear_factor(dj));
                        crate::field_operations::lemma_inverse_ok(
                            baby_bear().difference(di, dj).value as int,
                            BABY_BEAR_P as int,
                        );
                        lemma_mod_bound(BABY_BEAR_P + di.value - dj.value, BABY_BEAR_P as int);
                    }
                    let single = Polynomial::new(vec![dj]);
                    assert(single@ =~= seq![dj]);
                    let factor = x.sub(&single);
                    assert(factor@ == linear_factor(dj));
                    let difference = di - dj;
                    let scale = Polynomial::new(vec![difference.inverse()]);
                    proof {
                        assert(all_bb(scale@)) by {
                            assert forall|k: int| 0 <= k < 1 implies #[trigger] is_bb_element(scale@[k]) by {}
                        }
                        lemma_multiplied_bb(multiplied(prod@, linear_factor(dj)), scale@);
                        lemma_product_bb(prod@, linear_factor(dj));
                        lemma_product_bb(multiplied(prod@, linear_factor(dj)), scale@);
                    }
                    prod = prod.mul(&factor).mul(&scale);
                    proof {
                        assert(di.field == baby_bear());
                        assert(scale@ == seq![baby_bear().inverse_of(baby_bear().difference(ds[i as int], ds[j as int]))]);
                        assert(lagrange_term(ds, vs, i as int, j + 1) == multiplied(
                            multiplied(lagrange_term(ds, vs, i as int, j as int), linear_factor(ds[j as int])),
                            seq![baby_bear().inverse_of(baby_bear().difference(ds[i as int], ds[j as int]))],
                        ));
                    }
                }
                j = j + 1;
            }
            proof {
                if i > 0 {
                    lemma_zero_values(acc@);
                }
                lemma_zero_values(prod@);
                lemma_added_bb(acc@, prod@);
            }
            acc = acc.add(&prod);
            i = i + 1;
        }
        acc
    }

    /// Whether the points lie on one line: their interpolant has degree at
    /// most one.
    pub fn test_collinearity(points: &Vec<(FieldElement, FieldElement)>) -> (r: bool)
        requires
            all_bb(abscissae(points@)),
            all_bb(ordinates(points@)),
            points@.len() <= isize::MAX as int / 16,
        ensures
            r == (degree_of(interpolant(abscissae(points@), ordinates(points@))) <= 1),
    {
        let mut domain: Vec<FieldElement> = Vec::new();
        let mut values: Vec<FieldElement> = Vec::new();
        let mut i: usize = 0;
        while i < points.len()
            invariant
                i <= points@.len(),
                domain@ == abscissae(points@).take(i as int),
                values@ == ordinates(points@).take(i as int),
            decreases points@.len() - i,
        {
            let (x, y) = points[i];
            domain.push(x);
            values.push(y);
            proof {
                assert(abscissae(points@).take(i + 1) == abscissae(points@).take(i as int).push(x));
                assert(ordinates(points@).take(i + 1) == ordinates(points@).take(i as int).push(y));
            }
            i = i + 1;
        }
        proof {
            assert(abscissae(points@).take(points@.len() as int) == abscissae(points@));
            assert(ordinates(points@).take(points@.len() as int) == ordinates(points@));
        }
        let polynomial = Polynomial::interpolate_domain(&domain, &values);
        polynomial.degree() <= 1
    }

    /// Long division: `Some((quotient, remainder))` with
    /// `numerator == quotient * denominator + remainder` and the remainder of
    /// lower degree than the denominator; `None` when the denominator is zero.
    pub fn divide(
        numerator: &Polynomial,
        denominator: &Polynomial,
    ) -> (r: Option<(Polynomial, Polynomial)>)
        requires
            all_bb(numerator.coefficients@),
            all_bb(denominator.coefficients@),
            within_capacity(numerator.coefficients@),
            within_capacity(denominator.coefficients@),
            degree_of(numerator.coefficients@) - degree_of(denominator.coefficients@)
                + denominator.coefficients@.len() <= isize::MAX as int / 16,
        ensures
            r is None <==> degree_of(denominator.coefficients@) == -1,
            r matches Some((q, rem)) ==> divided(
                numerator.coefficients@,
                denominator.coefficients@,
                q.coefficients@,
                rem.coefficients@,
            ),
    {
        let ghost num = numerator.coefficients@;
        let ghost den = denominator.coefficients@;
        let ghost pp = BABY_BEAR_P as int;
        proof {
            lemma_degree_of(num);
            lemma_degree_of(den);
            lemma_degree_values(num);
            lemma_degree_values(den);
        }

        // Division by zero polynomial
        if denominator.degree() == -1 {
            return None;
        }

        // If numerator degree < denominator degree
        if numerator.degree() < denominator.degree() {
            let q = Polynomial::new(vec![]);
            proof {
                assert forall|k: int| #[trigger] coef(values(num), k) == (conv(values(q.coefficients@), values(den), k) + coef(values(num), k)) % pp by {
                    lemma_conv_zero(values(den), values(q.coefficients@), k);
                    if 0 <= k < num.len() {
                        assert(is_bb_element(num[k]));
                    }
                    lemma_small_mod(coef(values(num), k) as nat, pp as nat);
                }
            }
            return Some((
                q,
                numerator.clone(),
            ));
        }

        let ghost dn = degree_of(num);
        let ghost dd = degree_of(den);
        let ghost vden = values(den);
        let ghost big = if num.len() >= dn - dd + den.len() { num.len() as int } else { dn - dd + den.len() };
        let ghost lcd = den[dd].value as int;
        proof {
            assert(is_bb_element(den[dd]));
            assert(is_bb_element(den[0]));
        }

        let field = denominator.coefficients[0].field;

        let mut remainder = numerator.clone();

        let quotient_len =
            (numerator.degree() - denominator.degree() + 1) as usize;

        let mut quotient_coefficients =
            vec![field.zero(); quotient_len];
        let ghost mut started = false;
        proof {
            assert forall|j: int| 0 <= j < quotient_len implies #[trigger] quotient_coefficients@[j] == bb_zero() by {
                assert(vstd::pervasive::cloned(elem(0, field), quotient_coefficients@[j]));
            }
            assert forall|k: int| #[trigger] coef(values(num), k) == (conv(values(quotient_coefficients@), vden, k) + coef(values(remainder.coefficients@), k)) % pp by {
                assert forall|i: int| #[trigger] coef(values(quotient_coefficients@), i) == 0 by {
                    if 0 <= i < quotient_len {
                        assert(quotient_coefficients@[i] == bb_zero());
                    }
                }
                lemma_conv_zero(vden, values(quotient_coefficients@), k);
                if 0 <= k < num.len() {
                    assert(is_bb_element(num[k]));
                }
                lemma_small_mod(coef(values(num), k) as nat, pp as nat);
            }
        }

        while remainder.degree() >= denominator.degree()
            && !remainder.is_zero()
            invariant
                num == numerator.coefficients@,
                den == denominator.coefficients@,
                pp == BABY_BEAR_P,
                vden == values(den),
                all_bb(num),
                all_bb(den),
                within_capacity(num),
                within_capacity(den),
                dn == degree_of(num),
                dd == degree_of(den),
                0 <= dd <= dn,
                dn < num.len(),
                dd < den.len(),
                lcd == den[dd].value,
                0 < lcd < pp,
                big == if num.len() >= dn - dd + den.len() { num.len() as int } else { dn - dd + den.len() },
                big <= isize::MAX as int / 16,
                field == baby_bear(),
                quotient_coefficients.len() == dn - dd + 1,
                all_bb(quotient_coefficients@),
                all_bb(remainder.coefficients@),
                remainder.coefficients@.len() == if started { big } else { num.len() as int },
                !started ==> degree_of(remainder.coefficients@) == dn,
                degree_of(remainder.coefficients@) <= dn,
                forall|j: int| 0 <= j <= degree_of(remainder.coefficients@) - dd ==> #[trigger] quotient_coefficients@[j] == bb_zero(),
                forall|k: int| #[trigger] coef(values(num), k) == (conv(values(quotient_coefficients@), vden, k) + coef(values(remainder.coefficients@), k)) % pp,
            decreases degree_of(remainder.coefficients@) + 1,
        {
            let ghost rem = remainder.coefficients@;
            let ghost dr = degree_of(rem);
            let ghost qc = quotient_coefficients@;
            let ghost lr = rem[dr].value as int;
            proof {
                lemma_degree_of(rem);
                lemma_degree_values(rem);
                assert(is_bb_element(rem[dr]));
                lemma_baby_bear_quotient(lr, lcd);
                assert(0 <= lr * inv_rep(lcd, pp) <= (pp - 1) * (pp - 1)) by (nonlinear_arith)
                    requires 0 <= lr < pp, 0 <= inv_rep(lcd, pp) < pp;
                assert(is_bb_element(den[dd]));
                lemma_degree_values(den);
            }
            let coefficient =
                remainder.leading_coefficient().unwrap()
                / denominator.leading_coefficient().unwrap();
            let ghost c = coefficient.value as int;
            proof {
                assert(c == (lr * inv_rep(lcd, pp)) % pp);
            }

            let shift =
                (remainder.degree() - denominator.degree()) as usize;
            assert(shift == dr - dd);

            // Build monomial: coefficient * x^shift
            let mut monomial_coeffs =
                vec![field.zero(); shift];
            proof {
                assert forall|j: int| 0 <= j < shift implies #[trigger] monomial_coeffs@[j] == bb_zero() by {
                    assert(vstd::pervasive::cloned(elem(0, field), monomial_coeffs@[j]));
                }
            }

            monomial_coeffs.push(coefficient);
            let ghost mono = monomial_coeffs@;
            proof {
                assert(all_bb(mono)) by {
                    assert forall|j: int| 0 <= j < mono.len() implies #[trigger] is_bb_element(mono[j]) by {
                        if j < shift {
                            assert(mono[j] == bb_zero());
                        }
                    }
                }
                assert forall|i: int| #[trigger] coef(values(mono), i) == if i == shift { c } else { 0 } by {
                    if 0 <= i < shift {
                        assert(mono[i] == bb_zero());
                    }
                }
            }

            proof {
                lemma_product_bb(mono, den);
            }
            let subtractee =
                Polynomial::new(monomial_coeffs)
                .mul(&denominator.clone());
            let ghost sub = subtractee.coefficients@;
            proof {
                lemma_multiplied_bb(mono, den);
                lemma_negated_bb(sub);
                lemma_added_bb(rem, negated(sub));
                assert forall|k: int| #[trigger] coef(values(sub), k) == (c * coef(vden, k - shift)) % pp by {
                    lemma_conv_monomial(values(mono), vden, k, shift as int, c);
                }
            }

            quotient_coefficients[shift] = coefficient;

            remainder = remainder.sub(&subtractee);

            proof {
                let rem2 = remainder.coefficients@;
                let qc2 = quotient_coefficients@;
                // the new quotient adds the monomial
                assert forall|i: int| #[trigger] coef(values(qc2), i) == coef(values(qc), i) + coef(values(mono), i) by {
                    if i == shift {
                        assert(qc[i] == bb_zero());
                    }
                }
                assert forall|k: int| #[trigger] coef(values(num), k) == (conv(values(qc2), vden, k) + coef(values(rem2), k)) % pp by {
                    lemma_conv_add_left(values(qc), values(mono), values(qc2), vden, k);
                    lemma_conv_monomial(values(mono), vden, k, shift as int, c);
                    let x = c * coef(vden, k - shift);
                    assert(coef(values(rem2), k) == (coef(values(rem), k) + (pp - x % pp) % pp) % pp);
                    lemma_mod_sub_cancel(conv(values(qc), vden, k), x, coef(values(rem), k), pp);
                }
                // the leading term cancels, so the degree drops
                assert forall|k: int| k >= dr implies #[trigger] coef(values(rem2), k) == 0 by {
                    let x = c * coef(vden, k - shift);
                    if k > dr {
                        assert(coef(vden, k - shift) == 0);
                        assert(x == 0);
                        lemma_small_mod(0, pp as nat);
                        vstd::arithmetic::div_mod::lemma_mod_self_0(pp);
                    } else {
                        assert(coef(vden, k - shift) == lcd);
                        lemma_small_mod((pp - lr) as nat, pp as nat);
                        vstd::arithmetic::div_mod::lemma_mod_self_0(pp);
                    }
                }
                lemma_degree_below(rem2, dr);
                lemma_degree_of(rem2);
                // the subtrahend is not zero, so the sum is taken coefficientwise
                lemma_zero_values(negated(sub));
                assert(coef(values(negated(sub)), dr) != 0) by {
                    assert(coef(vden, dr - shift) == lcd);
                    lemma_small_mod((pp - lr) as nat, pp as nat);
                }
                lemma_zero_values(rem);
                assert(rem2.len() == big);
                assert forall|j: int| 0 <= j <= degree_of(rem2) - dd implies #[trigger] qc2[j] == bb_zero() by {
                    assert(qc[j] == bb_zero());
                }
                assert(all_bb(qc2)) by {
                    assert forall|j: int| 0 <= j < qc2.len() implies #[trigger] is_bb_element(qc2[j]) by {
                        if j != shift {
                            assert(is_bb_element(qc[j]));
                        }
                    }
                }
                started = true;
            }
        }

        let quotient = Polynomial::new(quotient_coefficients);

        Some((quotient, remainder))
    }
}

// Overloaded Operators
//
// Each operator hands its operands to the method of the same name and states
// what comes back in its own `ensures`. The `obeys_*` functions are false: a
// polynomial holds a `Vec`, and two of them with the same coefficients are
// not known to be the same value, so no spec function can name the result.

impl core::ops::Add for Polynomial {
    type Output = Polynomial;

    fn add(self, rhs: Self) -> (r: Polynomial)
        ensures
            r@ == added(self@, rhs@),
    {
        Polynomial::add(&self, &rhs)
    }
}

impl AddSpecImpl for Polynomial {
    open spec fn obeys_add_spec() -> bool {
        false
    }

    open spec fn add_req(self, rhs: Polynomial) -> bool {
        within_capacity(self@) && within_capacity(rhs@) && add_ok(self@, rhs@)
    }

    open spec fn add_spec(self, rhs: Polynomial) -> Polynomial {
        choose|r: Polynomial| r@ == added(self@, rhs@)
    }
}

impl core::ops::Sub for Polynomial {
    type Output = Self;

    fn sub(self, rhs: Self) -> (r: Self)
        ensures
            r@ == added(self@, negated(rhs@)),
    {
        Polynomial::sub(&self, &rhs)
    }
}

impl SubSpecImpl for Polynomial {
    open spec fn obeys_sub_spec() -> bool {
        false
    }

    open spec fn sub_req(self, rhs: Polynomial) -> bool {
        &&& within_capacity(self@)
        &&& within_capacity(rhs@)
        &&& negate_ok(rhs@)
        &&& add_ok(self@, negated(rhs@))
    }

    open spec fn sub_spec(self, rhs: Polynomial) -> Polynomial {
        choose|r: Polynomial| r@ == added(self@, negated(rhs@))
    }
}

impl core::ops::Mul for Polynomial {
    type Output = Self;

    fn mul(self, rhs: Self) -> (r: Self)
        ensures
            r@ == product_coefficients(self@, rhs@),
            all_bb(self@) && all_bb(rhs@) ==> r@ == multiplied(self@, rhs@),
    {
        Polynomial::mul(&self, &rhs)
    }
}

impl MulSpecImpl for Polynomial {
    open spec fn obeys_mul_spec() -> bool {
        false
    }

    open spec fn mul_req(self, rhs: Polynomial) -> bool {
        &&& mul_ok(self@, rhs@)
        &&& within_capacity(self@)
        &&& within_capacity(rhs@)
        &&& within_capacity(product_coefficients(self@, rhs@))
    }

    open spec fn mul_spec(self, rhs: Polynomial) -> Polynomial {
        choose|r: Polynomial| r@ == product_coefficients(self@, rhs@)
    }
}

/// Dividing `n` by `d` neither panics nor overflows.
pub open spec fn divide_ok(n: Seq<FieldElement>, d: Seq<FieldElement>) -> bool {
    &&& all_bb(n)
    &&& all_bb(d)
    &&& within_capacity(n)
    &&& within_capacity(d)
    &&& degree_of(n) - degree_of(d) + d.len() <= isize::MAX as int / 16
}

/// `q` is the quotient of some long division of `n` by `d`.
pub open spec fn is_quotient(n: Seq<FieldElement>, d: Seq<FieldElement>, q: Seq<FieldElement>) -> bool {
    exists|r: Seq<FieldElement>| #[trigger] divided(n, d, q, r)
}

/// `r` is the remainder of some long division of `n` by `d`.
pub open spec fn is_remainder(n: Seq<FieldElement>, d: Seq<FieldElement>, r: Seq<FieldElement>) -> bool {
    exists|q: Seq<FieldElement>| #[trigger] divided(n, d, q, r)
}

/// `d` divides `n` exactly: every long division of `n` by `d` leaves no remainder.
pub open spec fn divides_exactly(d: Seq<FieldElement>, n: Seq<FieldElement>) -> bool {
    forall|q: Seq<FieldElement>, r: Seq<FieldElement>| #[trigger] divided(n, d, q, r) ==> degree_of(r) == -1
}

impl core::ops::Div for Polynomial {
    type Output = Polynomial;

    /// Exact division: the quotient, for a divisor that leaves no remainder.
    fn div(self, other: Polynomial) -> (r: Polynomial)
        ensures
            exists|rem: Seq<FieldElement>| #[trigger] divided(self@, other@, r@, rem) && degree_of(rem) == -1,
    {
        let (quo, rem) =
            Polynomial::divide(&self, &other)
            .expect("Polynomial division by zero");

        // The remainder is zero: `divides_exactly` holds.
        proof {
            assert(divided(self@, other@, quo@, rem@));
        }

        quo
    }
}

impl DivSpecImpl for Polynomial {
    open spec fn obeys_div_spec() -> bool {
        false
    }

    open spec fn div_req(self, rhs: Polynomial) -> bool {
        &&& divide_ok(self@, rhs@)
        &&& degree_of(rhs@) != -1
        &&& divides_exactly(rhs@, self@)
    }

    open spec fn div_spec(self, rhs: Polynomial) -> Polynomial {
        choose|q: Polynomial| #[trigger] is_quotient(self@, rhs@, q@)
    }
}

impl core::ops::Rem for Polynomial {
    type Output = Polynomial;

    /// The remainder of long division.
    fn rem(self, other: Polynomial) -> (r: Polynomial)
        ensures
            exists|q: Seq<FieldElement>| #[trigger] divided(self@, other@, q, r@),
    {
        let (quotient, rem) =
            Polynomial::divide(&self, &other)
            .expect("Polynomial division by zero");
        proof {
            assert(divided(self@, other@, quotient@, rem@));
        }

        rem
    }
}

impl RemSpecImpl for Polynomial {
    open spec fn obeys_rem_spec() -> bool {
        false
    }

    open spec fn rem_req(self, rhs: Polynomial) -> bool {
        divide_ok(self@, rhs@) && degree_of(rhs@) != -1
    }

    open spec fn rem_spec(self, rhs: Polynomial) -> Polynomial {
        choose|r: Polynomial| #[trigger] is_remainder(self@, rhs@, r@)
    }
}

/// Square-and-multiply over the bits of `e`, from the low one: `acc` is
/// multiplied by `base` where a bit is set, and `base` squared at every bit.
pub open spec fn squared_power(acc: Seq<FieldElement>, base: Seq<FieldElement>, e: nat) -> Seq<FieldElement>
    decreases e,
{
    if e == 0 {
        acc
    } else {
        squared_power(
            if e % 2 == 1 { product_coefficients(acc, base) } else { acc },
            product_coefficients(base, base),
            e / 2,
        )
    }
}

/// Every multiplication that `squared_power(acc, base, e)` makes neither
/// panics nor runs past the capacity of a vector.
pub open spec fn squaring_ok(acc: Seq<FieldElement>, base: Seq<FieldElement>, e: nat) -> bool
    decreases e,
{
    e == 0 || {
        &&& within_capacity(acc)
        &&& within_capacity(base)
        &&& e % 2 == 1 ==> mul_ok(acc, base) && within_capacity(product_coefficients(acc, base))
        &&& mul_ok(base, base)
        &&& within_capacity(product_coefficients(base, base))
        &&& squaring_ok(
            if e % 2 == 1 { product_coefficients(acc, base) } else { acc },
            product_coefficients(base, base),
            e / 2,
        )
    }
}

/// The constant one in the field of the first coefficient of `s`.
pub open spec fn one_like(s: Seq<FieldElement>) -> Seq<FieldElement> {
    seq![elem(1, s[0].field)]
}

/// Raising `s` to the power `exponent` neither panics nor runs past the
/// capacity of a vector.
pub open spec fn power_req(s: Seq<FieldElement>, exponent: int) -> bool {
    &&& exponent >= 0
    &&& within_capacity(s)
    &&& exponent == 0 ==> s.len() > 0
    &&& exponent > 0 && degree_of(s) != -1 ==> squaring_ok(one_like(s), s, exponent as nat)
}

/// A bound on canonical Baby Bear polynomials under which raising `s` to the
/// power `exponent` can be done.
pub open spec fn power_fits(s: Seq<FieldElement>, exponent: int) -> bool {
    &&& exponent >= 0
    &&& all_bb(s)
    &&& within_capacity(s)
    &&& exponent == 0 ==> s.len() > 0
    &&& (s.len() - 1) * 2 * exponent + 1 <= isize::MAX as int / 16
}

/// Square-and-multiply on canonical Baby Bear powers of `s` computes the
/// power, and can be done within the bound of `power_fits`.
proof fn lemma_squaring_bb(s: Seq<FieldElement>, done: nat, step: nat, exp: nat)
    requires
        all_bb(s),
        s.len() >= 1,
        step >= 1,
        done < step,
        (s.len() - 1) * 2 * (done + exp * step) + 1 <= isize::MAX as int / 16,
    ensures
        squaring_ok(power_of(s, done), power_of(s, step), exp),
        squared_power(power_of(s, done), power_of(s, step), exp) == power_of(s, done + exp * step),
    decreases exp,
{
    if exp == 0 {
        assert(done + exp * step == done) by (nonlinear_arith) requires exp == 0;
    } else {
        let exponent = done + exp * step;
        lemma_power_bb(s, done);
        lemma_power_bb(s, step);
        lemma_power_bb(s, done + step);
        lemma_power_bb(s, 2 * step);
        lemma_product_bb(power_of(s, done), power_of(s, step));
        lemma_product_bb(power_of(s, step), power_of(s, step));
        law_power_add(s, done, step);
        law_power_add(s, step, step);
        assert(step <= exponent) by (nonlinear_arith)
            requires exponent == done + exp * step, exp >= 1, done >= 0, step >= 1;
        assert((s.len() - 1) * (done + step) <= (s.len() - 1) * 2 * exponent
            && (s.len() - 1) * (2 * step) <= (s.len() - 1) * 2 * exponent
            && (s.len() - 1) * done <= (s.len() - 1) * 2 * exponent
            && (s.len() - 1) * step <= (s.len() - 1) * 2 * exponent) by (nonlinear_arith)
            requires step <= exponent, done < step, done >= 0, s.len() >= 1;
        let done2: nat = if exp % 2 == 1 { done + step } else { done };
        let step2: nat = 2 * step;
        assert(exponent == done2 + (exp / 2) * step2) by (nonlinear_arith)
            requires
                exponent == done + exp * step,
                exp == 2 * (exp / 2) + exp % 2,
                done2 == done + (exp % 2) * step,
                step2 == 2 * step,
        ;
        assert(step + step == 2 * step);
        lemma_squaring_bb(s, done2, step2, exp / 2);
    }
}

/// The bound of `power_fits` on canonical Baby Bear polynomials lets `^`
/// raise `s` to the power `exponent`, and the result is `power_of`.
pub proof fn lemma_power_fits(s: Seq<FieldElement>, exponent: int)
    requires
        power_fits(s, exponent),
        s.len() > 0,
    ensures
        power_req(s, exponent),
        one_like(s) == one_coefficients(),
        squared_power(one_like(s), s, exponent as nat) == power_of(s, exponent as nat),
{
    assert(is_bb_element(s[0]));
    assert(one_like(s) == one_coefficients());
    law_mul_one(s);
    assert(power_of(s, 1) == multiplied(power_of(s, 0), s));
    assert(0 + exponent * 1 == exponent);
    lemma_squaring_bb(s, 0, 1, exponent as nat);
}

/// The bits of a nonnegative exponent: the low one, and the rest.
proof fn lemma_low_bit(e: i64)
    requires
        e >= 0,
    ensures
        (e & 1 == 1) == (e % 2 == 1),
        e >> 1u32 == e / 2,
{
    assert((e & 1 == 1) == (e % 2 == 1)) by (bit_vector)
        requires e >= 0;
    assert(e >> 1u32 == e / 2) by (bit_vector)
        requires e >= 0;
}

/// `p ^ n` raises `p` to the power `n` by square-and-multiply, with the
/// arithmetic of `mul`: starting from the one of the field of the first
/// coefficient, multiplying by the base at each set bit and squaring the
/// base at every bit.
impl core::ops::BitXor<i64> for Polynomial {
    type Output = Polynomial;

    fn bitxor(self, exponent: i64) -> (r: Polynomial)
        ensures
            exponent == 0 ==> r@ == one_like(self@),
            exponent > 0 && degree_of(self@) == -1 ==> r@ == Seq::<FieldElement>::empty(),
            exponent > 0 && degree_of(self@) != -1 ==> r@ == squared_power(one_like(self@), self@, exponent as nat),
            power_fits(self@, exponent as int) && self@.len() > 0 ==> {
                &&& exponent == 0 ==> r@ == one_coefficients()
                &&& exponent > 0 && degree_of(self@) != -1 ==> r@ == power_of(self@, exponent as nat)
            },
    {
        let ghost s = self@;
        proof {
            if power_fits(s, exponent as int) && s.len() > 0 {
                lemma_power_fits(s, exponent as int);
            }
        }

        // x^0 = 1
        if exponent == 0 {
            return Polynomial::new(vec![
                self.coefficients[0].field.one()
            ]);
        }

        // 0^n = 0 for n > 0
        if self.is_zero() {
            return Polynomial::new(vec![]);
        }

        proof {
            lemma_degree_of(s);
        }
        let field = self.coefficients[0].field;

        // acc = 1
        let mut acc = Polynomial::new(vec![field.one()]);
        proof {
            assert(acc@ =~= one_like(s));
        }

        // Copy exponent since we'll mutate it
        let mut exp = exponent;

        // Copy base polynomial
        let mut base = self.clone();

        // Standard binary exponentiation
        while exp > 0
            invariant
                s == self@,
                exponent > 0,
                exp >= 0,
                squaring_ok(acc@, base@, exp as nat),
                squared_power(acc@, base@, exp as nat) == squared_power(one_like(s), s, exponent as nat),
            decreases exp,
        {
            proof {
                lemma_low_bit(exp);
            }

            // If current bit is set
            if exp & 1 == 1 {
                acc = acc * base.clone();
            }

            // Square base
            base = base.clone() * base;

            // Shift exponent right
            exp >>= 1;
        }

        acc
    }
}

impl BitXorSpecImpl<i64> for Polynomial {
    open spec fn obeys_bitxor_spec() -> bool {
        false
    }

    open spec fn bitxor_req(self, exponent: i64) -> bool {
        power_req(self@, exponent as int)
    }

    open spec fn bitxor_spec(self, exponent: i64) -> Polynomial {
        choose|r: Polynomial| r@ == if exponent > 0 && degree_of(self@) == -1 {
            Seq::<FieldElement>::empty()
        } else {
            squared_power(one_like(self@), self@, exponent as nat)
        }
    }
}

} // verus!

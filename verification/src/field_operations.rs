//! Arithmetic in the prime field of integers modulo `p`, and the extended
//! Euclidean algorithm that its inverses rest on.
use vstd::prelude::*;
use vstd::arithmetic::power::{pow, lemma_pow0, lemma_pow1, lemma_pow_adds, lemma_pow_multiplies, lemma_pow_mod_noop, lemma_pow_positive};
use vstd::arithmetic::div_mod::{lemma_mod_bound, lemma_fundamental_div_mod, lemma_add_mod_noop, lemma_mod_pos_bound, lemma_mod_self_0, lemma_mod_twice, lemma_mod_multiples_vanish, lemma_mul_mod_noop_left, lemma_mul_mod_noop_right, lemma_small_mod};
use vstd::arithmetic::mul::lemma_mul_is_commutative;
use vstd::std_specs::ops::{AddSpecImpl, SubSpecImpl, MulSpecImpl, DivSpecImpl, NegSpecImpl, BitXorSpecImpl};
use crate::number_theory::{lemma_pow_nonnegative, is_prime, lemma_coprime_below_prime, abs, alternating, ext_gcd, gcd, lemma_ext_gcd, lemma_tdiv_trem, lemma_trem, lemma_trem_mul, lemma_xgcd_coeff_step, tdiv, trem};

verus! {

/// The Baby Bear prime, `15 * 2^27 + 1`.
pub const BABY_BEAR_P: i64 = 0x78000001;

pub open spec fn max(a: int, b: int) -> int {
    if a >= b { a } else { b }
}

pub open spec fn is_i64(a: int) -> bool {
    i64::MIN <= a <= i64::MAX
}

/// `a % m` on `i64` neither panics nor overflows.
pub open spec fn rem_ok(a: int, m: int) -> bool {
    &&& is_i64(a)
    &&& m != 0
    &&& !(a == i64::MIN && m == -1)
}

pub fn xgcd(x: i64, y: i64) -> (r: (i64, i64, i64))
    requires
        x != i64::MIN,
        y != i64::MIN,
    ensures
        r.0 == ext_gcd(x as int, y as int).0,
        r.1 == ext_gcd(x as int, y as int).1,
        r.2 == ext_gcd(x as int, y as int).2,
        r.0 * x + r.1 * y == r.2,
        abs(r.2 as int) == gcd(abs(x as int) as nat, abs(y as int) as nat),
        x >= 0 && y >= 0 ==> r.2 >= 0,
        abs(r.0 as int) <= max(abs(y as int), 1),
        abs(r.1 as int) <= max(abs(x as int), 1),
{
    let (mut old_r, mut r): (i64, i64) = (x, y);
    let (mut old_s, mut s): (i64, i64) = (1, 0);
    let (mut old_t, mut t): (i64, i64) = (0, 1);

    proof {
        assert(abs(0) * abs(x as int) + abs(1) * abs(y as int) == abs(y as int)) by (nonlinear_arith);
        assert(abs(1) * abs(x as int) + abs(0) * abs(y as int) == abs(x as int)) by (nonlinear_arith);
    }
    while r != 0
        invariant
            x != i64::MIN,
            y != i64::MIN,
            old_r != i64::MIN,
            r != i64::MIN,
            abs(s as int) * abs(old_r as int) + abs(old_s as int) * abs(r as int) == abs(y as int),
            abs(t as int) * abs(old_r as int) + abs(old_t as int) * abs(r as int) == abs(x as int),
            abs(old_s as int) <= max(abs(y as int), 1),
            abs(s as int) <= max(abs(y as int), 1),
            abs(old_t as int) <= max(abs(x as int), 1),
            abs(t as int) <= max(abs(x as int), 1),
            alternating(old_s as int, s as int, old_r as int, r as int),
            alternating(old_t as int, t as int, old_r as int, r as int),
            ({
                let e = ext_gcd(old_r as int, r as int);
                ext_gcd(x as int, y as int) == (
                    e.0 * old_s + e.1 * s,
                    e.0 * old_t + e.1 * t,
                    e.2,
                )
            }),
        decreases abs(r as int),
    {
        proof {
            lemma_tdiv_trem(old_r as int, r as int);
            lemma_xgcd_coeff_step(old_r as int, r as int, old_s as int, s as int, abs(y as int));
            lemma_xgcd_coeff_step(old_r as int, r as int, old_t as int, t as int, abs(x as int));
        }
        let quotient = old_r / r;
        assert(quotient == tdiv(old_r as int, r as int));
        assert(abs(quotient * s) <= abs(old_s - quotient * s) <= abs(y as int));
        assert(abs(quotient * t) <= abs(old_t - quotient * t) <= abs(x as int));
        let ghost e2 = ext_gcd(r as int, trem(old_r as int, r as int));

        // Store old values before updating
        let (next_old_r, next_r) = (r, old_r - quotient * r);
        let (next_old_s, next_s) = (s, old_s - quotient * s);
        let (next_old_t, next_t) = (t, old_t - quotient * t);

        proof {
            let q = quotient as int;
            assert(e2.0 * s + e2.1 * (old_s - q * s) == e2.1 * old_s + (e2.0 - q * e2.1) * s)
                by (nonlinear_arith);
            assert(e2.0 * t + e2.1 * (old_t - q * t) == e2.1 * old_t + (e2.0 - q * e2.1) * t)
                by (nonlinear_arith);
        }

        old_r = next_old_r;
        r = next_r;
        old_s = next_old_s;
        s = next_s;
        old_t = next_old_t;
        t = next_t;
    }
    proof {
        lemma_ext_gcd(x as int, y as int);
        assert(1 * old_s + 0 * s == old_s && 1 * old_t + 0 * t == old_t) by (nonlinear_arith);
    }
    (old_s, old_t, old_r)
}

/// No number from 2 to 44870 divides the Baby Bear prime with a cofactor
/// below `2^32` (checked on the bits).
#[verifier::rlimit(100)]
proof fn lemma_baby_bear_no_small_factor(a: u64, b: u64)
    ensures
        2 <= a <= 44870 && b <= 0xffff_ffff ==> a * b != 2013265921,
{
    assert(2 <= a <= 44870 && b <= 0xffff_ffff ==> a * b != 2013265921u64) by (bit_vector);
}

/// The Baby Bear modulus is prime: a factorization would have a factor no
/// larger than its square root, below 44871.
pub proof fn lemma_baby_bear_prime()
    ensures
        is_prime(BABY_BEAR_P as int),
{
    let pp = BABY_BEAR_P as int;
    assert forall|d: int| 1 < d < pp implies #[trigger] (pp % d) != 0 by {
        if pp % d == 0 {
            lemma_fundamental_div_mod(pp, d);
            let e = pp / d;
            assert(d * e == pp);
            assert(e > 1) by (nonlinear_arith)
                requires d * e == pp, 1 < d < pp, pp == 2013265921;
            assert(e <= pp) by (nonlinear_arith)
                requires d * e == pp, 1 < d, pp == 2013265921;
            if d <= 44870 {
                lemma_baby_bear_no_small_factor(d as u64, e as u64);
            } else {
                assert(e < 44870) by (nonlinear_arith)
                    requires d * e == pp, d > 44870, pp == 2013265921;
                assert(d <= 0xffff_ffff);
                lemma_baby_bear_no_small_factor(e as u64, d as u64);
                assert(e * d == d * e) by (nonlinear_arith);
            }
        }
    }
}

/// `inverse_ok` holds for every positive modulus up to half the `i64`
/// range (and every operand but the least `i64`), and the inverse's
/// representative is then canonical.
pub proof fn lemma_inverse_ok(v: int, p: int)
    requires
        i64::MIN < v <= i64::MAX,
        0 < p,
        2 * p - 1 <= i64::MAX,
    ensures
        inverse_ok(v, p),
        0 <= inv_rep(v, p) < p,
{
    lemma_trem(ext_gcd(v, p).0, p);
    lemma_trem(trem(ext_gcd(v, p).0, p) + p, p);
}

/// Every nonzero element of the Baby Bear field has an inverse, and division
/// by it undoes multiplication: `((l * r^-1) % p) * r % p == l`.
pub proof fn lemma_baby_bear_quotient(l: int, r: int)
    requires
        0 <= l < BABY_BEAR_P,
        0 < r < BABY_BEAR_P,
    ensures
        inverse_ok(r, BABY_BEAR_P as int),
        0 <= inv_rep(r, BABY_BEAR_P as int) < BABY_BEAR_P,
        (r * inv_rep(r, BABY_BEAR_P as int)) % (BABY_BEAR_P as int) == 1,
        0 <= (l * inv_rep(r, BABY_BEAR_P as int)) % (BABY_BEAR_P as int) < BABY_BEAR_P,
        ((l * inv_rep(r, BABY_BEAR_P as int)) % (BABY_BEAR_P as int)) * r % (BABY_BEAR_P as int) == l,
        l != 0 ==> (l * inv_rep(r, BABY_BEAR_P as int)) % (BABY_BEAR_P as int) != 0,
{
    let pp = BABY_BEAR_P as int;
    lemma_inverse_ok(r, pp);
    lemma_baby_bear_prime();
    lemma_coprime_below_prime(r, pp);
    lemma_inv_rep(r, pp);
    let inv = inv_rep(r, pp);
    lemma_small_mod(1, pp as nat);
    let c = (l * inv) % pp;
    lemma_mod_bound(l * inv, pp);
    // c * r ≡ l * inv * r ≡ l * (r * inv) ≡ l (mod p)
    lemma_mul_mod_noop_left(l * inv, r, pp);
    assert((l * inv) * r == l * (r * inv)) by (nonlinear_arith);
    lemma_mul_mod_noop_right(l, r * inv, pp);
    lemma_small_mod(l as nat, pp as nat);
    if l != 0 && c == 0 {
        assert(c * r == 0) by (nonlinear_arith)
            requires c == 0;
        lemma_small_mod(0, pp as nat);
    }
}

/// A prime field, given by its modulus.
#[derive(Debug, Clone, Copy, PartialEq, Eq, Structural)]
pub struct Field {
    pub p: i64,
}

/// An element of a field: a representative and the field it belongs to.
#[derive(Debug, Clone, Copy, PartialEq, Eq, Structural)]
pub struct FieldElement {
    pub value: i64,
    pub field: Field,
}

/// The element of `field` whose representative is `value`.
pub open spec fn elem(value: int, field: Field) -> FieldElement {
    FieldElement { value: value as i64, field }
}

/// The element is the least nonnegative representative of its residue.
pub open spec fn is_canonical(e: FieldElement) -> bool {
    0 <= e.value < e.field.p
}

/// The modulus is at least 2 and any two canonical elements multiply
/// without overflow.
pub open spec fn products_fit(f: Field) -> bool {
    1 < f.p && (f.p - 1) * (f.p - 1) <= i64::MAX
}

/// The representative that inversion gives to `v` modulo `p`: the Bezout
/// coefficient of `v` against `p`, brought into `[0, |p|)` when `p > 0`.
pub open spec fn inv_rep(v: int, p: int) -> int {
    trem(trem(ext_gcd(v, p).0, p) + p, p)
}

/// Inverting `v` modulo `p` neither panics nor overflows.
pub open spec fn inverse_ok(v: int, p: int) -> bool {
    &&& v != i64::MIN
    &&& p != i64::MIN
    &&& p != 0
    &&& is_i64(trem(ext_gcd(v, p).0, p) + p)
}

/// Step `i` of raising `e` by square-and-multiply over the bits `ue`, read
/// from the top: with `a` the running value `e^(ue >> (i + 1))`, reduced,
/// the square `a * a` fits in `i64`, and so does the reduced square times
/// the representative of `e` when bit `i` is set.
pub open spec fn power_step_ok(e: FieldElement, ue: u64, i: u32) -> bool {
    let p = e.field.p as int;
    let a = trem(pow(e.value as int, (ue >> (i + 1)) as nat), p);
    &&& is_i64(a * a)
    &&& ((ue >> i) & 1 == 1 ==> is_i64(trem(a * a, p) * e.value))
}

/// Raising `e` to the power `exponent` by squaring neither panics nor
/// overflows.
pub open spec fn power_ok(e: FieldElement, exponent: i64) -> bool {
    &&& e.field.p != 0
    &&& forall|i: u32| i < 64 ==> #[trigger] power_step_ok(e, exponent as u64, i)
}

/// The modulus and the representative are small enough that raising `e` to
/// any power fits in `i64`.
pub open spec fn power_bounded(e: FieldElement) -> bool {
    let m = abs(e.field.p as int);
    &&& e.field.p != 0
    &&& (m - 1) * (m - 1) <= i64::MAX
    &&& (m - 1) * abs(e.value as int) <= i64::MAX
}

/// Small enough operands can be raised to any power.
pub proof fn lemma_power_bounded(e: FieldElement, exponent: i64)
    requires
        power_bounded(e),
    ensures
        power_ok(e, exponent),
{
    let p = e.field.p as int;
    let m = abs(p);
    assert forall|i: u32| i < 64 implies #[trigger] power_step_ok(e, exponent as u64, i) by {
        let a = trem(pow(e.value as int, ((exponent as u64) >> (i + 1)) as nat), p);
        lemma_trem(pow(e.value as int, ((exponent as u64) >> (i + 1)) as nat), p);
        assert(0 <= a * a <= (m - 1) * (m - 1)) by (nonlinear_arith)
            requires abs(a) < m;
        lemma_trem(a * a, p);
        let b = trem(a * a, p);
        assert(abs(b * e.value) <= (m - 1) * abs(e.value as int)) by (nonlinear_arith)
            requires abs(b) < m, m >= 1;
    }
}

/// The bytes read as one big-endian number.
pub open spec fn be_value(bytes: Seq<u8>) -> nat
    decreases bytes.len(),
{
    if bytes.len() == 0 {
        0
    } else {
        (be_value(bytes.drop_last()) * 256 + bytes.last()) as nat
    }
}

/// The low 64 bits of `be_value(bytes)`, read as a two's-complement `i64`.
pub open spec fn be_wrapped(bytes: Seq<u8>) -> int {
    let u = (be_value(bytes) as int) % 0x1_0000_0000_0000_0000;
    if u < 0x8000_0000_0000_0000 {
        u
    } else {
        u - 0x1_0000_0000_0000_0000
    }
}

/// The representative that `Field::sample` gives to `bytes` modulo `p`.
pub open spec fn sample_rep(bytes: Seq<u8>, p: int) -> int {
    let v = trem(be_wrapped(bytes), p);
    if v < 0 {
        v + p
    } else {
        v
    }
}

/// Sampling `bytes` modulo `p` neither panics nor overflows.
pub open spec fn sample_ok(bytes: Seq<u8>, p: int) -> bool {
    &&& rem_ok(be_wrapped(bytes), p)
    &&& trem(be_wrapped(bytes), p) < 0 ==> is_i64(trem(be_wrapped(bytes), p) + p)
}

impl Field {
    /// `left + right`, computed in this field.
    pub open spec fn sum(self, left: FieldElement, right: FieldElement) -> FieldElement {
        elem(trem(left.value + right.value, self.p as int), self)
    }

    /// `left - right`, computed in this field.
    pub open spec fn difference(self, left: FieldElement, right: FieldElement) -> FieldElement {
        elem(trem(self.p + left.value - right.value, self.p as int), self)
    }

    /// `left * right`, computed in this field.
    pub open spec fn product(self, left: FieldElement, right: FieldElement) -> FieldElement {
        elem(trem(left.value * right.value, self.p as int), self)
    }

    /// `-e`, computed in this field.
    pub open spec fn negation(self, e: FieldElement) -> FieldElement {
        elem(trem(self.p - e.value, self.p as int), self)
    }

    /// The inverse of `e` in this field.
    pub open spec fn inverse_of(self, e: FieldElement) -> FieldElement {
        elem(inv_rep(e.value as int, self.p as int), self)
    }

    /// `left / right`, computed in this field.
    pub open spec fn quotient(self, left: FieldElement, right: FieldElement) -> FieldElement {
        elem(trem(left.value * inv_rep(right.value as int, self.p as int), self.p as int), self)
    }
}

impl FieldElement {
    /// `self` raised to the power `n`, in its own field.
    pub open spec fn power(self, n: nat) -> FieldElement {
        elem(trem(pow(self.value as int, n), self.field.p as int), self.field)
    }
}

impl FieldElement {
    pub fn new(value: i64, field: Field) -> (r: FieldElement)
        ensures
            r.value == value,
            r.field == field,
    {
        FieldElement { value, field }
    }

    /// The representative in decimal, as `Display` writes an `i64`.
    pub fn to_string(&self) -> (r: String)
        ensures
            vstd::string::to_string_from_display_ensures::<i64>(&self.value, r),
    {
        self.value.to_string()
    }

    pub fn is_zero(&self) -> (r: bool)
        ensures
            r == (self.value == 0),
    {
        self.value == 0
    }

    pub fn inverse(&self) -> (r: FieldElement)
        requires
            inverse_ok(self.value as int, self.field.p as int),
        ensures
            r == self.field.inverse_of(*self),
            is_canonical(*self) && gcd(self.value as nat, self.field.p as nat) == 1 ==> {
                &&& is_canonical(r)
                &&& (self.value * r.value) % (self.field.p as int) == 1int % (self.field.p as int)
            },
    {
        self.field.inverse(self)
    }
}

impl Field {
    pub fn new(p: i64) -> (r: Field)
        ensures
            r.p == p,
    {
        Field { p }
    }

    pub fn zero(&self) -> (r: FieldElement)
        ensures
            r == elem(0, *self),
    {
        FieldElement::new(0, *self)
    }

    pub fn one(&self) -> (r: FieldElement)
        ensures
            r == elem(1, *self),
    {
        FieldElement::new(1, *self)
    }

    pub fn multiply(&self, left: &FieldElement, right: &FieldElement) -> (r: FieldElement)
        requires
            rem_ok(left.value * right.value, self.p as int),
        ensures
            r == self.product(*left, *right),
    {
        proof {
            lemma_trem(left.value * right.value, self.p as int);
        }
        FieldElement::new((left.value * right.value) % self.p, *self)
    }

    pub fn add(&self, left: &FieldElement, right: &FieldElement) -> (r: FieldElement)
        requires
            rem_ok(left.value + right.value, self.p as int),
        ensures
            r == self.sum(*left, *right),
    {
        proof {
            lemma_trem(left.value + right.value, self.p as int);
        }
        FieldElement::new((left.value + right.value) % self.p, *self)
    }

    pub fn subtract(&self, left: &FieldElement, right: &FieldElement) -> (r: FieldElement)
        requires
            is_i64(self.p + left.value),
            rem_ok(self.p + left.value - right.value, self.p as int),
        ensures
            r == self.difference(*left, *right),
    {
        proof {
            lemma_trem(self.p + left.value - right.value, self.p as int);
        }
        FieldElement::new((self.p + left.value - right.value) % self.p, *self)
    }

    pub fn negate(&self, operand: &FieldElement) -> (r: FieldElement)
        requires
            rem_ok(self.p - operand.value, self.p as int),
        ensures
            r == self.negation(*operand),
    {
        proof {
            lemma_trem(self.p - operand.value, self.p as int);
        }
        FieldElement::new((self.p - operand.value) % self.p, *self)
    }

    /// The inverse of `operand`, through the extended Euclidean algorithm.
    pub fn inverse(&self, operand: &FieldElement) -> (r: FieldElement)
        requires
            inverse_ok(operand.value as int, self.p as int),
        ensures
            r == self.inverse_of(*operand),
            0 <= operand.value < self.p && gcd(operand.value as nat, self.p as nat) == 1 ==> {
                &&& 0 <= r.value < self.p
                &&& (operand.value * r.value) % (self.p as int) == 1int % (self.p as int)
            },
    {
        let a = self.normalized_bezout(operand.value);
        proof {
            if 0 <= operand.value < self.p && gcd(operand.value as nat, self.p as nat) == 1 {
                lemma_inv_rep(operand.value as int, self.p as int);
            }
        }
        FieldElement::new(a, *self)
    }

    /// The Bezout coefficient of `v` against the modulus, brought into the field.
    fn normalized_bezout(&self, v: i64) -> (a: i64)
        requires
            inverse_ok(v as int, self.p as int),
        ensures
            a == inv_rep(v as int, self.p as int),
    {
        let (a, _, _) = xgcd(v, self.p);
        proof {
            lemma_trem(a as int, self.p as int);
        }
        // Ensure a is positive
        let a = ((a % self.p) + self.p) % self.p;
        proof {
            lemma_trem(trem(ext_gcd(v as int, self.p as int).0, self.p as int) + self.p, self.p as int);
        }
        a
    }

    pub fn divide(&self, left: &FieldElement, right: &FieldElement) -> (r: FieldElement)
        requires
            right.value != 0,
            inverse_ok(right.value as int, self.p as int),
            rem_ok(left.value * inv_rep(right.value as int, self.p as int), self.p as int),
        ensures
            r == self.quotient(*left, *right),
            r == self.product(*left, self.inverse_of(*right)),
    {
        let a = self.normalized_bezout(right.value);
        proof {
            lemma_trem(left.value * a, self.p as int);
        }
        FieldElement::new((left.value * a) % self.p, *self)
    }

    /// The generator 31 of the multiplicative group of the Baby Bear field.
    pub fn generator(&self) -> (r: FieldElement)
        requires
            self.p == BABY_BEAR_P,
        ensures
            r == elem(31, *self),
    {
        // 31 is a valid primitive root of BabyBear
        FieldElement::new(31, *self)
    }

    /// A primitive `n`-th root of unity of the Baby Bear field, for `n` a power
    /// of two up to `2^27`: the generator raised to `(p - 1) / n`.
    pub fn primitive_nth_root(&self, n: i64) -> (r: FieldElement)
        requires
            self.p == BABY_BEAR_P,
            0 < n <= 0x800_0000,
            n & ((n - 1) as i64) == 0,
        ensures
            r == elem(31, *self).power(((BABY_BEAR_P - 1) as int / n as int) as nat),
    {
        // p - 1 = 2^27 * 3 * 5, so the largest power-of-two root is 2^27
        let generator = self.generator();
        let e = (self.p - 1) / n;
        proof {
            assert(0 <= e);
            assert(((e as u64) as nat) == e as nat);
            assert(abs(generator.field.p as int) == BABY_BEAR_P);
            assert((BABY_BEAR_P - 1) * (BABY_BEAR_P - 1) <= i64::MAX) by (nonlinear_arith);
            assert((BABY_BEAR_P - 1) * 31 <= i64::MAX) by (nonlinear_arith);
            lemma_power_bounded(generator, e);
        }
        generator ^ e
    }

    /// Reduces a byte string, read as a big-endian number that wraps at
    /// 64 bits, to a field element in `[0, p)`.
    pub fn sample(&self, byte_array: &[u8]) -> (r: FieldElement)
        requires
            sample_ok(byte_array@, self.p as int),
        ensures
            r == elem(sample_rep(byte_array@, self.p as int), *self),
            self.p > 0 ==> 0 <= r.value < self.p,
    {
        let mut acc: i64 = 0;
        let mut k: usize = 0;
        while k < byte_array.len()
            invariant
                k <= byte_array.len(),
                acc == be_wrapped(byte_array@.subrange(0, k as int)),
            decreases byte_array.len() - k,
        {
            let b = byte_array[k];
            proof {
                lemma_be_step(byte_array@.subrange(0, k as int), b, acc);
                assert(byte_array@.subrange(0, k + 1) == byte_array@.subrange(0, k as int).push(b));
            }
            acc = (acc << 8) ^ (b as i64);
            k = k + 1;
        }
        proof {
            assert(byte_array@.subrange(0, k as int) == byte_array@);
            lemma_trem(acc as int, self.p as int);
        }
        // Reduce modulo p and ensure positive
        let value = acc % self.p;
        let value = if value < 0 {
            value + self.p
        } else {
            value
        };

        FieldElement::new(value, *self)
    }
}

/// The normalized Bezout coefficient is the inverse of `v` modulo `p`.
proof fn lemma_inv_rep(v: int, p: int)
    requires
        inverse_ok(v, p),
        0 <= v < p,
        gcd(v as nat, p as nat) == 1,
    ensures
        0 <= inv_rep(v, p) < p,
        (v * inv_rep(v, p)) % p == 1int % p,
{
    lemma_ext_gcd(v, p);
    let e = ext_gcd(v, p);
    let s = e.0;
    lemma_trem(s, p);
    let ts = trem(s, p);
    lemma_trem(ts + p, p);
    let a = inv_rep(v, p);
    assert(e.2 == 1);
    // a ≡ s (mod p)
    lemma_add_mod_noop(ts, p, p);
    lemma_mod_self_0(p);
    lemma_mod_twice(ts, p);
    lemma_mod_twice(s, p);
    assert(a % p == s % p);
    // v * a ≡ v * s ≡ 1 - t * p ≡ 1 (mod p)
    lemma_mul_mod_noop_right(v, a, p);
    lemma_mul_mod_noop_right(v, s, p);
    assert(v * s == 1 - e.1 * p) by (nonlinear_arith)
        requires s * v + e.1 * p == 1;
    lemma_mod_multiples_vanish(-e.1, 1, p);
    assert(p * (-e.1) + 1 == 1 - e.1 * p) by (nonlinear_arith);
    lemma_mul_is_commutative(s, v);
}

/// One byte more: the accumulator shifts left by eight bits and takes the byte.
proof fn lemma_be_step(prefix: Seq<u8>, b: u8, acc: i64)
    requires
        acc == be_wrapped(prefix),
    ensures
        ((acc << 8u64) ^ (b as i64)) == be_wrapped(prefix.push(b)),
{
    let n = be_value(prefix) as int;
    let m: int = 0x1_0000_0000_0000_0000;
    let u = n % m;
    assert(prefix.push(b).drop_last() == prefix);
    assert(be_value(prefix.push(b)) == n * 256 + b);
    lemma_mod_pos_bound(n as int, m);
    // the low 64 bits of n * 256 + b depend on those of n only
    lemma_mul_mod_noop_left(n as int, 256, m);
    lemma_add_mod_noop(n * 256, b as int, m);
    lemma_add_mod_noop(u * 256, b as int, m);
    lemma_mod_pos_bound(b as int, m);
    lemma_small_mod(b as nat, m as nat);
    lemma_mod_twice(n * 256, m);
    assert((n * 256 + b) % m == (u * 256 + b) % m);
    let ua: u64 = acc as u64;
    assert(ua == u) by {
        assert(acc >= 0 ==> (acc as u64) as int == acc as int) by (bit_vector);
        assert(acc < 0 ==> (acc as u64) as int == acc as int + 0x1_0000_0000_0000_0000) by (bit_vector);
    }
    let r: i64 = (acc << 8u64) ^ (b as i64);
    assert((r as u64) as int == ((ua as int) * 256 + b) % 0x1_0000_0000_0000_0000) by (bit_vector)
        requires
            r == (acc << 8u64) ^ (b as i64),
            ua == acc as u64,
    ;
    assert(r >= 0 ==> (r as u64) as int == r as int) by (bit_vector);
    assert(r < 0 ==> (r as u64) as int == r as int + 0x1_0000_0000_0000_0000) by (bit_vector);
    assert(r >= 0 <==> (r as u64) < 0x8000_0000_0000_0000) by (bit_vector);
}
impl core::ops::Add for FieldElement {
    type Output = Self;

    fn add(self, right: Self) -> Self {
        self.field.add(&self, &right)
    }
}

impl AddSpecImpl for FieldElement {
    open spec fn obeys_add_spec() -> bool {
        true
    }

    open spec fn add_req(self, rhs: FieldElement) -> bool {
        rem_ok(self.value + rhs.value, self.field.p as int)
    }

    open spec fn add_spec(self, rhs: FieldElement) -> FieldElement {
        self.field.sum(self, rhs)
    }
}

impl<'a> core::ops::Add<&'a FieldElement> for FieldElement {
    type Output = FieldElement;

    fn add(self, right: &'a FieldElement) -> FieldElement {
        self.field.add(&self, right)
    }
}

impl<'a> AddSpecImpl<&'a FieldElement> for FieldElement {
    open spec fn obeys_add_spec() -> bool {
        true
    }

    open spec fn add_req(self, rhs: &'a FieldElement) -> bool {
        rem_ok(self.value + rhs.value, self.field.p as int)
    }

    open spec fn add_spec(self, rhs: &'a FieldElement) -> FieldElement {
        self.field.sum(self, *rhs)
    }
}

impl core::ops::Sub for FieldElement {
    type Output = Self;

    fn sub(self, right: Self) -> Self {
        self.field.subtract(&self, &right)
    }
}

impl SubSpecImpl for FieldElement {
    open spec fn obeys_sub_spec() -> bool {
        true
    }

    open spec fn sub_req(self, rhs: FieldElement) -> bool {
        &&& is_i64(self.field.p + self.value)
        &&& rem_ok(self.field.p + self.value - rhs.value, self.field.p as int)
    }

    open spec fn sub_spec(self, rhs: FieldElement) -> FieldElement {
        self.field.difference(self, rhs)
    }
}

impl core::ops::Mul for FieldElement {
    type Output = Self;

    fn mul(self, right: Self) -> Self {
        self.field.multiply(&self, &right)
    }
}

impl MulSpecImpl for FieldElement {
    open spec fn obeys_mul_spec() -> bool {
        true
    }

    open spec fn mul_req(self, rhs: FieldElement) -> bool {
        rem_ok(self.value * rhs.value, self.field.p as int)
    }

    open spec fn mul_spec(self, rhs: FieldElement) -> FieldElement {
        self.field.product(self, rhs)
    }
}

impl core::ops::Div for FieldElement {
    type Output = Self;

    fn div(self, right: Self) -> Self {
        self.field.divide(&self, &right)
    }
}

impl DivSpecImpl for FieldElement {
    open spec fn obeys_div_spec() -> bool {
        true
    }

    open spec fn div_req(self, rhs: FieldElement) -> bool {
        &&& rhs.value != 0
        &&& inverse_ok(rhs.value as int, self.field.p as int)
        &&& rem_ok(self.value * inv_rep(rhs.value as int, self.field.p as int), self.field.p as int)
    }

    open spec fn div_spec(self, rhs: FieldElement) -> FieldElement {
        self.field.quotient(self, rhs)
    }
}

impl core::ops::Neg for FieldElement {
    type Output = Self;

    fn neg(self) -> Self {
        self.field.negate(&self)
    }
}

impl NegSpecImpl for FieldElement {
    open spec fn obeys_neg_spec() -> bool {
        true
    }

    open spec fn neg_req(self) -> bool {
        rem_ok(self.field.p - self.value, self.field.p as int)
    }

    open spec fn neg_spec(self) -> FieldElement {
        self.field.negation(self)
    }
}

/// `e ^ n` raises `e` to the power `n` by square-and-multiply over the 64
/// bits of `n`; a negative `n` counts as its two's-complement `u64`.
impl core::ops::BitXor<i64> for FieldElement {
    type Output = Self;

    fn bitxor(self, exponent: i64) -> Self {
        let mut acc = FieldElement::new(1, self.field.clone());
        let val = FieldElement::new(self.value, self.field.clone());
        let ghost ue: u64 = exponent as u64;
        let ghost p: int = self.field.p as int;

        let mut i: u32 = 64;
        while i > 0
            invariant
                i <= 64,
                power_ok(self, exponent),
                p == self.field.p as int,
                ue == exponent as u64,
                val == self,
                acc.field == self.field,
                i < 64 ==> acc.value == trem(pow(self.value as int, (ue >> i) as nat), self.field.p as int),
                i == 64 ==> acc.value == 1,
            decreases i,
        {
            i = i - 1;
            let ghost n: nat = (ue >> (i + 1)) as nat;
            let ghost bit: nat = ((ue >> i) & 1) as nat;
            let ghost a: int = trem(pow(self.value as int, n), p);
            proof {
                lemma_next_bit(ue, i, exponent);
                lemma_pow_adds(self.value as int, n, n);
                lemma_pow_adds(self.value as int, n + n, 1);
                lemma_pow1(self.value as int);
                lemma_pow0(self.value as int);
                lemma_trem_mul(pow(self.value as int, n), pow(self.value as int, n), self.field.p as int);
                lemma_trem_mul(pow(self.value as int, n + n), self.value as int, self.field.p as int);
                lemma_trem(pow(self.value as int, n + n), self.field.p as int);
                lemma_trem(pow(self.value as int, n + n) * self.value, self.field.p as int);
                lemma_trem(1, self.field.p as int);
                assert(power_step_ok(self, ue, i));
                if i + 1 == 64 {
                    assert(ue >> 64u32 == 0) by (bit_vector);
                    assert(n == 0);
                    assert(acc.value * acc.value == 1);
                    // the running value starts at 1, which `trem(1, p)` is unless `|p| == 1`
                    if abs(p) == 1 {
                        assert(a == 0);
                        assert(trem(a * a, p) == 0);
                        assert(trem(1, p) == 0);
                    } else {
                        assert(a == 1);
                    }
                } else {
                    assert(acc.value == a);
                }
                assert(acc.value * acc.value >= 0) by (nonlinear_arith);
                lemma_trem(a * a, p);
                lemma_trem(acc.value * acc.value, p);
            }
            acc = acc * acc;
            if (exponent >> i) & 1 != 0 {
                proof {
                    assert(acc.value == trem(a * a, p));
                    if p == -1 {
                        assert(acc.value == 0);
                        assert(acc.value * val.value == 0) by (nonlinear_arith) requires acc.value == 0;
                    }
                }
                acc = acc * val.clone();
            }
        }
        proof {
            assert(ue >> 0u32 == ue) by (bit_vector);
        }
        acc
    }
}

impl BitXorSpecImpl<i64> for FieldElement {
    open spec fn obeys_bitxor_spec() -> bool {
        true
    }

    open spec fn bitxor_req(self, exponent: i64) -> bool {
        power_ok(self, exponent)
    }

    open spec fn bitxor_spec(self, exponent: i64) -> FieldElement {
        self.power((exponent as u64) as nat)
    }
}

/// The bits of the exponent, read from the top: `ue >> i` is twice
/// `ue >> (i + 1)` plus bit `i`, which `(e >> i) & 1` reads off the signed value.
proof fn lemma_next_bit(ue: u64, i: u32, e: i64)
    requires
        i < 64,
        ue == e as u64,
    ensures
        (ue >> i) as nat == 2 * ((ue >> (i + 1)) as nat) + ((ue >> i) & 1) as nat,
        ((e >> i) & 1 != 0) == ((ue >> i) & 1 == 1),
        (ue >> i) & 1 <= 1,
{
    assert((ue >> i) == 2 * (ue >> (i + 1)) + ((ue >> i) & 1)) by (bit_vector)
        requires i < 64;
    assert(((e >> i) & 1 != 0) == ((ue >> i) & 1 == 1)) by (bit_vector)
        requires i < 64, ue == e as u64;
    assert((ue >> i) & 1 <= 1) by (bit_vector);
}

// Laws of the field

/// Zero is the identity of addition: `a + 0 == a`.
pub proof fn law_add_zero(a: FieldElement)
    requires
        products_fit(a.field),
        is_canonical(a),
    ensures
        a.field.sum(a, elem(0, a.field)) == a,
{
    lemma_small_mod(a.value as nat, a.field.p as nat);
}

/// One is the identity of multiplication: `a * 1 == a`.
pub proof fn law_mul_one(a: FieldElement)
    requires
        products_fit(a.field),
        is_canonical(a),
    ensures
        a.field.product(a, elem(1, a.field)) == a,
{
    assert(a.value * 1 == a.value);
    lemma_small_mod(a.value as nat, a.field.p as nat);
}

/// Negation gives the additive inverse: `a + (-a) == 0`.
pub proof fn law_add_negation(a: FieldElement)
    requires
        products_fit(a.field),
        is_canonical(a),
    ensures
        is_canonical(a.field.negation(a)),
        a.field.sum(a, a.field.negation(a)) == elem(0, a.field),
{
    let p = a.field.p as int;
    lemma_mod_bound(p - a.value, p);
    let n = (p - a.value) % p;
    lemma_mod_self_0(p);
    if a.value == 0 {
        lemma_small_mod(0, p as nat);
    } else {
        lemma_small_mod((p - a.value) as nat, p as nat);
    }
}

/// Subtraction undoes addition: `(a - b) + b == a`.
pub proof fn law_sub_add(a: FieldElement, b: FieldElement)
    requires
        products_fit(a.field),
        is_canonical(a),
        is_canonical(b),
        b.field == a.field,
    ensures
        is_canonical(a.field.difference(a, b)),
        a.field.sum(a.field.difference(a, b), b) == a,
{
    let p = a.field.p as int;
    let d = (p + a.value - b.value) % p;
    lemma_mod_bound(p + a.value - b.value, p);
    lemma_add_mod_noop(p + a.value - b.value, b.value as int, p);
    lemma_mod_twice(b.value as int, p);
    lemma_small_mod(b.value as nat, p as nat);
    lemma_mod_multiples_vanish(1, a.value as int, p);
    lemma_small_mod(a.value as nat, p as nat);
}

/// An element coprime to the modulus times its inverse is one.
pub proof fn law_mul_inverse(a: FieldElement)
    requires
        products_fit(a.field),
        2 * a.field.p - 1 <= i64::MAX,
        is_canonical(a),
        gcd(a.value as nat, a.field.p as nat) == 1,
    ensures
        inverse_ok(a.value as int, a.field.p as int),
        is_canonical(a.field.inverse_of(a)),
        a.field.product(a, a.field.inverse_of(a)) == elem(1, a.field),
{
    let p = a.field.p as int;
    lemma_inverse_ok(a.value as int, p);
    lemma_inv_rep(a.value as int, p);
    lemma_small_mod(1, p as nat);
}

/// In the Baby Bear field every nonzero element has an inverse.
pub proof fn law_baby_bear_invertible(a: FieldElement)
    requires
        a.field.p == BABY_BEAR_P,
        0 < a.value < BABY_BEAR_P,
    ensures
        gcd(a.value as nat, a.field.p as nat) == 1,
        a.field.product(a, a.field.inverse_of(a)) == elem(1, a.field),
{
    lemma_baby_bear_prime();
    lemma_coprime_below_prime(a.value as int, BABY_BEAR_P as int);
    assert((BABY_BEAR_P - 1) * (BABY_BEAR_P - 1) <= i64::MAX) by (nonlinear_arith);
    law_mul_inverse(a);
}

/// Division multiplies by the inverse, so it undoes multiplication:
/// `(a / b) * b == a` for `b` coprime to the modulus.
pub proof fn law_quotient_times_divisor(a: FieldElement, b: FieldElement)
    requires
        products_fit(a.field),
        2 * a.field.p - 1 <= i64::MAX,
        is_canonical(a),
        is_canonical(b),
        b.field == a.field,
        gcd(b.value as nat, a.field.p as nat) == 1,
    ensures
        a.field.product(a.field.quotient(a, b), b) == a,
{
    let p = a.field.p as int;
    lemma_inverse_ok(b.value as int, p);
    lemma_inv_rep(b.value as int, p);
    let inv = inv_rep(b.value as int, p);
    lemma_mod_bound(a.value * inv, p);
    assert(0 <= a.value * inv) by (nonlinear_arith)
        requires 0 <= a.value, 0 <= inv;
    lemma_mul_mod_noop_left(a.value * inv, b.value as int, p);
    assert((a.value * inv) * b.value == a.value * (b.value * inv)) by (nonlinear_arith);
    lemma_mul_mod_noop_right(a.value as int, b.value * inv, p);
    lemma_small_mod(1, p as nat);
    lemma_small_mod(a.value as nat, p as nat);
    assert(0 <= ((a.value * inv) % p) * b.value) by (nonlinear_arith)
        requires 0 <= (a.value * inv) % p, 0 <= b.value;
    assert(a.value * 1 == a.value);
    assert(trem(a.value * inv, p) == (a.value * inv) % p);
    let q = (a.value * inv) % p;
    assert(trem(q * b.value, p) == (q * b.value) % p);
    assert((q * b.value) % p == a.value);
}

/// Squaring `31^e` modulo the Baby Bear prime.
proof fn lemma_generator_square(e: nat, c: int, c2: int)
    requires
        pow(31, e) % (BABY_BEAR_P as int) == c,
        (c * c) % (BABY_BEAR_P as int) == c2,
    ensures
        pow(31, e + e) % (BABY_BEAR_P as int) == c2,
{
    lemma_pow_adds(31, e, e);
    lemma_mul_mod_noop_left(pow(31, e), pow(31, e), BABY_BEAR_P as int);
    lemma_mul_mod_noop_right(c, pow(31, e), BABY_BEAR_P as int);
}

/// 31 has order `p - 1` in the Baby Bear field: `31^((p-1)/2) == -1` and
/// `31^(p-1) == 1`.
pub proof fn law_generator_order()
    ensures
        pow(31, ((BABY_BEAR_P - 1) / 2) as nat) % (BABY_BEAR_P as int) == BABY_BEAR_P - 1,
        pow(31, (BABY_BEAR_P - 1) as nat) % (BABY_BEAR_P as int) == 1,
{
    assert(pow(31, 15) == 23465261991844685929951) by {
        vstd::arithmetic::power::lemma_pow0(31);
        reveal_with_fuel(pow, 16);
    }
    lemma_generator_square(15, 440564289, 975630072);
    lemma_generator_square(30, 975630072, 1149491290);
    lemma_generator_square(60, 1149491290, 1003846038);
    lemma_generator_square(120, 1003846038, 1267047229);
    lemma_generator_square(240, 1267047229, 570250684);
    lemma_generator_square(480, 570250684, 414040701);
    lemma_generator_square(960, 414040701, 195061667);
    lemma_generator_square(1920, 195061667, 1049899240);
    lemma_generator_square(3840, 1049899240, 1559589183);
    lemma_generator_square(7680, 1559589183, 1286330022);
    lemma_generator_square(15360, 1286330022, 1421947380);
    lemma_generator_square(30720, 1421947380, 2009781145);
    lemma_generator_square(61440, 2009781145, 1657000625);
    lemma_generator_square(122880, 1657000625, 298008106);
    lemma_generator_square(245760, 298008106, 1282623253);
    lemma_generator_square(491520, 1282623253, 1340477990);
    lemma_generator_square(983040, 1340477990, 341742893);
    lemma_generator_square(1966080, 341742893, 1753498361);
    lemma_generator_square(3932160, 1753498361, 1732600167);
    lemma_generator_square(7864320, 1732600167, 397765732);
    lemma_generator_square(15728640, 397765732, 1721589904);
    lemma_generator_square(31457280, 1721589904, 760005850);
    lemma_generator_square(62914560, 760005850, 196396260);
    lemma_generator_square(125829120, 196396260, 1592366214);
    lemma_generator_square(251658240, 1592366214, 1728404513);
    lemma_generator_square(503316480, 1728404513, 2013265920);
    lemma_generator_square(1006632960, 2013265920, 1);
}

/// `primitive_nth_root(n)` has order `n`: its `n`-th power is one and, for
/// `n >= 2`, its `(n/2)`-th power is `p - 1`, not one.
pub proof fn law_primitive_root_order(n: i64)
    requires
        0 < n <= 0x800_0000,
        n & ((n - 1) as i64) == 0,
    ensures
        ({
            let f = Field { p: BABY_BEAR_P };
            let root = elem(31, f).power(((BABY_BEAR_P - 1) as int / n as int) as nat);
            &&& root.power(n as nat) == elem(1, f)
            &&& n >= 2 ==> root.power((n / 2) as nat) == elem(BABY_BEAR_P - 1, f)
        }),
{
    let pp = BABY_BEAR_P as int;
    assert(n == 1 || n == 2 || n == 4 || n == 8 || n == 16 || n == 32 || n == 64 || n == 128 || n == 256 || n == 512 || n == 1024 || n == 2048 || n == 4096 || n == 8192 || n == 16384 || n == 32768 || n == 65536 || n == 131072 || n == 262144 || n == 524288 || n == 1048576 || n == 2097152 || n == 4194304 || n == 8388608 || n == 16777216 || n == 33554432 || n == 67108864 || n == 134217728) by (bit_vector)
        requires 0 < n <= 0x800_0000, n & ((n - 1) as i64) == 0;
    let e = (pp - 1) / (n as int);
    assert(e * n == pp - 1);
    if n >= 2 {
        assert(n % 2 == 0);
        assert(e * (n / 2) == (pp - 1) / 2) by (nonlinear_arith)
            requires e * n == pp - 1, n % 2 == 0, n >= 2, pp - 1 == 2013265920;
    }
    law_generator_order();
    lemma_pow_positive(31, e as nat);
    let g = pow(31, e as nat);
    lemma_pow_mod_noop(g, n as nat, pp);
    lemma_pow_multiplies(31, e as nat, n as nat);
    lemma_mod_bound(g, pp);
    if n >= 2 {
        lemma_pow_mod_noop(g, (n / 2) as nat, pp);
        lemma_pow_multiplies(31, e as nat, (n / 2) as nat);
    }
    lemma_pow_nonnegative(g % pp, n as nat);
    lemma_pow_nonnegative(g % pp, (n / 2) as nat);
}

/// The Baby Bear field has no zero divisors.
pub proof fn lemma_baby_bear_no_zero_divisors(a: int, b: int)
    requires
        0 < a < BABY_BEAR_P,
        0 < b < BABY_BEAR_P,
    ensures
        (a * b) % (BABY_BEAR_P as int) != 0,
{
    let pp = BABY_BEAR_P as int;
    lemma_baby_bear_quotient(0, a);
    let inv = inv_rep(a, pp);
    // b == b * (a * inv) == (a * b) * inv (mod p)
    lemma_mul_mod_noop_right(b, a * inv, pp);
    assert(b * (a * inv) == (a * b) * inv) by (nonlinear_arith);
    lemma_mul_mod_noop_left(a * b, inv, pp);
    assert(b * 1 == b);
    lemma_small_mod(b as nat, pp as nat);
    if (a * b) % pp == 0 {
        assert(0 * inv == 0);
        lemma_small_mod(0, pp as nat);
    }
}

} // verus!

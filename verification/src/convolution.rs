//! Coefficient lists as polynomials over the integers: finite sums,
//! the convolution that multiplies two polynomials, and its ring laws.
use vstd::prelude::*;
use vstd::arithmetic::power::{pow, lemma_pow_adds};
use vstd::arithmetic::div_mod::{lemma_add_mod_noop, lemma_mul_mod_noop_left, lemma_mod_twice};
use vstd::arithmetic::mul::{lemma_mul_is_commutative, lemma_mul_is_distributive_add, lemma_mul_is_associative};

verus! {

/// Coefficient `i` of the coefficient list `a`, zero outside the list.
pub open spec fn coef(a: Seq<int>, i: int) -> int {
    if 0 <= i < a.len() {
        a[i]
    } else {
        0
    }
}

/// `f(lo) + f(lo + 1) + ... + f(hi - 1)`.
pub open spec fn sum_range(f: spec_fn(int) -> int, lo: int, hi: int) -> int
    decreases hi - lo,
{
    if hi <= lo {
        0
    } else {
        sum_range(f, lo, hi - 1) + f(hi - 1)
    }
}

/// Coefficient `k` of the product of the polynomials `a` and `b`:
/// `a[0] * b[k] + a[1] * b[k - 1] + ... + a[k] * b[0]`.
pub open spec fn conv(a: Seq<int>, b: Seq<int>, k: int) -> int {
    sum_range(|i: int| coef(a, i) * coef(b, k - i), 0, k + 1)
}

/// The coefficient list of the product of `a` and `b`: one coefficient fewer
/// than the two lists together, or none when either list is empty.
pub open spec fn conv_seq(a: Seq<int>, b: Seq<int>) -> Seq<int> {
    if a.len() == 0 || b.len() == 0 {
        Seq::empty()
    } else {
        Seq::new((a.len() + b.len() - 1) as nat, |k: int| conv(a, b, k))
    }
}

pub proof fn lemma_sum_ext(f: spec_fn(int) -> int, g: spec_fn(int) -> int, lo: int, hi: int)
    requires
        forall|i: int| lo <= i < hi ==> #[trigger] f(i) == g(i),
    ensures
        sum_range(f, lo, hi) == sum_range(g, lo, hi),
    decreases hi - lo,
{
    if hi > lo {
        lemma_sum_ext(f, g, lo, hi - 1);
    }
}

pub proof fn lemma_sum_zero(f: spec_fn(int) -> int, lo: int, hi: int)
    requires
        forall|i: int| lo <= i < hi ==> #[trigger] f(i) == 0,
    ensures
        sum_range(f, lo, hi) == 0,
    decreases hi - lo,
{
    if hi > lo {
        lemma_sum_zero(f, lo, hi - 1);
    }
}

pub proof fn lemma_sum_split(f: spec_fn(int) -> int, lo: int, mid: int, hi: int)
    requires
        lo <= mid <= hi,
    ensures
        sum_range(f, lo, hi) == sum_range(f, lo, mid) + sum_range(f, mid, hi),
    decreases hi - mid,
{
    if hi > mid {
        lemma_sum_split(f, lo, mid, hi - 1);
    }
}

/// Peeling off the first term.
pub proof fn lemma_sum_first(f: spec_fn(int) -> int, lo: int, hi: int)
    requires
        lo < hi,
    ensures
        sum_range(f, lo, hi) == f(lo) + sum_range(f, lo + 1, hi),
{
    lemma_sum_split(f, lo, lo + 1, hi);
    assert(sum_range(f, lo, lo) == 0);
    assert(sum_range(f, lo, lo + 1) == f(lo));
}

pub proof fn lemma_sum_add(f: spec_fn(int) -> int, g: spec_fn(int) -> int, lo: int, hi: int)
    ensures
        sum_range(|i: int| f(i) + g(i), lo, hi) == sum_range(f, lo, hi) + sum_range(g, lo, hi),
    decreases hi - lo,
{
    if hi > lo {
        lemma_sum_add(f, g, lo, hi - 1);
    }
}

pub proof fn lemma_sum_scale(f: spec_fn(int) -> int, c: int, lo: int, hi: int)
    ensures
        sum_range(|i: int| c * f(i), lo, hi) == c * sum_range(f, lo, hi),
    decreases hi - lo,
{
    if hi > lo {
        lemma_sum_scale(f, c, lo, hi - 1);
        lemma_mul_is_distributive_add(c, sum_range(f, lo, hi - 1), f(hi - 1));
    }
}

/// A sum whose terms vanish but at `j` is the term at `j`.
pub proof fn lemma_sum_single(f: spec_fn(int) -> int, lo: int, hi: int, j: int)
    requires
        lo <= j < hi,
        forall|i: int| lo <= i < hi && i != j ==> #[trigger] f(i) == 0,
    ensures
        sum_range(f, lo, hi) == f(j),
{
    lemma_sum_split(f, lo, j, hi);
    lemma_sum_zero(f, lo, j);
    lemma_sum_first(f, j, hi);
    lemma_sum_zero(f, j + 1, hi);
}

/// Summing in the reverse order.
pub proof fn lemma_sum_reflect(f: spec_fn(int) -> int, lo: int, hi: int)
    ensures
        sum_range(f, lo, hi) == sum_range(|i: int| f(lo + hi - 1 - i), lo, hi),
    decreases hi - lo,
{
    let g = |i: int| f(lo + hi - 1 - i);
    if hi > lo {
        // sum f [lo, hi) = sum f [lo, hi-1) + f(hi-1)
        // sum g [lo, hi) = g(lo) + sum g [lo+1, hi), and g(lo) = f(hi-1)
        lemma_sum_first(g, lo, hi);
        lemma_sum_reflect(f, lo, hi - 1);
        let h = |i: int| f(lo + (hi - 1) - 1 - i);
        // g shifted by one is h
        lemma_sum_shift(g, lo + 1, hi, 1);
        lemma_sum_ext(|i: int| g(i + 1), h, lo, hi - 1);
    }
}

/// Shifting the index of a sum.
pub proof fn lemma_sum_shift(f: spec_fn(int) -> int, lo: int, hi: int, d: int)
    ensures
        sum_range(f, lo, hi) == sum_range(|i: int| f(i + d), lo - d, hi - d),
    decreases hi - lo,
{
    if hi > lo {
        lemma_sum_shift(f, lo, hi - 1, d);
    }
}

/// Sums of terms that agree modulo `m` agree modulo `m`.
pub proof fn lemma_sum_mod(f: spec_fn(int) -> int, g: spec_fn(int) -> int, lo: int, hi: int, m: int)
    requires
        m > 0,
        forall|i: int| lo <= i < hi ==> #[trigger] f(i) % m == g(i) % m,
    ensures
        sum_range(f, lo, hi) % m == sum_range(g, lo, hi) % m,
    decreases hi - lo,
{
    if hi > lo {
        lemma_sum_mod(f, g, lo, hi - 1, m);
        lemma_add_mod_noop(sum_range(f, lo, hi - 1), f(hi - 1), m);
        lemma_add_mod_noop(sum_range(g, lo, hi - 1), g(hi - 1), m);
    }
}

/// The value at `x` of the polynomial with coefficients `a`:
/// `a[0] + a[1] * x + ... + a[n - 1] * x^(n - 1)`.
pub open spec fn eval(a: Seq<int>, x: int) -> int {
    sum_range(eval_term(a, x), 0, a.len() as int)
}

/// The term of `eval(a, x)` at index `i`.
pub open spec fn eval_term(a: Seq<int>, x: int) -> spec_fn(int) -> int {
    |i: int| coef(a, i) * pow(x, i as nat)
}

/// The term of `conv(a, b, k)` at index `i`.
pub open spec fn conv_term(a: Seq<int>, b: Seq<int>, k: int) -> spec_fn(int) -> int {
    |i: int| coef(a, i) * coef(b, k - i)
}

/// Multiplication of polynomials is commutative.
pub proof fn lemma_conv_comm(a: Seq<int>, b: Seq<int>, k: int)
    ensures
        conv(a, b, k) == conv(b, a, k),
{
    let f = conv_term(a, b, k);
    let g = conv_term(b, a, k);
    lemma_sum_reflect(f, 0, k + 1);
    assert forall|i: int| 0 <= i < k + 1 implies #[trigger] f(0 + (k + 1) - 1 - i) == g(i) by {
        lemma_mul_is_commutative(coef(a, k - i), coef(b, i));
    }
    lemma_sum_ext(|i: int| f(0 + (k + 1) - 1 - i), g, 0, k + 1);
    lemma_sum_ext(f, |i: int| coef(a, i) * coef(b, k - i), 0, k + 1);
    lemma_sum_ext(g, |i: int| coef(b, i) * coef(a, k - i), 0, k + 1);
}

/// Summing the terms of `conv(a, b, k)` over the rows `[0, n)` of `a` gives
/// `conv(a, b, k)` once the rows cover `a`.
pub proof fn lemma_conv_rows(a: Seq<int>, b: Seq<int>, k: int, n: int)
    requires
        n >= a.len(),
        k >= 0,
    ensures
        sum_range(conv_term(a, b, k), 0, n) == conv(a, b, k),
{
    let f = conv_term(a, b, k);
    lemma_sum_ext(f, |i: int| coef(a, i) * coef(b, k - i), 0, k + 1);
    if n >= k + 1 {
        lemma_sum_split(f, 0, k + 1, n);
        assert forall|i: int| k + 1 <= i < n implies #[trigger] f(i) == 0 by {
            assert(coef(b, k - i) == 0);
        }
        lemma_sum_zero(f, k + 1, n);
    } else {
        lemma_sum_split(f, 0, n, k + 1);
        assert forall|i: int| n <= i < k + 1 implies #[trigger] f(i) == 0 by {
            assert(coef(a, i) == 0);
        }
        lemma_sum_zero(f, n, k + 1);
    }
}

/// The product has no coefficients past the last one of `conv_seq`.
pub proof fn lemma_conv_beyond(a: Seq<int>, b: Seq<int>, k: int)
    requires
        a.len() == 0 || b.len() == 0 || k >= a.len() + b.len() - 1 || k < 0,
    ensures
        conv(a, b, k) == 0,
{
    let f = conv_term(a, b, k);
    assert forall|i: int| 0 <= i < k + 1 implies #[trigger] f(i) == 0 by {
        if i < a.len() {
            assert(coef(b, k - i) == 0);
        } else {
            assert(coef(a, i) == 0);
        }
    }
    lemma_sum_zero(f, 0, k + 1);
    lemma_sum_ext(f, |i: int| coef(a, i) * coef(b, k - i), 0, k + 1);
}

/// The coefficients of `conv_seq(a, b)` are those of the product.
pub proof fn lemma_conv_seq(a: Seq<int>, b: Seq<int>, k: int)
    ensures
        coef(conv_seq(a, b), k) == conv(a, b, k),
{
    if a.len() == 0 || b.len() == 0 || k >= a.len() + b.len() - 1 || k < 0 {
        lemma_conv_beyond(a, b, k);
    }
}

/// Multiplying by the polynomial `c * x^s`, given as any list whose only
/// nonzero coefficient is `c` at `s`, shifts and scales.
pub proof fn lemma_conv_monomial(m: Seq<int>, b: Seq<int>, k: int, s: int, c: int)
    requires
        s >= 0,
        forall|i: int| #[trigger] coef(m, i) == if i == s { c } else { 0 },
    ensures
        conv(m, b, k) == c * coef(b, k - s),
{
    let f = conv_term(m, b, k);
    lemma_sum_ext(f, |i: int| coef(m, i) * coef(b, k - i), 0, k + 1);
    assert(coef(m, s) == c);
    if 0 <= s <= k {
        assert forall|i: int| 0 <= i < k + 1 && i != s implies #[trigger] f(i) == 0 by {
            assert(coef(m, i) == 0);
        }
        lemma_sum_single(f, 0, k + 1, s);
    } else {
        assert forall|i: int| 0 <= i < k + 1 implies #[trigger] f(i) == 0 by {
            assert(coef(m, i) == 0);
        }
        lemma_sum_zero(f, 0, k + 1);
        assert(coef(b, k - s) == 0);
    }
}

/// Multiplying by the constant polynomial one.
pub proof fn lemma_conv_one(a: Seq<int>, k: int)
    ensures
        conv(seq![1int], a, k) == coef(a, k),
        conv(a, seq![1int], k) == coef(a, k),
{
    let one = seq![1int];
    assert forall|i: int| #[trigger] coef(one, i) == if i == 0 { 1int } else { 0 } by {}
    lemma_conv_monomial(one, a, k, 0, 1);
    lemma_conv_comm(a, one, k);
}

/// Multiplying by a polynomial whose coefficients all vanish.
pub proof fn lemma_conv_zero(a: Seq<int>, z: Seq<int>, k: int)
    requires
        forall|i: int| #[trigger] coef(z, i) == 0,
    ensures
        conv(z, a, k) == 0,
        conv(a, z, k) == 0,
{
    lemma_conv_monomial(z, a, k, 0, 0);
    lemma_conv_comm(a, z, k);
}

/// Products of lists whose coefficients agree modulo `m` agree modulo `m`.
pub proof fn lemma_conv_mod(a: Seq<int>, a2: Seq<int>, b: Seq<int>, b2: Seq<int>, k: int, m: int)
    requires
        m > 0,
        forall|i: int| #[trigger] coef(a, i) % m == coef(a2, i) % m,
        forall|i: int| #[trigger] coef(b, i) % m == coef(b2, i) % m,
    ensures
        conv(a, b, k) % m == conv(a2, b2, k) % m,
{
    let f = conv_term(a, b, k);
    let g = conv_term(a2, b2, k);
    assert forall|i: int| 0 <= i < k + 1 implies #[trigger] f(i) % m == g(i) % m by {
        assert(coef(a, i) % m == coef(a2, i) % m);
        assert(coef(b, k - i) % m == coef(b2, k - i) % m);
        vstd::arithmetic::div_mod::lemma_mul_mod_noop(coef(a, i), coef(b, k - i), m);
        vstd::arithmetic::div_mod::lemma_mul_mod_noop(coef(a2, i), coef(b2, k - i), m);
    }
    lemma_sum_mod(f, g, 0, k + 1, m);
    lemma_sum_ext(f, |i: int| coef(a, i) * coef(b, k - i), 0, k + 1);
    lemma_sum_ext(g, |i: int| coef(a2, i) * coef(b2, k - i), 0, k + 1);
}

/// Multiplication distributes over a coefficientwise sum in the left factor.
pub proof fn lemma_conv_add_left(a1: Seq<int>, a2: Seq<int>, a3: Seq<int>, b: Seq<int>, k: int)
    requires
        forall|i: int| #[trigger] coef(a3, i) == coef(a1, i) + coef(a2, i),
    ensures
        conv(a3, b, k) == conv(a1, b, k) + conv(a2, b, k),
{
    let f1 = conv_term(a1, b, k);
    let f2 = conv_term(a2, b, k);
    let f3 = conv_term(a3, b, k);
    assert forall|i: int| 0 <= i < k + 1 implies #[trigger] f3(i) == f1(i) + f2(i) by {
        assert(coef(a3, i) == coef(a1, i) + coef(a2, i));
        vstd::arithmetic::mul::lemma_mul_is_distributive_add_other_way(coef(b, k - i), coef(a1, i), coef(a2, i));
    }
    lemma_sum_ext(f3, |i: int| f1(i) + f2(i), 0, k + 1);
    lemma_sum_add(f1, f2, 0, k + 1);
    lemma_sum_ext(f1, |i: int| coef(a1, i) * coef(b, k - i), 0, k + 1);
    lemma_sum_ext(f2, |i: int| coef(a2, i) * coef(b, k - i), 0, k + 1);
    lemma_sum_ext(f3, |i: int| coef(a3, i) * coef(b, k - i), 0, k + 1);
}

/// The top coefficient of a product is the product of the top coefficients,
/// and nothing lies above it.
pub proof fn lemma_conv_top(a: Seq<int>, b: Seq<int>, da: int, db: int, k: int)
    requires
        da >= 0,
        db >= 0,
        forall|i: int| i > da ==> #[trigger] coef(a, i) == 0,
        forall|i: int| i > db ==> #[trigger] coef(b, i) == 0,
        k >= da + db,
    ensures
        conv(a, b, k) == if k == da + db { coef(a, da) * coef(b, db) } else { 0 },
{
    let f = conv_term(a, b, k);
    lemma_sum_ext(f, |i: int| coef(a, i) * coef(b, k - i), 0, k + 1);
    if k == da + db {
        assert forall|i: int| 0 <= i < k + 1 && i != da implies #[trigger] f(i) == 0 by {
            if i > da {
                assert(coef(a, i) == 0);
            } else {
                assert(coef(b, k - i) == 0);
            }
        }
        lemma_sum_single(f, 0, k + 1, da);
    } else {
        assert forall|i: int| 0 <= i < k + 1 implies #[trigger] f(i) == 0 by {
            if i > da {
                assert(coef(a, i) == 0);
            } else {
                assert(coef(b, k - i) == 0);
            }
        }
        lemma_sum_zero(f, 0, k + 1);
    }
}

/// Adding row `i` of `a` to the partial sums of the product.
pub proof fn lemma_conv_row(a: Seq<int>, b: Seq<int>, k: int, i: int)
    requires
        0 <= i < a.len(),
    ensures
        sum_range(conv_term(a, b, k), 0, i + 1) == sum_range(conv_term(a, b, k), 0, i) + if i <= k < i + b.len() {
            a[i] * b[k - i]
        } else {
            0
        },
        a[i] == 0 ==> sum_range(conv_term(a, b, k), 0, i + 1) == sum_range(conv_term(a, b, k), 0, i),
{
    let f = conv_term(a, b, k);
    assert(sum_range(f, 0, i + 1) == sum_range(f, 0, i) + f(i));
    assert(f(i) == coef(a, i) * coef(b, k - i));
    if !(i <= k < i + b.len()) {
        assert(coef(b, k - i) == 0);
        assert(f(i) == 0);
    }
    if a[i] == 0 {
        assert(f(i) == 0) by (nonlinear_arith)
            requires f(i) == coef(a, i) * coef(b, k - i), coef(a, i) == 0;
    }
}

/// Summing a triangle of terms by rows or by columns:
/// `sum_{i < n} sum_{j <= i} f(i, j) == sum_{j < n} sum_{j <= i < n} f(i, j)`.
pub proof fn lemma_sum_triangle(f: spec_fn(int, int) -> int, n: int)
    requires
        n >= 0,
    ensures
        sum_range(|i: int| sum_range(|j: int| f(i, j), 0, i + 1), 0, n)
            == sum_range(|j: int| sum_range(|i: int| f(i, j), j, n), 0, n),
    decreases n,
{
    let rows = |i: int| sum_range(|j: int| f(i, j), 0, i + 1);
    let cols = |m: int| (|j: int| sum_range(|i: int| f(i, j), j, m));
    if n > 0 {
        let k = n - 1;
        lemma_sum_triangle(f, k);
        // each column gains the term in row k
        let last_row = |j: int| f(k, j);
        assert forall|j: int| 0 <= j < n implies #[trigger] cols(n)(j) == cols(k)(j) + last_row(j) by {
            assert(sum_range(|i: int| f(i, j), j, n) == sum_range(|i: int| f(i, j), j, k) + f(k, j));
        }
        lemma_sum_ext(cols(n), |j: int| cols(k)(j) + last_row(j), 0, n);
        lemma_sum_add(cols(k), last_row, 0, n);
        // the column started in row k holds nothing before row k
        assert(cols(k)(k) == 0);
        assert(sum_range(cols(k), 0, n) == sum_range(cols(k), 0, k) + cols(k)(k));
        lemma_sum_ext(|j: int| sum_range(|i: int| f(i, j), j, k), cols(k), 0, k);
        lemma_sum_ext(|j: int| sum_range(|i: int| f(i, j), j, n), cols(n), 0, n);
        lemma_sum_ext(last_row, |j: int| f(k, j), 0, k + 1);
        assert(sum_range(rows, 0, n) == sum_range(rows, 0, k) + rows(k));
        lemma_sum_ext(rows, |i: int| sum_range(|j: int| f(i, j), 0, i + 1), 0, n);
    }
}

/// Multiplication of polynomials is associative.
pub proof fn lemma_conv_assoc(a: Seq<int>, b: Seq<int>, c: Seq<int>, k: int)
    ensures
        conv(conv_seq(a, b), c, k) == conv(a, conv_seq(b, c), k),
{
    if k < 0 {
        lemma_conv_beyond(conv_seq(a, b), c, k);
        lemma_conv_beyond(a, conv_seq(b, c), k);
    } else {
        let f = |i: int, j: int| coef(a, j) * coef(b, i - j) * coef(c, k - i);
        // by rows: conv(a, b, i) * c[k - i]
        let lhs_terms = conv_term(conv_seq(a, b), c, k);
        assert forall|i: int| 0 <= i < k + 1 implies #[trigger] lhs_terms(i) == sum_range(|j: int| f(i, j), 0, i + 1) by {
            lemma_conv_seq(a, b, i);
            let g = |j: int| coef(a, j) * coef(b, i - j);
            lemma_sum_ext(g, conv_term(a, b, i), 0, i + 1);
            lemma_sum_scale(g, coef(c, k - i), 0, i + 1);
            assert forall|j: int| 0 <= j < i + 1 implies #[trigger] f(i, j) == coef(c, k - i) * g(j) by {
                lemma_mul_is_commutative(coef(c, k - i), g(j));
            }
            lemma_sum_ext(|j: int| f(i, j), |j: int| coef(c, k - i) * g(j), 0, i + 1);
            lemma_mul_is_commutative(conv(a, b, i), coef(c, k - i));
        }
        lemma_sum_ext(lhs_terms, |i: int| sum_range(|j: int| f(i, j), 0, i + 1), 0, k + 1);
        lemma_sum_ext(lhs_terms, |i: int| coef(conv_seq(a, b), i) * coef(c, k - i), 0, k + 1);
        // by columns: a[j] * conv(b, c, k - j)
        let rhs_terms = conv_term(a, conv_seq(b, c), k);
        assert forall|j: int| 0 <= j < k + 1 implies #[trigger] rhs_terms(j) == sum_range(|i: int| f(i, j), j, k + 1) by {
            lemma_conv_seq(b, c, k - j);
            let h = |m: int| coef(b, m) * coef(c, (k - j) - m);
            lemma_sum_ext(h, conv_term(b, c, k - j), 0, k - j + 1);
            lemma_sum_scale(h, coef(a, j), 0, k - j + 1);
            let sc = |m: int| coef(a, j) * h(m);
            lemma_sum_ext(sc, |m: int| coef(a, j) * h(m), 0, k - j + 1);
            lemma_sum_shift(sc, 0, k - j + 1, -j);
            assert forall|i: int| j <= i < k + 1 implies #[trigger] sc(i + -j) == f(i, j) by {
                lemma_mul_is_associative(coef(a, j), coef(b, i - j), coef(c, k - i));
            }
            lemma_sum_ext(|i: int| sc(i + -j), |i: int| f(i, j), j, k + 1);
            assert(rhs_terms(j) == coef(a, j) * conv(b, c, k - j));
        }
        lemma_sum_ext(rhs_terms, |j: int| sum_range(|i: int| f(i, j), j, k + 1), 0, k + 1);
        lemma_sum_ext(rhs_terms, |j: int| coef(a, j) * coef(conv_seq(b, c), k - j), 0, k + 1);
        lemma_sum_triangle(f, k + 1);
    }
}

/// Evaluation can sum over any range that covers the coefficients.
pub proof fn lemma_eval_range(a: Seq<int>, x: int, n: int)
    requires
        n >= a.len(),
    ensures
        sum_range(eval_term(a, x), 0, n) == eval(a, x),
{
    let f = eval_term(a, x);
    lemma_sum_split(f, 0, a.len() as int, n);
    assert forall|i: int| a.len() <= i < n implies #[trigger] f(i) == 0 by {
        assert(coef(a, i) == 0);
    }
    lemma_sum_zero(f, a.len() as int, n);
}

/// Evaluation at a point is compatible with reduction modulo `m`.
pub proof fn lemma_eval_mod(a: Seq<int>, b: Seq<int>, x: int, n: int, m: int)
    requires
        m > 0,
        n >= a.len(),
        n >= b.len(),
        forall|i: int| #[trigger] coef(a, i) % m == coef(b, i) % m,
    ensures
        eval(a, x) % m == eval(b, x) % m,
{
    lemma_eval_range(a, x, n);
    lemma_eval_range(b, x, n);
    let f = eval_term(a, x);
    let g = eval_term(b, x);
    assert forall|i: int| 0 <= i < n implies #[trigger] f(i) % m == g(i) % m by {
        assert(coef(a, i) % m == coef(b, i) % m);
        vstd::arithmetic::div_mod::lemma_mul_mod_noop_left(coef(a, i), pow(x, i as nat), m);
        vstd::arithmetic::div_mod::lemma_mul_mod_noop_left(coef(b, i), pow(x, i as nat), m);
    }
    lemma_sum_mod(f, g, 0, n, m);
}

/// Evaluation is additive: coefficientwise sums evaluate to sums.
pub proof fn lemma_eval_add(a: Seq<int>, b: Seq<int>, c: Seq<int>, x: int, n: int)
    requires
        n >= a.len(),
        n >= b.len(),
        n >= c.len(),
        forall|i: int| #[trigger] coef(c, i) == coef(a, i) + coef(b, i),
    ensures
        eval(c, x) == eval(a, x) + eval(b, x),
{
    lemma_eval_range(a, x, n);
    lemma_eval_range(b, x, n);
    lemma_eval_range(c, x, n);
    let fa = eval_term(a, x);
    let fb = eval_term(b, x);
    let fc = eval_term(c, x);
    assert forall|i: int| 0 <= i < n implies #[trigger] fc(i) == fa(i) + fb(i) by {
        assert(coef(c, i) == coef(a, i) + coef(b, i));
        vstd::arithmetic::mul::lemma_mul_is_distributive_add_other_way(pow(x, i as nat), coef(a, i), coef(b, i));
    }
    lemma_sum_ext(fc, |i: int| fa(i) + fb(i), 0, n);
    lemma_sum_add(fa, fb, 0, n);
}

/// Evaluation is multiplicative: the product's value is the product of the
/// values.
pub proof fn lemma_eval_conv(a: Seq<int>, b: Seq<int>, x: int)
    ensures
        eval(conv_seq(a, b), x) == eval(a, x) * eval(b, x),
{
    let la = a.len() as int;
    let lb = b.len() as int;
    if la == 0 || lb == 0 {
        assert(eval(conv_seq(a, b), x) == 0);
        if la == 0 {
            assert(eval(a, x) == 0);
        } else {
            assert(eval(b, x) == 0);
        }
        assert(eval(a, x) * eval(b, x) == 0) by (nonlinear_arith)
            requires eval(a, x) == 0 || eval(b, x) == 0;
    } else {
        let n = la + lb - 1;
        let c = conv_seq(a, b);
        let f = |k: int, i: int| coef(a, i) * coef(b, k - i) * pow(x, k as nat);
        // by rows: the terms of eval(c, x)
        let fc = eval_term(c, x);
        assert forall|k: int| 0 <= k < n implies #[trigger] fc(k) == sum_range(|i: int| f(k, i), 0, k + 1) by {
            lemma_conv_seq(a, b, k);
            let g = conv_term(a, b, k);
            lemma_sum_scale(g, pow(x, k as nat), 0, k + 1);
            assert forall|i: int| 0 <= i < k + 1 implies #[trigger] f(k, i) == pow(x, k as nat) * g(i) by {
                lemma_mul_is_commutative(pow(x, k as nat), coef(a, i) * coef(b, k - i));
            }
            lemma_sum_ext(|i: int| f(k, i), |i: int| pow(x, k as nat) * g(i), 0, k + 1);
            lemma_sum_ext(g, |i: int| coef(a, i) * coef(b, k - i), 0, k + 1);
            lemma_mul_is_commutative(conv(a, b, k), pow(x, k as nat));
        }
        lemma_sum_ext(fc, |k: int| sum_range(|i: int| f(k, i), 0, k + 1), 0, n);
        lemma_sum_triangle(f, n);
        // by columns: a[i] * x^i * eval(b, x)
        let fa = eval_term(a, x);
        let eb = eval(b, x);
        assert forall|i: int| 0 <= i < n implies sum_range(|k: int| f(k, i), i, n) == #[trigger] fa(i) * eb by {
            let h = eval_term(b, x);
            let sc = |m: int| (coef(a, i) * pow(x, i as nat)) * h(m);
            lemma_sum_scale(h, coef(a, i) * pow(x, i as nat), 0, n - i);
            lemma_sum_ext(sc, |m: int| (coef(a, i) * pow(x, i as nat)) * h(m), 0, n - i);
            lemma_sum_shift(sc, 0, n - i, -i);
            assert forall|k: int| i <= k < n implies #[trigger] sc(k + -i) == f(k, i) by {
                lemma_pow_adds(x, i as nat, (k - i) as nat);
                assert(coef(a, i) * pow(x, i as nat) * (coef(b, k - i) * pow(x, (k - i) as nat))
                    == coef(a, i) * coef(b, k - i) * (pow(x, i as nat) * pow(x, (k - i) as nat))) by (nonlinear_arith);
            }
            lemma_sum_ext(|k: int| sc(k + -i), |k: int| f(k, i), i, n);
            assert(fa(i) == coef(a, i) * pow(x, i as nat));
            if i >= la {
                assert(coef(a, i) == 0);
                let hs = sum_range(h, 0, n - i);
                assert(coef(a, i) * pow(x, i as nat) * hs == 0 && fa(i) * eb == 0) by (nonlinear_arith)
                    requires coef(a, i) == 0, fa(i) == coef(a, i) * pow(x, i as nat);
            } else {
                lemma_eval_range(b, x, n - i);
            }
        }
        lemma_sum_ext(|j: int| sum_range(|k: int| f(k, j), j, n), |i: int| fa(i) * eb, 0, n);
        lemma_sum_scale(fa, eb, 0, n);
        lemma_sum_ext(|i: int| fa(i) * eb, |i: int| eb * fa(i), 0, n);
        lemma_eval_range(a, x, n);
        lemma_mul_is_commutative(eb, eval(a, x));
    }
}

/// Evaluating `e + x * t(x)`: a coefficient put in front multiplies the
/// rest by `x`.
pub proof fn lemma_eval_cons(e: int, t: Seq<int>, x: int)
    ensures
        eval(seq![e] + t, x) == e + x * eval(t, x),
{
    let a = seq![e] + t;
    let n = a.len() as int;
    let f = eval_term(a, x);
    let g = eval_term(t, x);
    reveal(pow);
    lemma_sum_first(f, 0, n);
    assert(f(0) == e) by {
        assert(coef(a, 0) == e);
        assert(pow(x, 0) == 1);
    }
    lemma_sum_shift(f, 1, n, 1);
    assert forall|i: int| 0 <= i < n - 1 implies #[trigger] f(i + 1) == x * g(i) by {
        assert(coef(a, i + 1) == coef(t, i));
        assert(pow(x, (i + 1) as nat) == x * pow(x, i as nat));
        assert(coef(t, i) * (x * pow(x, i as nat)) == x * (coef(t, i) * pow(x, i as nat))) by (nonlinear_arith);
    }
    lemma_sum_ext(|i: int| f(i + 1), |i: int| x * g(i), 0, n - 1);
    lemma_sum_scale(g, x, 0, n - 1);
}

/// The quotient of `a` by `x - c` in synthetic division.
pub open spec fn synthetic_quotient(a: Seq<int>, c: int) -> Seq<int>
    decreases a.len(),
{
    if a.len() <= 1 {
        Seq::empty()
    } else {
        let t = a.subrange(1, a.len() as int);
        seq![eval(t, c)] + synthetic_quotient(t, c)
    }
}

/// Synthetic division: `a(x) == (x - c) * g(x) + a(c)` for the quotient `g`,
/// coefficient by coefficient and in value, with `g` one coefficient shorter.
pub proof fn lemma_synthetic_division(a: Seq<int>, c: int, y: int)
    ensures
        synthetic_quotient(a, c).len() == if a.len() == 0 { 0 } else { a.len() - 1 },
        coef(a, 0) == eval(a, c) - c * coef(synthetic_quotient(a, c), 0),
        forall|i: int| i >= 1 ==> #[trigger] coef(a, i) == coef(synthetic_quotient(a, c), i - 1) - c * coef(synthetic_quotient(a, c), i),
        eval(a, y) == (y - c) * eval(synthetic_quotient(a, c), y) + eval(a, c),
    decreases a.len(),
{
    let g = synthetic_quotient(a, c);
    if a.len() == 0 {
        assert(eval(a, y) == 0);
        assert(eval(a, c) == 0);
        assert(eval(g, y) == 0);
        assert((y - c) * eval(g, y) == 0) by (nonlinear_arith) requires eval(g, y) == 0;
    } else if a.len() == 1 {
        assert(a =~= seq![a[0]] + Seq::<int>::empty());
        lemma_eval_cons(a[0], Seq::<int>::empty(), y);
        lemma_eval_cons(a[0], Seq::<int>::empty(), c);
        assert(eval(Seq::<int>::empty(), y) == 0);
        assert(eval(Seq::<int>::empty(), c) == 0);
        assert(eval(g, y) == 0);
        assert(y * eval(Seq::<int>::empty(), y) == 0) by (nonlinear_arith) requires eval(Seq::<int>::empty(), y) == 0;
        assert(c * eval(Seq::<int>::empty(), c) == 0) by (nonlinear_arith) requires eval(Seq::<int>::empty(), c) == 0;
        assert((y - c) * eval(g, y) == 0) by (nonlinear_arith) requires eval(g, y) == 0;
        assert(coef(g, 0) == 0);
        assert forall|i: int| i >= 1 implies #[trigger] coef(a, i) == coef(g, i - 1) - c * coef(g, i) by {}
    } else {
        let t = a.subrange(1, a.len() as int);
        let h = synthetic_quotient(t, c);
        lemma_synthetic_division(t, c, y);
        assert(a =~= seq![a[0]] + t);
        assert(g == seq![eval(t, c)] + h);
        lemma_eval_cons(a[0], t, y);
        lemma_eval_cons(a[0], t, c);
        lemma_eval_cons(eval(t, c), h, y);
        let et = eval(t, c);
        let ey = eval(h, y);
        assert(eval(a, y) == (y - c) * eval(g, y) + eval(a, c)) by {
            assert(eval(t, y) == (y - c) * ey + et);
            assert(a[0] + y * ((y - c) * ey + et) == (y - c) * (et + y * ey) + (a[0] + c * et)) by (nonlinear_arith);
        }
        assert forall|i: int| i >= 1 implies #[trigger] coef(a, i) == coef(g, i - 1) - c * coef(g, i) by {
            assert(coef(a, i) == coef(t, i - 1));
            assert(coef(g, i) == coef(h, i - 1));
            if i == 1 {
                assert(coef(g, 0) == et);
            } else {
                assert(coef(t, i - 1) == coef(h, i - 2) - c * coef(h, i - 1));
                assert(coef(g, i - 1) == coef(h, i - 2));
            }
        }
        assert(coef(g, 0) == et);
    }
}

} // verus!

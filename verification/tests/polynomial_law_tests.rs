use rust_fri::field_operations::{Field, FieldElement};
use rust_fri::polynomials::Polynomial;

const P: i64 = 0x78000001;

fn fe(v: i64) -> FieldElement {
    FieldElement::new(v, Field::new(P))
}

fn poly(coeffs: Vec<i64>) -> Polynomial {
    Polynomial::new(coeffs.into_iter().map(fe).collect())
}

fn values(p: &Polynomial) -> Vec<i64> {
    p.coefficients.iter().map(|c| c.value).collect()
}

#[test]
fn degree_counts_zeros_of_other_fields_as_nonzero() {
    // only the Baby Bear zero counts as a zero coefficient
    let other_zero = FieldElement::new(0, Field::new(7));
    let p = Polynomial::new(vec![fe(1), other_zero]);
    assert_eq!(p.degree(), 1);
}

#[test]
fn add_keeps_longer_length_and_reduces() {
    let a = poly(vec![P - 1, 2, 0, 0]);
    let b = poly(vec![3]);
    assert_eq!(values(&a.add(&b)), vec![2, 2, 0, 0]);
    assert_eq!(values(&b.add(&a)), vec![2, 2, 0, 0]);
}

#[test]
fn add_of_zero_gives_other_operand_unchanged() {
    let zero = poly(vec![0, 0, 0]);
    let a = poly(vec![5, 6]);
    assert_eq!(values(&zero.add(&a)), vec![5, 6]);
    assert_eq!(values(&a.add(&zero)), vec![5, 6]);
}

#[test]
fn negation_values() {
    let p = poly(vec![0, 1, P - 1]);
    assert_eq!(values(&p.neg()), vec![0, P - 1, 1]);
    assert!(p.neg().neg().equals(&p));
}

#[test]
fn product_values_and_length() {
    let a = poly(vec![1, 2]);
    let b = poly(vec![3, 0, 5]);
    // (1 + 2x)(3 + 5x^2) = 3 + 6x + 5x^2 + 10x^3
    assert_eq!(values(&a.mul(&b)), vec![3, 6, 5, 10]);
    assert_eq!(values(&b.mul(&a)), vec![3, 6, 5, 10]);
    let empty = Polynomial::new(vec![]);
    assert_eq!(values(&a.mul(&empty)), Vec::<i64>::new());
    // trailing zeros make the product longer but not of higher degree
    let c = poly(vec![1, 1, 0]);
    assert_eq!(values(&a.mul(&c)), vec![1, 3, 2, 0]);
    assert_eq!(a.mul(&c).degree(), 2);
}

#[test]
fn product_associates() {
    let a = poly(vec![1, 2]);
    let b = poly(vec![3, 4, 5]);
    let c = poly(vec![P - 1, 7]);
    let left = a.mul(&b).mul(&c);
    let right = a.mul(&b.mul(&c));
    assert_eq!(values(&left), values(&right));
}

#[test]
fn divide_by_zero_polynomial_with_zero_coefficients() {
    let p = poly(vec![1, 2]);
    let zero = poly(vec![0, 0]);
    assert!(Polynomial::divide(&p, &zero).is_none());
}

#[test]
fn divide_quotient_and_remainder_lengths() {
    // x^3 + 2 divided by (x - 1) with a trailing zero in the divisor
    let n = poly(vec![2, 0, 0, 1]);
    let d = poly(vec![P - 1, 1, 0]);
    let (q, r) = Polynomial::divide(&n, &d).unwrap();
    assert_eq!(values(&q), vec![1, 1, 1]);
    assert_eq!(r.degree(), 0);
    assert_eq!(r.coefficients[0].value, 3);
    // the remainder is as long as x^(3-1) * d, which has five coefficients
    assert_eq!(r.coefficients.len(), 5);
    // comparing the shorter list against the longer one
    assert!(n.equals(&q.mul(&d).add(&r)));
}

#[test]
fn divide_smaller_numerator_returns_it() {
    let n = poly(vec![4, 5, 0]);
    let d = poly(vec![1, 1, 1]);
    let (q, r) = Polynomial::divide(&n, &d).unwrap();
    assert!(q.coefficients.is_empty());
    assert_eq!(values(&r), vec![4, 5, 0]);
}

#[test]
fn division_operators() {
    let a = poly(vec![1, 1]);
    let b = poly(vec![2, 3, 4]);
    let product = a.mul(&b);
    let q = product.clone() / b.clone();
    assert_eq!(values(&q), vec![1, 1]);
    let r = (product.add(&poly(vec![9]))) % b;
    assert_eq!(r.degree(), 0);
    assert_eq!(r.coefficients[0].value, 9);
}

#[test]
fn evaluation_of_product_is_product_of_evaluations() {
    let a = poly(vec![3, 1, 4]);
    let b = poly(vec![1, 5, 9, 2]);
    for x in [0, 1, 2, 6, P - 1] {
        let lhs = a.mul(&b).evaluate(fe(x));
        let rhs = a.evaluate(fe(x)) * b.evaluate(fe(x));
        assert_eq!(lhs, rhs);
    }
}

#[test]
fn evaluation_of_sum_is_sum_of_evaluations() {
    let a = poly(vec![3, 1, 4]);
    let b = poly(vec![P - 3, 5]);
    for x in [0, 1, 2, 6, P - 1] {
        assert_eq!(a.add(&b).evaluate(fe(x)), a.evaluate(fe(x)) + b.evaluate(fe(x)));
    }
}

#[test]
fn evaluate_at_zero_is_constant_term() {
    let p = poly(vec![17, 3, 8]);
    assert_eq!(p.evaluate(fe(0)), fe(17));
    assert_eq!(Polynomial::new(vec![]).evaluate(fe(5)), fe(0));
}

#[test]
fn zerofier_values() {
    let domain = vec![fe(1), fe(2)];
    let z = Polynomial::zerofier_domain(&domain);
    // (x - 1)(x - 2) = 2 - 3x + x^2
    assert_eq!(values(&z), vec![2, P - 3, 1]);
    assert_eq!(values(&Polynomial::zerofier_domain(&vec![])), vec![1]);
    assert_eq!(z.evaluate(fe(0)), fe(2));
}

#[test]
fn interpolation_passes_through_points() {
    let domain = vec![fe(3), fe(10), fe(P - 1), fe(0)];
    let values_ = vec![fe(7), fe(0), fe(123), fe(P - 5)];
    let p = Polynomial::interpolate_domain(&domain, &values_);
    assert_eq!(p.coefficients.len(), 4);
    for i in 0..4 {
        assert_eq!(p.evaluate(domain[i]), values_[i]);
    }
    assert!(Polynomial::interpolate_domain(&vec![], &vec![]).coefficients.is_empty());
}

#[test]
fn scale_composes_with_multiplication_of_the_point() {
    let p = poly(vec![5, 0, 2, 9]);
    let f = fe(7);
    let s = p.scale(f);
    for x in [0, 1, 3, 100] {
        assert_eq!(s.evaluate(fe(x)), p.evaluate(f * fe(x)));
    }
    assert_eq!(p.scale(fe(0)).degree(), 0);
}

#[test]
fn collinearity_on_many_points() {
    let line: Vec<(FieldElement, FieldElement)> =
        (0..5).map(|x| (fe(x), fe((3 * x + 4) % P))).collect();
    assert!(Polynomial::test_collinearity(&line));
    let mut bent = line.clone();
    bent[4].1 = fe(0);
    assert!(!Polynomial::test_collinearity(&bent));
    assert!(Polynomial::test_collinearity(&vec![(fe(1), fe(2))]));
}

#[test]
fn polynomial_powers() {
    let p = poly(vec![2, 1]);
    // (2 + x)^5 = 32 + 80x + 80x^2 + 40x^3 + 10x^4 + x^5
    assert_eq!(values(&(p.clone() ^ 5)), vec![32, 80, 80, 40, 10, 1]);
    let c = poly(vec![3]);
    assert_eq!(values(&(c ^ 4)), vec![81]);
    let z = poly(vec![0, 0]);
    assert_eq!(values(&(z.clone() ^ 0)), vec![1]);
    assert!((z ^ 3).coefficients.is_empty());
}

#[test]
fn leading_coefficient_and_is_zero() {
    let p = poly(vec![0, 0, 4, 0]);
    assert_eq!(p.leading_coefficient(), Some(fe(4)));
    assert!(!p.is_zero());
    assert!(poly(vec![0]).is_zero());
    assert_eq!(poly(vec![0]).leading_coefficient(), None);
}

#[test]
fn equals_ignores_trailing_zeros_of_the_other() {
    let a = poly(vec![1, 2]);
    let b = poly(vec![1, 2, 0, 0]);
    assert!(a.equals(&b));
    assert!(!a.equals(&poly(vec![1, 3])));
}

#[test]
fn interpolation_recovers_polynomial_with_trailing_zeros() {
    // degree 2 with a trailing zero, interpolated through five points
    let source = poly(vec![7, P - 3, 11, 0]);
    let domain = vec![fe(2), fe(5), fe(P - 1), fe(40), fe(9)];
    let values_ = source.evaluate_domain(&domain);
    let recovered = Polynomial::interpolate_domain(&domain, &values_);
    assert_eq!(values(&recovered), vec![7, P - 3, 11, 0, 0]);
    assert!(source.equals(&recovered));
}

#[test]
fn collinear_points_with_large_coefficients() {
    // y = (P - 2) + (P - 1) x, that is y = -2 - x
    let line: Vec<(FieldElement, FieldElement)> = [0i64, 3, 8, 20]
        .iter()
        .map(|&x| (fe(x), fe(((P - 2) + (P - 1) * x) % P)))
        .collect();
    assert!(Polynomial::test_collinearity(&line));
}

#[test]
fn division_outcome_is_unique() {
    let n = poly(vec![4, 0, 3, 1, 6]);
    let d = poly(vec![P - 2, 1]);
    let (q1, r1) = Polynomial::divide(&n, &d).unwrap();
    let (q2, r2) = Polynomial::divide(&n.clone(), &d.clone()).unwrap();
    assert_eq!(q1, q2);
    assert_eq!(r1, r2);
    // n(2) is the remainder of division by x - 2
    assert_eq!(r1.evaluate(fe(0)), n.evaluate(fe(2)));
    assert_eq!(r1.degree(), 0);
}

#[test]
fn mul_reduces_terms_in_their_own_field() {
    // terms are reduced modulo 7, their sums in the Baby Bear field
    let f7 = Field::new(7);
    let s = Polynomial::new(vec![FieldElement::new(3, f7), FieldElement::new(5, f7)]);
    let t = Polynomial::new(vec![FieldElement::new(4, f7), FieldElement::new(6, f7)]);
    let r = s.mul(&t);
    assert_eq!(values(&r), vec![5, 10, 2]);
    assert!(r.coefficients.iter().all(|c| c.field == Field::new(P)));
}

#[test]
fn power_starts_from_the_one_of_the_first_coefficient() {
    // (3 + x)^2 with coefficients modulo 7: every first-row term is reduced
    // modulo 7, the later products are Baby Bear products
    let f7 = Field::new(7);
    let s = Polynomial::new(vec![FieldElement::new(3, f7), FieldElement::new(1, f7)]);
    let r = s.clone() ^ 2;
    assert_eq!(values(&r), vec![2, 6, 1]);
    let one = s ^ 0;
    assert_eq!(one.coefficients, vec![FieldElement::new(1, f7)]);
}

use rust_fri::field_operations::{xgcd, Field, FieldElement};

const P: i64 = 0x78000001;

fn fe(v: i64) -> FieldElement {
    FieldElement::new(v, Field::new(P))
}

#[test]
fn xgcd_bezout_and_gcd() {
    let (s, t, g) = xgcd(240, 46);
    assert_eq!(g, 2);
    assert_eq!(s * 240 + t * 46, g);
    assert_eq!((s, t), (-9, 47));
    assert_eq!(xgcd(5, 0), (1, 0, 5));
    assert_eq!(xgcd(0, 0), (1, 0, 0));
    assert_eq!(xgcd(0, 7), (0, 1, 7));
}

#[test]
fn xgcd_negative_inputs_truncate() {
    let (s, t, g) = xgcd(-3, 7);
    assert_eq!(s * -3 + t * 7, g);
    assert_eq!(g.abs(), 1);
    let (s, t, g) = xgcd(12, -18);
    assert_eq!(s * 12 + t * -18, g);
    assert_eq!(g.abs(), 6);
}

#[test]
fn field_ops_exact_values() {
    let f = Field::new(P);
    assert_eq!(f.add(&fe(P - 1), &fe(5)).value, 4);
    assert_eq!(f.subtract(&fe(3), &fe(10)).value, P - 7);
    assert_eq!(f.multiply(&fe(P - 1), &fe(P - 1)).value, 1);
    assert_eq!(f.negate(&fe(0)).value, 0);
    assert_eq!(f.negate(&fe(1)).value, P - 1);
    assert_eq!(f.zero().value, 0);
    assert_eq!(f.one().value, 1);
}

#[test]
fn field_ops_on_unreduced_values_follow_rust_remainder() {
    // Representatives are not reduced on construction; `%` keeps the sign.
    let f = Field::new(7);
    let a = FieldElement::new(-10, f);
    let b = FieldElement::new(1, f);
    assert_eq!(f.add(&a, &b).value, -2);
    assert_eq!((a * b).value, -3);
    let c = FieldElement::new(20, f);
    assert_eq!((c + b).value, 0);
}

#[test]
fn inverse_law_on_several_elements() {
    for v in [1, 2, 3, 31, 12345, P - 1, P - 2] {
        let a = fe(v);
        let inv = a.inverse();
        assert!(0 <= inv.value && inv.value < P);
        assert_eq!((a * inv).value, 1);
    }
}

#[test]
fn inverse_of_zero_is_zero() {
    assert_eq!(fe(0).inverse().value, 0);
}

#[test]
fn inverse_in_small_field() {
    let f = Field::new(11);
    let a = FieldElement::new(4, f);
    assert_eq!(a.inverse().value, 3);
    assert_eq!(f.inverse(&a).value, 3);
}

#[test]
fn division_times_divisor_gives_dividend() {
    for (x, y) in [(5, 7), (0, 3), (P - 1, 2), (123456789, 987654321)] {
        let q = fe(x) / fe(y);
        assert_eq!((q * fe(y)).value, x);
        assert_eq!(q.value, (fe(x) * fe(y).inverse()).value);
    }
}

#[test]
fn subtraction_then_addition() {
    let d = fe(3) - fe(10);
    assert_eq!((d + fe(10)).value, 3);
    let d = fe(10) - fe(3);
    assert_eq!((d + &fe(3)).value, 10);
}

#[test]
fn negation_is_additive_inverse() {
    for v in [0, 1, 2, P - 1] {
        let a = fe(v);
        assert_eq!((a + (-a)).value, 0);
    }
}

#[test]
fn power_by_squaring_values() {
    assert_eq!((fe(2) ^ 0).value, 1);
    assert_eq!((fe(2) ^ 10).value, 1024);
    assert_eq!((fe(0) ^ 5).value, 0);
    assert_eq!((fe(31) ^ ((P - 1) / 2)).value, P - 1);
    assert_eq!((fe(31) ^ (P - 1)).value, 1);
    // a negative exponent counts as its two's-complement u64
    let small = Field::new(13);
    let x = FieldElement::new(2, small);
    let e: u64 = (-1i64) as u64;
    let expected = {
        let mut acc: u128 = 1;
        let mut base: u128 = 2;
        let mut k = e;
        while k > 0 {
            if k & 1 == 1 {
                acc = acc * base % 13;
            }
            base = base * base % 13;
            k >>= 1;
        }
        acc as i64
    };
    assert_eq!((x ^ -1).value, expected);
}

#[test]
fn primitive_root_has_exact_order() {
    let f = Field::new(P);
    assert_eq!(f.primitive_nth_root(1).value, 1);
    let r = f.primitive_nth_root(1 << 27);
    assert_eq!((r ^ (1 << 27)).value, 1);
    assert_eq!((r ^ (1 << 26)).value, P - 1);
    let r2 = f.primitive_nth_root(2);
    assert_eq!(r2.value, P - 1);
}

#[test]
fn generator_is_31() {
    let f = Field::new(P);
    assert_eq!(f.generator(), FieldElement::new(31, f));
}

#[test]
fn sample_reads_big_endian_and_wraps_at_64_bits() {
    let f = Field::new(P);
    assert_eq!(f.sample(&[]).value, 0);
    assert_eq!(f.sample(&[0x01, 0x00]).value, 256);
    // nine bytes: the first falls off the top
    assert_eq!(f.sample(&[0xAB, 0, 0, 0, 0, 0, 0, 0, 7]).value, 7);
    // the top bit set makes the accumulator negative; the result is brought into [0, p)
    let bytes = [0xFF; 8];
    let v = f.sample(&bytes).value;
    assert_eq!(v, P - 1);
    let big = 0x7800_0001u64 * 3 + 5;
    assert_eq!(f.sample(&big.to_be_bytes()).value, 5);
}

#[test]
fn is_zero_and_to_string() {
    assert!(fe(0).is_zero());
    assert!(!fe(1).is_zero());
    assert_eq!(fe(12345).to_string(), "12345");
}

#[test]
fn small_powers_in_a_huge_field() {
    // squaring 1 and multiplying once stays far below the i64 limit
    let big = Field::new(i64::MAX);
    let x = FieldElement::new(5, big);
    assert_eq!((x ^ 0).value, 1);
    assert_eq!((x ^ 1).value, 5);
    assert_eq!((x ^ 2).value, 25);
}

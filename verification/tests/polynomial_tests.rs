use stark_fri::field::{FieldElement, FIELD_PRIME};
use stark_fri::polynomial::Polynomial;

fn poly(coeffs: &[u128]) -> Vec<FieldElement> {
    coeffs.iter().map(|&c| FieldElement::new(c)).collect()
}

fn values(p: &[FieldElement]) -> Vec<u128> {
    p.iter().map(|e| e.value()).collect()
}

#[test]
fn degree_scans_from_the_high_end() {
    assert_eq!(Polynomial::degree_of(&poly(&[])), 0);
    assert_eq!(Polynomial::degree_of(&poly(&[5])), 0);
    assert_eq!(Polynomial::degree_of(&poly(&[0, 1])), 1);
    assert_eq!(Polynomial::degree_of(&poly(&[1, 2, 3, 0, 0])), 2);
}

#[test]
fn zero_polynomial_detection() {
    assert!(Polynomial::is_zero(&poly(&[])));
    assert!(Polynomial::is_zero(&poly(&[0, 0, 0])));
    assert!(!Polynomial::is_zero(&poly(&[0, 1])));
    assert!(!Polynomial::is_zero(&poly(&[5])));
}

#[test]
fn leading_coefficient_sits_at_the_degree() {
    assert_eq!(Polynomial::leading_coefficient(&poly(&[1, 2, 3, 0])).value(), 3);
    assert_eq!(Polynomial::leading_coefficient(&poly(&[7])).value(), 7);
}

#[test]
fn add_and_sub_are_pointwise_with_padding() {
    let a = poly(&[1, 2]);
    let b = poly(&[3, 4, 5]);
    assert_eq!(values(&Polynomial::add(&a, &b)), vec![4, 6, 5]);
    let d = Polynomial::sub(&a, &b);
    assert_eq!(values(&d), vec![FIELD_PRIME - 2, FIELD_PRIME - 2, FIELD_PRIME - 5]);
}

#[test]
fn mul_is_the_convolution() {
    // (1 + 2x)(3 + x) = 3 + 7x + 2x^2
    let a = poly(&[1, 2]);
    let b = poly(&[3, 1]);
    assert_eq!(values(&Polynomial::mul(&a, &b)), vec![3, 7, 2]);
    assert_eq!(values(&Polynomial::mul(&poly(&[]), &b)), Vec::<u128>::new());
}

#[test]
fn mul_commutes_on_samples() {
    let a = poly(&[1, 2, 3]);
    let b = poly(&[4, 0, 5, 6]);
    assert_eq!(values(&Polynomial::mul(&a, &b)), values(&Polynomial::mul(&b, &a)));
}

#[test]
fn mul_associates_on_samples() {
    let a = poly(&[1, 2]);
    let b = poly(&[3, 4, 5]);
    let c = poly(&[6, 0, 7]);
    let left = Polynomial::mul(&Polynomial::mul(&a, &b), &c);
    let right = Polynomial::mul(&a, &Polynomial::mul(&b, &c));
    assert_eq!(values(&left), values(&right));
}

#[test]
fn evaluate_uses_horner() {
    // 5 + 3x at x = 2
    assert_eq!(Polynomial::evaluate(&poly(&[5, 3]), FieldElement::new(2)).value(), 11);
    assert_eq!(Polynomial::evaluate(&poly(&[]), FieldElement::new(9)).value(), 0);
    // x^2 + 1 at x = 10
    assert_eq!(Polynomial::evaluate(&poly(&[1, 0, 1]), FieldElement::new(10)).value(), 101);
}

#[test]
fn interpolation_round_trip() {
    // P = 5 + 3x, domain of four distinct points
    let p = poly(&[5, 3]);
    let domain = poly(&[0, 1, 2, 3]);
    let vals = Polynomial::evaluate_domain(&p, &domain);
    assert_eq!(values(&vals), vec![5, 8, 11, 14]);
    let back = Polynomial::interpolate_domain(&domain, &vals);
    assert_eq!(Polynomial::degree_of(&back), 1);
    assert_eq!(back[0].value(), 5);
    assert_eq!(back[1].value(), 3);
    for k in 2..back.len() {
        assert_eq!(back[k].value(), 0);
    }
    for (x, v) in domain.iter().zip(vals.iter()) {
        assert_eq!(Polynomial::evaluate(&back, *x).value(), v.value());
    }
}

#[test]
fn colinearity_holds_on_a_line() {
    // y = 2x + 1 at x = 0, 1, 2
    let domain = poly(&[0, 1, 2]);
    let vals = poly(&[1, 3, 5]);
    assert!(Polynomial::test_colinearity(&domain, &vals));
}

#[test]
fn colinearity_fails_on_a_parabola() {
    // y = x^2 at x = 0, 1, 2
    let domain = poly(&[0, 1, 2]);
    let vals = poly(&[0, 1, 4]);
    assert!(!Polynomial::test_colinearity(&domain, &vals));
}

#[test]
fn division_returns_quotient_and_remainder() {
    // (x^2 + 3x + 2) / (x + 1) = x + 2, remainder 0
    let a = poly(&[2, 3, 1]);
    let b = poly(&[1, 1]);
    let (q, rem) = Polynomial::division(&a, &b).unwrap();
    assert_eq!(values(&q), vec![2, 1]);
    assert!(Polynomial::is_zero(&rem));
}

#[test]
fn division_by_zero_polynomial_fails() {
    let a = poly(&[1, 2, 3]);
    assert!(Polynomial::division(&a, &poly(&[])).is_none());
    assert!(Polynomial::division(&a, &poly(&[0, 0])).is_none());
    assert!(Polynomial::div(&a, &poly(&[])).is_none());
    assert!(Polynomial::module(&a, &poly(&[])).is_none());
}

#[test]
fn zero_dividend_always_divides() {
    let zero = poly(&[0, 0, 0]);
    let b = poly(&[1, 1]);
    let q = Polynomial::div(&zero, &b).unwrap();
    assert!(Polynomial::is_zero(&Polynomial::mul(&q, &b)));
    let (_, rem) = Polynomial::division(&zero, &b).unwrap();
    assert!(Polynomial::is_zero(&rem));
}

#[test]
fn remainder_degree_stays_below_the_divisor() {
    // x^3 + x + 1 divided by x^2 + 1 leaves the remainder 1
    let a = poly(&[1, 1, 0, 1]);
    let b = poly(&[1, 0, 1]);
    let (q, rem) = Polynomial::division(&a, &b).unwrap();
    assert_eq!(values(&q), vec![0, 1]);
    assert!(Polynomial::degree_of(&rem) < Polynomial::degree_of(&b));
    assert_eq!(rem[0].value(), 1);
    for k in 1..rem.len() {
        assert_eq!(rem[k].value(), 0);
    }
    let back = Polynomial::add(&Polynomial::mul(&q, &b), &rem);
    for k in 0..a.len() {
        assert_eq!(back[k].value(), a[k].value());
    }
}

#[test]
fn exact_division_rejects_nonzero_remainder() {
    // (x^2 + 1) / (x + 1) leaves a remainder
    let a = poly(&[1, 0, 1]);
    let b = poly(&[1, 1]);
    assert!(Polynomial::div(&a, &b).is_none());
    let rem = Polynomial::module(&a, &b).unwrap();
    assert!(!Polynomial::is_zero(&rem));
    // remainder of x^2+1 at the root -1 is 2
    assert_eq!(Polynomial::evaluate(&rem, FieldElement::new(FIELD_PRIME - 1)).value(), 2);
}

#[test]
fn power_by_repeated_multiplication() {
    // (1 + x)^2 = 1 + 2x + x^2
    let a = poly(&[1, 1]);
    assert_eq!(values(&Polynomial::xor(&a, 2)), vec![1, 2, 1]);
    assert_eq!(values(&Polynomial::xor(&a, 0)), vec![1]);
    assert_eq!(values(&Polynomial::xor(&poly(&[0, 0]), 5)), Vec::<u128>::new());
}

#[test]
fn scale_multiplies_by_powers_of_the_factor() {
    let a = poly(&[1, 1, 1]);
    assert_eq!(values(&Polynomial::scale(&a, FieldElement::new(2))), vec![1, 2, 4]);
}

#[test]
fn zerofier_vanishes_exactly_on_the_domain() {
    let domain = poly(&[1, 2]);
    let z = Polynomial::zerofier_domain(&domain);
    // (x - 1)(x - 2) = 2 - 3x + x^2
    assert_eq!(values(&z), vec![2, FIELD_PRIME - 3, 1]);
    for d in domain.iter() {
        assert_eq!(Polynomial::evaluate(&z, *d).value(), 0);
    }
    assert_ne!(Polynomial::evaluate(&z, FieldElement::new(5)).value(), 0);
}

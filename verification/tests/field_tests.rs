use stark_fri::field::{add_mod, mul_mod, pow_mod, sub_mod, Field, FieldElement, FIELD_PRIME, ROOT_OF_UNITY};
use stark_fri::errors::{DeserializationError, FieldError};

#[test]
fn add_negative_is_zero() {
    for v in [0u128, 1, 2, 12345678901234567890, FIELD_PRIME - 1] {
        let a = FieldElement::new(v);
        let sum = a.add(a.neg());
        assert_eq!(sum.value(), 0);
    }
}

#[test]
fn inverse_times_self_is_one() {
    for v in [1u128, 2, 3, 65537, ROOT_OF_UNITY, FIELD_PRIME - 1] {
        let a = FieldElement::new(v);
        let prod = a.mul(a.inverse());
        assert_eq!(prod.value(), 1);
    }
}

#[test]
fn new_reduces_into_canonical_range() {
    assert_eq!(FieldElement::new(FIELD_PRIME).value(), 0);
    assert_eq!(FieldElement::new(FIELD_PRIME + 5).value(), 5);
    assert_eq!(FieldElement::new(7).value(), 7);
}

#[test]
fn mod_arithmetic_matches_known_values() {
    assert_eq!(add_mod(FIELD_PRIME - 1, 1), 0);
    assert_eq!(add_mod(FIELD_PRIME - 1, 2), 1);
    assert_eq!(sub_mod(0, 1), FIELD_PRIME - 1);
    assert_eq!(mul_mod(3, 5), 15);
    assert_eq!(mul_mod(FIELD_PRIME - 1, FIELD_PRIME - 1), 1);
    assert_eq!(pow_mod(2, 10), 1024);
    assert_eq!(pow_mod(123456789, 0), 1);
}

#[test]
fn root_of_unity_has_order_two_to_119() {
    let g = FieldElement::new(ROOT_OF_UNITY);
    assert_eq!(g.pow(1u128 << 119).value(), 1);
    assert_ne!(g.pow(1u128 << 118).value(), 1);
}

#[test]
fn primitive_nth_root_generates_small_subgroup() {
    let root = FieldElement::zero().primitive_nth_root(16);
    assert_eq!(root.pow(16).value(), 1);
    assert_ne!(root.pow(8).value(), 1);
}

#[test]
fn field_division_by_zero_fails() {
    let field = Field::new(FIELD_PRIME);
    let one = field.one();
    let zero = field.zero();
    assert_eq!(field.divide(one, zero), Err(FieldError::DivisionByZero));
    assert_eq!(field.inverse(zero), Err(FieldError::DivisionByZero));
    let q = field.divide(FieldElement::new(10), FieldElement::new(5)).unwrap();
    assert_eq!(q.value(), 2);
}

#[test]
fn unsupported_root_orders_fail() {
    let field = Field::new(FIELD_PRIME);
    assert_eq!(field.primitive_nth_root(3), Err(FieldError::UnsupportedOrder));
    assert_eq!(field.primitive_nth_root(0), Err(FieldError::UnsupportedOrder));
    assert_eq!(field.primitive_nth_root(1u128 << 120), Err(FieldError::UnsupportedOrder));
    let r16 = field.primitive_nth_root(16).unwrap();
    assert_eq!(r16.pow(16).value(), 1);
}

#[test]
fn sample_is_deterministic_and_big_endian() {
    let field = Field::new(FIELD_PRIME);
    assert_eq!(field.sample(vec![]).value(), 0);
    assert_eq!(field.sample(vec![1]).value(), 1);
    assert_eq!(field.sample(vec![1, 0]).value(), 256);
    assert_eq!(field.sample(vec![1, 2, 3]).value(), 65536 + 2 * 256 + 3);
    let a = field.sample(vec![9, 8, 7, 6, 5]);
    let b = field.sample(vec![9, 8, 7, 6, 5]);
    assert_eq!(a.value(), b.value());
    let c = field.sample(vec![9, 8, 7, 6, 4]);
    assert_ne!(a.value(), c.value());
}

#[test]
fn serialization_round_trips() {
    let elems = vec![
        FieldElement::new(0),
        FieldElement::new(1),
        FieldElement::new(0x0123456789abcdef),
        FieldElement::new(FIELD_PRIME - 1),
    ];
    let bytes = FieldElement::elements_as_bytes(&elems);
    assert_eq!(bytes.len(), 64);
    let back = FieldElement::bytes_as_elements(&bytes).unwrap();
    assert_eq!(back.len(), elems.len());
    for (x, y) in elems.iter().zip(back.iter()) {
        assert_eq!(x.value(), y.value());
    }
}

#[test]
fn element_bytes_are_little_endian() {
    let e = FieldElement::new(0x0102);
    let bytes = e.to_bytes();
    assert_eq!(bytes[0], 0x02);
    assert_eq!(bytes[1], 0x01);
    for t in 2..16 {
        assert_eq!(bytes[t], 0);
    }
}

#[test]
fn deserialization_rejects_bad_input() {
    let short = vec![0u8; 15];
    assert!(matches!(
        FieldElement::bytes_as_elements(&short),
        Err(DeserializationError::InvalidValue(_))
    ));
    let too_big = vec![0xffu8; 16];
    assert!(matches!(
        FieldElement::bytes_as_elements(&too_big),
        Err(DeserializationError::InvalidValue(_))
    ));
}

use rox_lib::value::{negate_number, number_less, numbers_equal, Value};

fn bits(x: f64) -> u64 {
    x.to_bits()
}

fn samples() -> Vec<f64> {
    vec![
        0.0,
        -0.0,
        1.0,
        -1.0,
        1.5,
        -1.5,
        0.001,
        -0.001,
        123.0,
        1e300,
        -1e300,
        5e-324,
        -5e-324,
        f64::MAX,
        f64::MIN,
        f64::INFINITY,
        f64::NEG_INFINITY,
        f64::NAN,
        -f64::NAN,
    ]
}

#[test]
fn value_is_falsey() {
    assert!(Value::Nil.is_falsey());
    assert!(Value::Boolean(false).is_falsey());
}

#[test]
fn value_is_truthy() {
    assert_eq!(Value::Boolean(true).is_falsey(), false);
    assert_eq!(Value::Number(bits(0.0)).is_falsey(), false);
}

#[test]
fn value_into_valid_number() {
    let result: f64 = f64::from_bits(Value::Number(bits(1.0)).into_number());

    assert_eq!(result, 1.0);
}

#[test]
fn value_empty_string_and_zero_are_truthy() {
    assert_eq!(Value::String(String::new()).is_falsey(), false);
    assert_eq!(Value::Number(bits(-0.0)).is_falsey(), false);
    assert_eq!(Value::String(String::from("false")).is_falsey(), false);
}

#[test]
fn numbers_equal_agrees_with_doubles() {
    for a in samples() {
        for b in samples() {
            assert_eq!(numbers_equal(bits(a), bits(b)), a == b, "{} == {}", a, b);
        }
    }
}

#[test]
fn number_less_agrees_with_doubles() {
    for a in samples() {
        for b in samples() {
            assert_eq!(number_less(bits(a), bits(b)), a < b, "{} < {}", a, b);
        }
    }
}

#[test]
fn negate_number_agrees_with_doubles() {
    for a in samples() {
        assert_eq!(negate_number(bits(a)), bits(-a), "-({})", a);
    }
}

#[test]
fn negate_number_flips_only_the_sign() {
    assert_eq!(negate_number(bits(1.0)), bits(-1.0));
    assert_eq!(negate_number(bits(-0.0)), bits(0.0));
    assert_eq!(negate_number(0x7FF8_0000_0000_0001), 0xFFF8_0000_0000_0001);
    assert_ne!(negate_number(bits(2.5)), bits(2.5));
}

#[test]
fn value_equality_is_reflexive_except_for_nan() {
    let values = vec![
        Value::Nil,
        Value::Boolean(true),
        Value::Boolean(false),
        Value::Number(bits(0.0)),
        Value::Number(bits(-7.25)),
        Value::Number(bits(f64::INFINITY)),
        Value::String(String::new()),
        Value::String(String::from("a")),
    ];
    for v in &values {
        assert!(v.equals(v));
        assert!(v == v);
    }
    let nan = Value::Number(bits(f64::NAN));
    assert!(!nan.equals(&nan));
}

#[test]
fn value_equality_compares_variant_and_payload() {
    assert!(Value::String(String::from("a")).equals(&Value::String(String::from("a"))));
    assert!(!Value::String(String::from("a")).equals(&Value::String(String::from("b"))));
    assert!(!Value::Number(bits(1.0)).equals(&Value::String(String::from("1"))));
    assert!(!Value::Nil.equals(&Value::Boolean(false)));
    assert!(Value::Number(bits(0.0)).equals(&Value::Number(bits(-0.0))));
    assert!(!Value::Boolean(true).equals(&Value::Boolean(false)));
}

#[test]
fn value_clone_is_equal() {
    let v = Value::String(String::from("hi"));
    assert_eq!(v.clone(), v);
    let n = Value::Number(bits(3.5));
    assert_eq!(n.clone(), n);
}

#[test]
fn value_to_text() {
    assert_eq!(Value::Nil.to_text(), Some(String::from("nil")));
    assert_eq!(Value::Boolean(true).to_text(), Some(String::from("true")));
    assert_eq!(Value::Boolean(false).to_text(), Some(String::from("false")));
    assert_eq!(Value::String(String::from("a b")).to_text(), Some(String::from("a b")));
    assert_eq!(Value::Number(bits(1.0)).to_text(), None);
}

#[test]
fn value_kind_tests() {
    assert!(Value::Number(bits(1.0)).is_number());
    assert!(!Value::Nil.is_number());
    assert!(Value::String(String::from("x")).is_string());
    assert!(!Value::Number(bits(1.0)).is_string());
}

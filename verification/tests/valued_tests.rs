use register_rs::register::RegisterError;
use register_rs::valued::{from_value, try_from_value, try_into_value, valued_arms, variant_of};

fn some_state() -> Vec<Option<u64>> {
    vec![Some(0), Some(1), None]
}

#[test]
fn arms_skip_unvalued_variants() {
    assert_eq!(valued_arms(&some_state()), vec![(0, 0), (1, 1)]);
    assert_eq!(valued_arms(&vec![None, Some(7), None, Some(3)]), vec![(1, 7), (3, 3)]);
}

#[test]
fn try_conversions() {
    let v = some_state();
    assert_eq!(try_from_value(&v, 0), Ok(0));
    assert_eq!(try_from_value(&v, 1), Ok(1));
    assert_eq!(try_from_value(&v, 2), Err(RegisterError::ConversionError));
    assert_eq!(try_into_value(&v, 0), Ok(0));
    assert_eq!(try_into_value(&v, 1), Ok(1));
    assert_eq!(try_into_value(&v, 2), Err(RegisterError::InvalidConfiguration));
}

#[test]
fn first_variant_wins() {
    let v = vec![Some(4), Some(4)];
    assert_eq!(variant_of(&v, 4), Some(0));
    assert_eq!(variant_of(&v, 5), None);
}

#[test]
fn infallible_conversion_uses_default() {
    let v = vec![Some(0), Some(1), Some(2), None];
    assert_eq!(from_value(&v, Some(3), 2), Some(2));
    assert_eq!(from_value(&v, Some(3), 3), Some(3));
    assert_eq!(from_value(&v, None, 3), None);
}

#[test]
fn value_and_variant_round_trips() {
    let v = vec![Some(10), None, Some(20), Some(30)];
    for x in 0..40u64 {
        if let Ok(i) = try_from_value(&v, x) {
            assert_eq!(try_into_value(&v, i), Ok(x));
        }
    }
    for i in 0..v.len() {
        if let Ok(x) = try_into_value(&v, i) {
            assert_eq!(try_from_value(&v, x), Ok(i));
        }
    }
}

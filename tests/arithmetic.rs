use microns::{Microns, MicronsError};
use std::collections::hash_map::DefaultHasher;
use std::hash::{Hash, Hasher};

fn hash_of(m: Microns) -> u64 {
    let mut h = DefaultHasher::new();
    m.hash(&mut h);
    h.finish()
}

#[test]
fn test_add() {
    let a = Microns(1);
    let b = Microns(2);
    let c = a + b;
    assert_eq!(c, Microns(3));
}

#[test]
fn test_sub() {
    let a = Microns(1);
    let b = Microns(2);
    let c = a - b;
    assert_eq!(c, Microns(-1));
}

#[test]
fn test_abs() {
    assert_eq!(Microns(-1).abs(), Microns(1));
    assert_eq!(Microns(-1111).abs(), Microns(1111));
    assert_eq!(Microns(0).abs(), Microns(0));
    assert_eq!(Microns(666).abs(), Microns(666));
}

#[test]
fn abs_of_least_value_saturates() {
    assert_eq!(Microns::min_value().abs(), Microns::max_value());
    assert_eq!(Microns(i32::MIN + 1).abs(), Microns(i32::MAX));
}

#[test]
fn bounds_and_zero() {
    assert_eq!(Microns::zero(), Microns(0));
    assert_eq!(Microns::min_value(), Microns(i32::MIN));
    assert_eq!(Microns::max_value(), Microns(i32::MAX));
    assert_eq!(Microns::default(), Microns::zero());
}

#[test]
fn adding_zero_and_subtracting_self() {
    for v in [Microns(0), Microns(-7), Microns(1234), Microns::min_value(), Microns::max_value()] {
        assert_eq!(v + Microns::zero(), v);
        assert_eq!(v - v, Microns::zero());
    }
}

#[test]
fn sum_at_the_edges() {
    assert_eq!(Microns(i32::MAX - 1) + Microns(1), Microns::max_value());
    assert_eq!(Microns(i32::MIN + 1) - Microns(1), Microns::min_value());
}

#[test]
fn product_of_raw_values() {
    assert_eq!(Microns(3) * Microns(-4), Microns(-12));
    assert_eq!(Microns(1000) * Microns(1000), Microns(1_000_000));
    assert_eq!(Microns(0) * Microns::max_value(), Microns(0));
}

#[test]
fn quotient_truncates_toward_zero() {
    assert_eq!(Microns(10) / Microns(2), Ok(Microns(5)));
    assert_eq!(Microns(7) / Microns(2), Ok(Microns(3)));
    assert_eq!(Microns(-7) / Microns(2), Ok(Microns(-3)));
    assert_eq!(Microns(7) / Microns(-2), Ok(Microns(-3)));
    assert_eq!(Microns(-7) / Microns(-2), Ok(Microns(3)));
    assert_eq!(Microns(1) / Microns(2), Ok(Microns(0)));
}

#[test]
fn divide_by_zero_fails() {
    assert_eq!(Microns(1) / Microns(0), Err(MicronsError::DivideByZero));
    assert_eq!(Microns(0) / Microns(0), Err(MicronsError::DivideByZero));
}

#[test]
fn quotient_out_of_range_fails() {
    assert_eq!(Microns::min_value() / Microns(-1), Err(MicronsError::OutOfRange));
    assert_eq!(Microns::min_value() / Microns(1), Ok(Microns::min_value()));
}

#[test]
fn order_and_equality_follow_raw() {
    let values = [Microns(-5), Microns(0), Microns(3), Microns(3), Microns::max_value()];
    for a in values {
        for b in values {
            assert_eq!(a < b, a.0 < b.0);
            assert_eq!(a <= b, a.0 <= b.0);
            assert_eq!(a > b, a.0 > b.0);
            assert_eq!(a == b, a.0 == b.0);
            assert_eq!(a.cmp(&b), a.0.cmp(&b.0));
            if a == b {
                assert_eq!(hash_of(a), hash_of(b));
            }
        }
    }
}

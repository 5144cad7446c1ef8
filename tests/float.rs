use microns::float::float_in_range;
use microns::{Microns, MicronsError};

fn from(x: f32) -> Result<Microns, MicronsError> {
    Microns::from_f32_bits(x.to_bits())
}

#[test]
fn test_add_f32() {
    let a = Microns(1);
    let b: f32 = 0.002;
    let c = a.add_f32_bits(b.to_bits());
    assert_eq!(c, Ok(Microns(3)));
}

#[test]
fn test_sub_f32() {
    let a = Microns(1);
    let b: f32 = 0.002;
    let c = a.sub_f32_bits(b.to_bits());
    assert_eq!(c, Ok(Microns(-1)));
}

#[test]
fn test_from_f32() {
    let a: f32 = 0.001;
    let b = Microns::from_f32_bits(a.to_bits());
    assert_eq!(b, Ok(Microns(1)));
}

#[test]
fn conversion_truncates_toward_zero() {
    assert_eq!(from(0.0019), Ok(Microns(1)));
    assert_eq!(from(-0.0019), Ok(Microns(-1)));
    assert_eq!(from(0.0009), Ok(Microns(0)));
    assert_eq!(from(-0.0009), Ok(Microns(0)));
    assert_eq!(from(1.5), Ok(Microns(1500)));
    assert_eq!(from(-2.25), Ok(Microns(-2250)));
    assert_eq!(from(0.0), Ok(Microns(0)));
    assert_eq!(from(-0.0), Ok(Microns(0)));
}

#[test]
fn conversion_matches_float_product() {
    for x in [0.007f32, 0.003, 12.345, -12.345, 1234.567, 0.1, 2147483.5, -2147483.5, 1e-40, 3.3e-5] {
        let expected = (x * 1000.0).trunc() as i32;
        assert_eq!(from(x), Ok(Microns(expected)), "{}", x);
    }
}

#[test]
fn range_boundary() {
    let bound: f32 = 2147483.75;
    assert_eq!(bound, i32::MAX as f32 / 1000.0);
    assert_eq!(-bound, i32::MIN as f32 / 1000.0);
    assert!(!float_in_range(bound.to_bits()));
    assert!(!float_in_range((-bound).to_bits()));
    assert!(float_in_range(2147483.5f32.to_bits()));
    assert!(float_in_range((-2147483.5f32).to_bits()));
    assert!(!float_in_range(1e10f32.to_bits()));
    assert!(!float_in_range(f32::NAN.to_bits()));
    assert!(!float_in_range(f32::INFINITY.to_bits()));
    assert!(!float_in_range(f32::NEG_INFINITY.to_bits()));
    assert!(float_in_range(f32::MIN_POSITIVE.to_bits()));
    assert_eq!(from(bound), Err(MicronsError::OutOfRange));
    assert_eq!(from(f32::NAN), Err(MicronsError::OutOfRange));
    assert_eq!(from(2147483.5), Ok(Microns(2147483520)));
    assert_eq!(from(-2147483.5), Ok(Microns(-2147483520)));
}

#[test]
fn float_scalar_sum_out_of_range() {
    assert_eq!(Microns::max_value().add_f32_bits(0.001f32.to_bits()), Err(MicronsError::OutOfRange));
    assert_eq!(Microns::min_value().sub_f32_bits(0.001f32.to_bits()), Err(MicronsError::OutOfRange));
    assert_eq!(Microns(5).add_f32_bits(f32::NAN.to_bits()), Err(MicronsError::OutOfRange));
}

fn to_f32(m: Microns) -> f32 {
    f32::from_bits(m.to_f32_bits())
}

#[test]
fn test_into_f32() {
    let a = Microns(1);
    let b: f32 = to_f32(a);
    assert_eq!(b, 0.001);
}

#[test]
fn test_mul_f32() {
    let a = Microns(1);
    let b: f32 = 2.0;
    let c = a.mul_f32_bits(b.to_bits());
    assert_eq!(c, Ok(Microns(2)));
}

#[test]
fn test_div_f32() {
    let a = Microns(1);
    let b: f32 = 2.0;
    let c = a.div_f32_bits(b.to_bits());
    assert_eq!(c, Ok(Microns(0)));
    let a = Microns(10);
    let b: f32 = 2.0;
    let c = a.div_f32_bits(b.to_bits());
    assert_eq!(c, Ok(Microns(5)));
}

fn sample_raws() -> Vec<i32> {
    let mut v: Vec<i32> = (-3000..3000).collect();
    let mut x: i64 = 7;
    while x < i32::MAX as i64 {
        v.push(x as i32);
        v.push(-(x as i32));
        v.push((x + 1) as i32);
        x = x * 3 + 1;
    }
    v.extend([i32::MAX, i32::MIN, i32::MAX - 1, i32::MIN + 1, 16_777_217, -16_777_217, 123_456_789]);
    v
}

#[test]
fn to_float_matches_float_division() {
    for raw in sample_raws() {
        let expected = raw as f32 / 1000.0;
        assert_eq!(Microns(raw).to_f32_bits(), expected.to_bits(), "{}", raw);
    }
    assert_eq!(Microns(0).to_f32_bits(), 0);
    assert_eq!(to_f32(Microns::max_value()), 2147483.75);
    assert_eq!(to_f32(Microns::min_value()), -2147483.75);
}

fn reference_from(x: f32) -> Result<Microns, MicronsError> {
    let bound = i32::MAX as f32 / 1000.0;
    let low = i32::MIN as f32 / 1000.0;
    if x.is_nan() || !(x > low && x < bound) {
        return Err(MicronsError::OutOfRange);
    }
    Ok(Microns((x * 1000.0).trunc() as i32))
}

#[test]
fn float_product_matches_f32_arithmetic() {
    let factors = [2.0f32, 0.5, -3.0, 1.1, 0.001, 1e-30, 1e30, 0.0, -0.0, 7.25, 1e-3, 123.456];
    for raw in sample_raws().into_iter().step_by(7) {
        for f in factors {
            let expected = reference_from(to_f32(Microns(raw)) * f);
            assert_eq!(Microns(raw).mul_f32_bits(f.to_bits()), expected, "{} * {}", raw, f);
        }
    }
    assert_eq!(Microns(1).mul_f32_bits(f32::INFINITY.to_bits()), Err(MicronsError::OutOfRange));
    assert_eq!(Microns(0).mul_f32_bits(f32::INFINITY.to_bits()), Err(MicronsError::OutOfRange));
    assert_eq!(Microns(1).mul_f32_bits(f32::NAN.to_bits()), Err(MicronsError::OutOfRange));
}

#[test]
fn float_quotient_matches_f32_arithmetic() {
    let divisors = [2.0f32, 0.5, -3.0, 1.1, 0.001, 1e-30, 1e30, 7.25, 1e-3, 123.456, 1e-45, 3.0];
    for raw in sample_raws().into_iter().step_by(7) {
        for d in divisors {
            let expected = reference_from(to_f32(Microns(raw)) / d);
            assert_eq!(Microns(raw).div_f32_bits(d.to_bits()), expected, "{} / {}", raw, d);
        }
    }
}

#[test]
fn float_quotient_edge_cases() {
    assert_eq!(Microns(5).div_f32_bits(0.0f32.to_bits()), Err(MicronsError::DivideByZero));
    assert_eq!(Microns(5).div_f32_bits((-0.0f32).to_bits()), Err(MicronsError::DivideByZero));
    assert_eq!(Microns(0).div_f32_bits(0.0f32.to_bits()), Err(MicronsError::DivideByZero));
    assert_eq!(Microns(5).div_f32_bits(f32::INFINITY.to_bits()), Ok(Microns(0)));
    assert_eq!(Microns(-5).div_f32_bits(f32::NEG_INFINITY.to_bits()), Ok(Microns(0)));
    assert_eq!(Microns(5).div_f32_bits(f32::NAN.to_bits()), Err(MicronsError::OutOfRange));
    assert_eq!(Microns(0).div_f32_bits(3.0f32.to_bits()), Ok(Microns(0)));
    assert_eq!(Microns::max_value().div_f32_bits(0.5f32.to_bits()), Err(MicronsError::OutOfRange));
}

#[test]
fn scalar_examples() {
    assert_eq!(Microns(1).mul_f32_bits(2.0f32.to_bits()), Ok(Microns(2)));
    assert_eq!(Microns(10).div_f32_bits(2.0f32.to_bits()), Ok(Microns(5)));
    assert_eq!(Microns(-1111).abs(), Microns(1111));
    assert_eq!(Microns(1).add_f32_bits(0.002f32.to_bits()), Ok(Microns(3)));
}

#[test]
fn round_trip_through_float() {
    for raw in -20_000..20_000 {
        let back = Microns::from_f32_bits(Microns(raw).to_f32_bits());
        assert_eq!(back, reference_from(raw as f32 / 1000.0), "{}", raw);
    }
    for raw in [0, 1, -1, 7, 999, 1000, -1234, 4096] {
        assert_eq!(Microns::from_f32_bits(Microns(raw).to_f32_bits()), Ok(Microns(raw)));
    }
    assert_eq!(Microns::from_f32_bits(Microns(-4095).to_f32_bits()), Ok(Microns(-4094)));
    assert_eq!(Microns::from_f32_bits(Microns(-16383).to_f32_bits()), Ok(Microns(-16382)));
}

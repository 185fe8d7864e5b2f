use cloudmon_metrics::float::Float;

fn float(x: f32) -> Float {
    Float { bits: x.to_bits() }
}

fn samples() -> Vec<f32> {
    vec![
        0.0,
        -0.0,
        1.0,
        -1.0,
        0.1,
        90.0,
        -90.5,
        f32::MIN_POSITIVE,
        -f32::MIN_POSITIVE,
        1.0e-45,
        -1.0e-45,
        f32::MAX,
        f32::MIN,
        f32::INFINITY,
        f32::NEG_INFINITY,
        f32::NAN,
        -f32::NAN,
        f32::from_bits(0x7f80_0001),
    ]
}

#[test]
fn float_comparisons_are_those_of_the_machine() {
    for a in samples() {
        for b in samples() {
            assert_eq!(float(a).lt(float(b)), a < b, "{} < {}", a, b);
            assert_eq!(float(a).gt(float(b)), a > b, "{} > {}", a, b);
            assert_eq!(float(a).number_eq(float(b)), a == b, "{} == {}", a, b);
        }
    }
}

#[test]
fn float_numbers_compare_in_one_way() {
    for a in samples() {
        for b in samples() {
            let held = [
                float(a).lt(float(b)),
                float(a).gt(float(b)),
                float(a).number_eq(float(b)),
            ];
            let count = held.iter().filter(|h| **h).count();
            assert_eq!(count, if a.is_nan() || b.is_nan() { 0 } else { 1 });
        }
    }
}

#[test]
fn float_zero_is_positive_zero() {
    assert_eq!(Float::zero().bits, 0.0f32.to_bits());
}

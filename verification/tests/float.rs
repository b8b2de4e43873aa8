use headroom::float::{Float32, Float64};

fn f32_of(x: f32) -> Float32 {
    Float32 { bits: x.to_bits() }
}

#[test]
fn binary32_numbers_are_ordered() {
    let numbers = [
        f32::NEG_INFINITY,
        f32::MIN,
        -1.0,
        -f32::MIN_POSITIVE,
        -1e-45,
        -0.0,
        0.0,
        1e-45,
        f32::MIN_POSITIVE,
        0.3,
        0.4,
        0.7,
        1.0,
        f32::MAX,
        f32::INFINITY,
        f32::NAN,
        -f32::NAN,
    ];
    for a in numbers {
        for b in numbers {
            assert_eq!(f32_of(a).at_least(f32_of(b)), a >= b, "{a} and {b}");
            assert_eq!(f32_of(a).below(f32_of(b)), a < b, "{a} and {b}");
        }
    }
}

#[test]
fn ratios_are_rounded_before_they_are_compared() {
    let third = Float64 {
        bits: (1.0f64 / 3.0).to_bits(),
    };
    assert!(third.at_most_ratio(1, 3));
    assert!(!third.below_ratio(1, 3));
    let next = Float64 {
        bits: (1.0f64 / 3.0).to_bits() + 1,
    };
    assert!(!next.at_most_ratio(1, 3));
}

#[test]
fn long_lengths_are_rounded_to_even() {
    let one = Float64 {
        bits: 1.0f64.to_bits(),
    };
    let limit: usize = 1 << 53;
    assert!(one.at_most_ratio(limit, limit + 1));
    assert!(!one.below_ratio(limit + 1, limit));
    assert!(one.below_ratio(limit + 3, limit + 1));
}

use audio_nodes::binary;

const VALUES: [f32; 22] = [
    0.0,
    -0.0,
    1.0,
    -1.0,
    0.5,
    -0.5,
    2.5,
    127.0,
    127.99999,
    128.0,
    1.0e-40,
    -1.0e-40,
    1.1754944e-38,
    1.1754942e-38,
    8388607.5,
    8388609.0,
    16777216.0,
    4.0e9,
    3.0e20,
    f32::MAX,
    f32::INFINITY,
    f32::NEG_INFINITY,
];

#[test]
fn floor_and_ceiling_of_numbers() {
    for value in VALUES {
        assert_eq!(binary::floor_index(value.to_bits()), value.floor() as usize, "{}", value);
        assert_eq!(binary::ceil_index(value.to_bits()), value.ceil() as usize, "{}", value);
    }
    assert_eq!(binary::floor_index(2.5f32.to_bits()), 2);
    assert_eq!(binary::ceil_index(2.5f32.to_bits()), 3);
}

#[test]
fn floor_and_ceiling_of_no_number() {
    assert_eq!(binary::floor_index(f32::NAN.to_bits()), 0);
    assert_eq!(binary::ceil_index(f32::NAN.to_bits()), 0);
    assert_eq!(binary::double_ceil_index(f64::NAN.to_bits()), 0);
}

#[test]
fn indices_saturate() {
    assert_eq!(binary::floor_index(f32::MAX.to_bits()), usize::MAX);
    assert_eq!(binary::ceil_index(f32::INFINITY.to_bits()), usize::MAX);
    assert_eq!(binary::ceil_index((-7.5f32).to_bits()), 0);
}

#[test]
fn order_of_numbers() {
    for a in VALUES {
        for b in VALUES {
            let greatest = f32::from_bits(binary::maximum(a.to_bits(), b.to_bits()));
            assert_eq!(greatest, a.max(b));
            assert_eq!(binary::equal(a.to_bits(), b.to_bits()), a == b);
        }
    }
}

#[test]
fn order_leaves_out_what_is_no_number() {
    let nan = f32::NAN.to_bits();
    let one = 1.0f32.to_bits();
    assert_eq!(binary::maximum(nan, one), one);
    assert_eq!(binary::maximum(one, nan), one);
    assert!(!binary::equal(nan, nan));
    assert!(binary::is_nan(nan));
    assert!(!binary::is_nan(one));
}

#[test]
fn zero_has_two_signs() {
    assert!(binary::is_zero(0.0f32.to_bits()));
    assert!(binary::is_zero((-0.0f32).to_bits()));
    assert!(!binary::is_zero(1.0e-40f32.to_bits()));
    assert!(binary::equal(0.0f32.to_bits(), (-0.0f32).to_bits()));
}

#[test]
fn normal_numbers_begin_at_the_smallest_normal_one() {
    assert!(binary::is_normal(f32::MIN_POSITIVE.to_bits()));
    assert!(binary::is_normal((-f32::MIN_POSITIVE).to_bits()));
    assert!(!binary::is_normal(1.1754942e-38f32.to_bits()));
    assert!(!binary::is_normal(0.0f32.to_bits()));
    assert!(!binary::is_normal(f32::NAN.to_bits()));
    assert!(binary::is_normal(f32::INFINITY.to_bits()));
}

#[test]
fn one_is_the_number_it_is_named_after() {
    assert_eq!(binary::ONE, 1.0f32.to_bits());
}

#[test]
fn numbers_of_double_precision() {
    let values: [f64; 12] = [
        0.0,
        -0.0,
        1.0e-310,
        0.25,
        344.53125,
        -344.5,
        4503599627370495.5,
        9007199254740993.0,
        1.8446744073709552e19,
        1.0e300,
        f64::INFINITY,
        f64::NEG_INFINITY,
    ];
    for a in values {
        assert_eq!(binary::double_ceil_index(a.to_bits()), a.ceil() as usize, "{}", a);
        assert_eq!(binary::double_is_infinite(a.to_bits()), a.is_infinite());
        for b in values {
            let greatest = f64::from_bits(binary::double_maximum(a.to_bits(), b.to_bits()));
            assert_eq!(greatest, a.max(b));
        }
    }
    let nan = f64::NAN.to_bits();
    assert_eq!(binary::double_maximum(nan, 1.0f64.to_bits()), 1.0f64.to_bits());
    assert_eq!(binary::double_maximum(1.0f64.to_bits(), nan), 1.0f64.to_bits());
    assert!(!binary::double_is_infinite(nan));
}

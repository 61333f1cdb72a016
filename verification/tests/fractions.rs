use quarterpastmarch::fraction::{Fraction, HALF_BITS, ONE_BITS, QUARTER_BITS};

fn fraction(value: f32) -> Fraction {
    Fraction::from_bits(value.to_bits()).unwrap()
}

fn in_floats(days: u16, value: f32) -> u16 {
    (days as f32 * value).floor() as u16
}

#[test]
fn from_bits_takes_what_lies_between_zero_and_one() {
    assert!(Fraction::from_bits(0.25f32.to_bits()).is_some());
    assert!(Fraction::from_bits(0.5f32.to_bits()).is_some());
    assert!(Fraction::from_bits(1).is_some());
    assert!(Fraction::from_bits(ONE_BITS - 1).is_some());
    assert_eq!(Fraction::from_bits(0.25f32.to_bits()).unwrap().bits(), 0x3E80_0000);
    assert_eq!(Fraction::from_bits(0.5f32.to_bits()).unwrap().bits(), 0x3F00_0000);
}

#[test]
fn from_bits_rejects_the_rest() {
    assert!(Fraction::from_bits(0).is_none());
    assert!(Fraction::from_bits(1.0f32.to_bits()).is_none());
    assert!(Fraction::from_bits(ONE_BITS).is_none());
    assert!(Fraction::from_bits(1.5f32.to_bits()).is_none());
    assert!(Fraction::from_bits((-0.25f32).to_bits()).is_none());
    assert!(Fraction::from_bits((-0.0f32).to_bits()).is_none());
    assert!(Fraction::from_bits(f32::NAN.to_bits()).is_none());
    assert!(Fraction::from_bits(f32::INFINITY.to_bits()).is_none());
    assert!(Fraction::from_bits(u32::MAX).is_none());
}

#[test]
fn of_days_takes_quarters_and_halves() {
    assert_eq!(fraction(0.25).of_days(335), 83);
    assert_eq!(fraction(0.5).of_days(335), 167);
    assert_eq!(fraction(0.25).of_days(334), 83);
    assert_eq!(fraction(0.5).of_days(334), 167);
    assert_eq!(fraction(0.25).of_days(30), 7);
    assert_eq!(fraction(0.5).of_days(30), 15);
    assert_eq!(fraction(0.5).of_days(1), 0);
    assert_eq!(fraction(0.5).of_days(0), 0);
    assert_eq!(fraction(0.75).of_days(4), 3);
}

#[test]
fn of_days_rounds_as_single_precision_does() {
    // 0.7 in single precision lies just below seven tenths, and 310 times it
    // rounds up to exactly 217.
    assert_eq!(fraction(0.7).of_days(310), 217);
    assert_eq!(in_floats(310, 0.7), 217);
    // The largest number below one.
    let almost_one = f32::from_bits(ONE_BITS - 1);
    assert_eq!(fraction(almost_one).of_days(335), 334);
    assert_eq!(fraction(almost_one).of_days(256), 255);
    assert_eq!(fraction(almost_one).of_days(257), 256);
    assert_eq!(fraction(almost_one).of_days(1), 0);
    assert_eq!(fraction(almost_one).of_days(u16::MAX), u16::MAX - 1);
}

#[test]
fn of_days_of_tiny_fractions_is_nothing() {
    assert_eq!(Fraction::from_bits(1).unwrap().of_days(u16::MAX), 0);
    assert_eq!(fraction(f32::MIN_POSITIVE).of_days(366), 0);
    assert_eq!(fraction(1.0e-3).of_days(366), 0);
    assert_eq!(fraction(1.0e-3).of_days(1000), in_floats(1000, 1.0e-3));
}

#[test]
fn of_days_agrees_with_float_arithmetic() {
    let values = [
        0.1f32, 0.2, 0.3, 0.4, 0.6, 0.7, 0.8, 0.9, 0.25, 0.5, 0.75, 0.125, 0.333_333_34,
        0.666_666_7, 0.01, 0.99, 0.999, 0.001, 0.142_857_15, 0.015_625, 0.000_123,
    ];
    for value in values {
        let held = fraction(value);
        for days in 0..=800u16 {
            assert_eq!(held.of_days(days), in_floats(days, value), "{} of {}", value, days);
        }
        for days in [1000u16, 4095, 4096, 4097, 10000, 32767, 32768, 65534, 65535] {
            assert_eq!(held.of_days(days), in_floats(days, value), "{} of {}", value, days);
        }
    }
}

#[test]
fn of_days_agrees_with_float_arithmetic_on_many_bit_patterns() {
    let mut bits: u32 = 0x3F7F_FFFF;
    let mut checked = 0;
    while bits > 0x3000_0000 {
        let value = f32::from_bits(bits);
        let held = Fraction::from_bits(bits).unwrap();
        for days in [1u16, 2, 3, 7, 30, 61, 92, 122, 153, 184, 214, 245, 275, 306, 334, 335, 366] {
            assert_eq!(held.of_days(days), in_floats(days, value), "{:#x} of {}", bits, days);
        }
        bits -= 104_729;
        checked += 1;
    }
    assert!(checked > 2000);
}

#[test]
fn of_days_is_never_more_than_the_days() {
    for bits in [1u32, 0x0080_0000, 0x3E80_0000, 0x3F00_0000, 0x3F7F_FFFF] {
        let held = Fraction::from_bits(bits).unwrap();
        for days in [0u16, 1, 2, 335, 366, 65535] {
            assert!(held.of_days(days) <= days);
        }
    }
}

#[test]
fn quarters_and_halves_are_whole_divisions() {
    let quarter = Fraction::from_bits(QUARTER_BITS).unwrap();
    let half = Fraction::from_bits(HALF_BITS).unwrap();
    let eighth = fraction(0.125);
    for days in 0..=u16::MAX {
        assert_eq!(quarter.of_days(days), days / 4);
        assert_eq!(half.of_days(days), days / 2);
        assert_eq!(eighth.of_days(days), days / 8);
    }
}

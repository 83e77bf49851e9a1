use plotrat::scalar::{nan, negate, zero, INFINITY, ONE, SIGN};
use plotrat::text::{chars_of, digit, letter, numeral_char, reserved, space};
use plotrat::{Builtin, Operator};

#[test]
fn bit_patterns_of_zero() {
    assert!(zero(0.0f32.to_bits()));
    assert!(zero((-0.0f32).to_bits()));
    assert!(!zero(f32::MIN_POSITIVE.to_bits()));
    assert!(!zero(1.0f32.to_bits()));
    assert!(!zero(f32::from_bits(1).to_bits()));
    assert_eq!(SIGN, (-0.0f32).to_bits());
    assert_eq!(ONE, 1.0f32.to_bits());
    assert_eq!(INFINITY, f32::INFINITY.to_bits());
}

#[test]
fn bit_patterns_of_no_number() {
    assert!(nan(f32::NAN.to_bits()));
    assert!(nan((-f32::NAN).to_bits()));
    assert!(nan(0x7f80_0001));
    assert!(nan(0xffff_ffff));
    assert!(!nan(f32::INFINITY.to_bits()));
    assert!(!nan(f32::NEG_INFINITY.to_bits()));
    assert!(!nan(f32::MAX.to_bits()));
    assert!(!nan(0));
    for bits in [0u32, 1, 0x3f80_0000, 0x7f7f_ffff, 0x7f80_0000, 0x7fc0_0000, 0xff80_0000, 0xffc0_0001] {
        assert_eq!(nan(bits), f32::from_bits(bits).is_nan());
    }
}

#[test]
fn negation_flips_the_sign() {
    for x in [0.0f32, -0.0, 1.5, -2.25, f32::INFINITY, f32::MIN_POSITIVE, f32::MAX] {
        assert_eq!(negate(x.to_bits()), (-x).to_bits());
        assert_eq!(negate(negate(x.to_bits())), x.to_bits());
    }
    assert_eq!(negate(f32::NAN.to_bits()), (-f32::NAN).to_bits());
}

#[test]
fn functions_by_name() {
    assert_eq!(Builtin::from_name("sin"), Some(Builtin::Sin));
    assert_eq!(Builtin::from_name("cos"), Some(Builtin::Cos));
    assert_eq!(Builtin::from_name("tan"), Some(Builtin::Tan));
    assert_eq!(Builtin::from_name("sqrt"), Some(Builtin::Sqrt));
    assert_eq!(Builtin::from_name("abs"), Some(Builtin::Abs));
    assert_eq!(Builtin::from_name("ln"), Some(Builtin::Ln));
    assert_eq!(Builtin::from_name("exp"), Some(Builtin::Exp));
    assert_eq!(Builtin::from_name("min"), Some(Builtin::Min));
    assert_eq!(Builtin::from_name("max"), Some(Builtin::Max));
    for other in ["", "s", "si", "sim", "sinh", "sqrs", "lm", "maxx", "f", "log"] {
        assert_eq!(Builtin::from_name(other), None);
    }
    assert_eq!(Builtin::Sin.arguments(), 1);
    assert_eq!(Builtin::Sqrt.arguments(), 1);
    assert_eq!(Builtin::Min.arguments(), 2);
    assert_eq!(Builtin::Max.arguments(), 2);
}

#[test]
fn operators_bind_and_group() {
    assert_eq!(Operator::Add.binds(), 1);
    assert_eq!(Operator::Sub.binds(), 1);
    assert_eq!(Operator::Mul.binds(), 3);
    assert_eq!(Operator::Div.binds(), 3);
    assert_eq!(Operator::Pow.binds(), 4);
    assert!(Operator::Pow.groups_right());
    assert!(!Operator::Add.groups_right());
    assert!(!Operator::Div.groups_right());
    for c in ['+', '-', '*', '/', '^'] {
        assert_eq!(Operator::from_char(c).unwrap().to_char(), c);
    }
}

#[test]
fn classes_of_characters() {
    for c in [' ', '\t', '\n', '\r', '\u{c}'] {
        assert!(space(c));
    }
    assert!(!space('\u{b}'));
    assert!(!space('a'));
    assert!(digit('0') && digit('9') && !digit('a') && !digit('.'));
    assert!(numeral_char('.') && numeral_char('5') && !numeral_char(','));
    assert!(letter('a') && letter('z') && !letter('A') && !letter('\u{3c0}') && !letter('1'));
    assert!(reserved('e') && reserved('\u{3c0}') && !reserved('x'));
    assert_eq!(chars_of("a\u{3c0}1"), vec!['a', '\u{3c0}', '1']);
}

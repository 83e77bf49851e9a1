use plotrat::{ComparisonOp, ComplexToken, MathParser, Numeral, Operator};

fn number(text: &str) -> ComplexToken {
    ComplexToken::Number(Numeral::new(text).unwrap())
}

#[test]
fn test_mathparser() {
    let string = "!=111=!=*+ - 143276 ^/";

    let result = MathParser::parse(string);

    println!("{:?}", result);
    assert_eq!(
        result,
        vec![
            ComplexToken::ComparisonOp(ComparisonOp::NotEqualTo),
            number("111"),
            ComplexToken::ComparisonOp(ComparisonOp::EqualTo),
            ComplexToken::ComparisonOp(ComparisonOp::NotEqualTo),
            ComplexToken::Operator(Operator::Mul),
            ComplexToken::Operator(Operator::Add),
            ComplexToken::Operator(Operator::Sub),
            number("143276"),
            ComplexToken::Operator(Operator::Pow),
            ComplexToken::Operator(Operator::Div),
        ]
    );
}

#[test]
fn implicit_multiplication_matches_explicit() {
    assert_eq!(MathParser::parse("2y"), MathParser::parse("2*y"));
    assert_eq!(
        MathParser::parse("2y"),
        vec![
            number("2"),
            ComplexToken::Operator(Operator::Mul),
            ComplexToken::Variable('y'),
        ]
    );
}

#[test]
fn comparison_characters_look_one_ahead() {
    assert_eq!(
        MathParser::parse("< <= > >= = != !"),
        vec![
            ComplexToken::ComparisonOp(ComparisonOp::LessThan),
            ComplexToken::ComparisonOp(ComparisonOp::LessThanOrEqualTo),
            ComplexToken::ComparisonOp(ComparisonOp::GreaterThan),
            ComplexToken::ComparisonOp(ComparisonOp::GreaterThanOrEqualTo),
            ComplexToken::ComparisonOp(ComparisonOp::EqualTo),
            ComplexToken::ComparisonOp(ComparisonOp::NotEqualTo),
            ComplexToken::Unknown('!'),
        ]
    );
    assert_eq!(
        MathParser::parse("< ="),
        vec![
            ComplexToken::ComparisonOp(ComparisonOp::LessThan),
            ComplexToken::ComparisonOp(ComparisonOp::EqualTo),
        ]
    );
}

#[test]
fn numbers_are_runs_of_digits_and_one_point() {
    assert_eq!(MathParser::parse("3.14"), vec![number("3.14")]);
    assert_eq!(MathParser::parse("5."), vec![number("5.")]);
    assert_eq!(MathParser::parse(".5"), vec![number(".5")]);
    assert_eq!(MathParser::parse("007"), vec![number("007")]);
    assert_eq!(MathParser::parse("1 2"), vec![number("1"), number("2")]);
    assert_eq!(MathParser::parse("1.2.3"), vec![ComplexToken::Unknown('.')]);
    assert_eq!(MathParser::parse("."), vec![ComplexToken::Unknown('.')]);
    assert_eq!(
        MathParser::parse("1..2+3"),
        vec![
            ComplexToken::Unknown('.'),
            ComplexToken::Operator(Operator::Add),
            number("3"),
        ]
    );
}

#[test]
fn numerals_are_checked() {
    assert!(Numeral::new("12.5").is_some());
    assert_eq!(Numeral::new("12.5").unwrap().as_str(), "12.5");
    assert!(Numeral::new("").is_none());
    assert!(Numeral::new(".").is_none());
    assert!(Numeral::new("1.2.3").is_none());
    assert!(Numeral::new("1e5").is_none());
    assert!(Numeral::new("-1").is_none());
}

#[test]
fn letters_are_variables_constants_and_functions() {
    assert_eq!(
        MathParser::parse("xy"),
        vec![ComplexToken::Variable('x'), ComplexToken::Variable('y')]
    );
    assert_eq!(
        MathParser::parse("e\u{3c0}"),
        vec![ComplexToken::Constant('e'), ComplexToken::Constant('\u{3c0}')]
    );
    assert_eq!(
        MathParser::parse("sin(x)"),
        vec![
            ComplexToken::Function("sin".to_string()),
            ComplexToken::LeftParenthesis,
            ComplexToken::Variable('x'),
            ComplexToken::RightParenthesis,
        ]
    );
    assert_eq!(
        MathParser::parse("f (x)"),
        vec![
            ComplexToken::Variable('f'),
            ComplexToken::LeftParenthesis,
            ComplexToken::Variable('x'),
            ComplexToken::RightParenthesis,
        ]
    );
    assert_eq!(
        MathParser::parse("X,"),
        vec![ComplexToken::Unknown('X'), ComplexToken::Comma]
    );
}

#[test]
fn multiplication_is_put_between_operands() {
    assert_eq!(
        MathParser::parse("2(3)(4)e f(1)"),
        vec![
            number("2"),
            ComplexToken::Operator(Operator::Mul),
            ComplexToken::LeftParenthesis,
            number("3"),
            ComplexToken::RightParenthesis,
            ComplexToken::Operator(Operator::Mul),
            ComplexToken::LeftParenthesis,
            number("4"),
            ComplexToken::RightParenthesis,
            ComplexToken::Operator(Operator::Mul),
            ComplexToken::Constant('e'),
            ComplexToken::Function("f".to_string()),
            ComplexToken::LeftParenthesis,
            number("1"),
            ComplexToken::RightParenthesis,
        ]
    );
    assert_eq!(
        MathParser::parse("x2"),
        vec![ComplexToken::Variable('x'), number("2")]
    );
}

#[test]
fn operator_characters() {
    assert_eq!(Operator::from_char('+'), Some(Operator::Add));
    assert_eq!(Operator::from_char('-'), Some(Operator::Sub));
    assert_eq!(Operator::from_char('*'), Some(Operator::Mul));
    assert_eq!(Operator::from_char('/'), Some(Operator::Div));
    assert_eq!(Operator::from_char('^'), Some(Operator::Pow));
    assert_eq!(Operator::from_char('='), None);
    assert_eq!(ComparisonOp::from_char('<', true), Some(ComparisonOp::LessThanOrEqualTo));
    assert_eq!(ComparisonOp::from_char('>', true), Some(ComparisonOp::GreaterThanOrEqualTo));
    assert_eq!(ComparisonOp::from_char('!', true), Some(ComparisonOp::NotEqualTo));
    assert_eq!(ComparisonOp::from_char('<', false), Some(ComparisonOp::LessThan));
    assert_eq!(ComparisonOp::from_char('>', false), Some(ComparisonOp::GreaterThan));
    assert_eq!(ComparisonOp::from_char('=', false), Some(ComparisonOp::EqualTo));
    assert_eq!(ComparisonOp::from_char('=', true), None);
    assert_eq!(ComparisonOp::from_char('!', false), None);
}

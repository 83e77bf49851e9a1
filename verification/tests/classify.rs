use plotrat::{
    classify, to_postfix, CalculatableExpr, ComparisonOp, ExprType, MathParser, Numeral, Operator,
    PostfixToken, SimpleToken,
};

fn number(text: &str) -> SimpleToken {
    SimpleToken::Number(Numeral::new(text).unwrap())
}

fn literal(text: &str) -> PostfixToken {
    PostfixToken::Literal(Numeral::new(text).unwrap())
}

#[test]
fn function_definition() {
    let statement = classify(MathParser::parse("f(x)=x^2+1"));
    match statement {
        ExprType::FunctionDefinition { name, param, body } => {
            assert_eq!(name, "f");
            assert_eq!(param, 'x');
            assert_eq!(
                body,
                CalculatableExpr(vec![
                    SimpleToken::Variable('x'),
                    SimpleToken::Operator(Operator::Pow),
                    number("2"),
                    SimpleToken::Operator(Operator::Add),
                    number("1"),
                ])
            );
            assert_eq!(
                to_postfix(&body),
                Ok(vec![
                    PostfixToken::Variable('x'),
                    literal("2"),
                    PostfixToken::Binary(Operator::Pow),
                    literal("1"),
                    PostfixToken::Binary(Operator::Add),
                ])
            );
        }
        other => panic!("{:?}", other),
    }
}

#[test]
fn equation() {
    let statement = classify(MathParser::parse("2y-4=10"));
    assert_eq!(
        statement,
        ExprType::Equation {
            left: CalculatableExpr(vec![
                number("2"),
                SimpleToken::Operator(Operator::Mul),
                SimpleToken::Variable('y'),
                SimpleToken::Operator(Operator::Sub),
                number("4"),
            ]),
            op: ComparisonOp::EqualTo,
            right: CalculatableExpr(vec![number("10")]),
        }
    );
}

#[test]
fn equation_with_a_function_on_the_left() {
    match classify(MathParser::parse("g(y)*4=2y-4/10")) {
        ExprType::Equation { left, op, right } => {
            assert_eq!(op, ComparisonOp::EqualTo);
            assert_eq!(left.0.len(), 6);
            assert_eq!(right.0.len(), 7);
        }
        other => panic!("{:?}", other),
    }
    match classify(MathParser::parse("x<=3")) {
        ExprType::Equation { op, .. } => assert_eq!(op, ComparisonOp::LessThanOrEqualTo),
        other => panic!("{:?}", other),
    }
}

#[test]
fn a_definition_with_a_foreign_variable_is_an_equation() {
    match classify(MathParser::parse("f(x)=x+y")) {
        ExprType::Equation { left, .. } => assert_eq!(left.0.len(), 4),
        other => panic!("{:?}", other),
    }
    match classify(MathParser::parse("f(x)=2e+x")) {
        ExprType::FunctionDefinition { param, .. } => assert_eq!(param, 'x'),
        other => panic!("{:?}", other),
    }
}

#[test]
fn an_assignment_is_taken_as_an_equation() {
    match classify(MathParser::parse("x=5")) {
        ExprType::Equation { left, op, right } => {
            assert_eq!(left, CalculatableExpr(vec![SimpleToken::Variable('x')]));
            assert_eq!(op, ComparisonOp::EqualTo);
            assert_eq!(right, CalculatableExpr(vec![number("5")]));
        }
        other => panic!("{:?}", other),
    }
}

#[test]
fn calculable_expression() {
    match classify(MathParser::parse("2+3*4")) {
        ExprType::CalculableExpression(e) => assert_eq!(e.0.len(), 5),
        other => panic!("{:?}", other),
    }
    match classify(MathParser::parse("sqrt(2)e")) {
        ExprType::CalculableExpression(e) => assert_eq!(e.0.len(), 6),
        other => panic!("{:?}", other),
    }
    assert_eq!(
        classify(MathParser::parse("")),
        ExprType::CalculableExpression(CalculatableExpr(vec![]))
    );
}

#[test]
fn unrecognized() {
    assert_eq!(classify(MathParser::parse("2+x")), ExprType::Unrecognized);
    assert_eq!(classify(MathParser::parse("1=2=3")), ExprType::Unrecognized);
    assert_eq!(classify(MathParser::parse("2 # 3")), ExprType::Unrecognized);
    assert_eq!(classify(MathParser::parse("1.2.3")), ExprType::Unrecognized);
    assert_eq!(classify(MathParser::parse("2 = 3 ! 4")), ExprType::Unrecognized);
}

#[test]
fn a_comparison_inside_parentheses_does_not_split() {
    assert_eq!(classify(MathParser::parse("(1=2)")), ExprType::Unrecognized);
    assert_eq!(classify(MathParser::parse("(1<2)=3")), ExprType::Unrecognized);
    match classify(MathParser::parse(")1=2")) {
        ExprType::Equation { left, .. } => assert_eq!(left.0.len(), 2),
        other => panic!("{:?}", other),
    }
}

use plotrat::{
    classify, evaluate, to_postfix, Bindings, Builtin, CalculatableExpr, ComplexToken,
    ConvertError, EvalError, Evaluator, ExprType, MathParser, Numeral, Operator, PostfixToken,
    Progress, Request,
};

/// The arithmetic unit of these tests: single-precision arithmetic as the
/// machine does it.
fn compute(request: Request) -> u32 {
    let request = &request;
    let value = match request {
        Request::Convert(numeral) => numeral.as_str().parse::<f32>().unwrap(),
        Request::Lookup(letter) => match letter {
            'e' => std::f32::consts::E,
            '\u{3c0}' => std::f32::consts::PI,
            _ => f32::NAN,
        },
        Request::Operate { op, lhs, rhs } => {
            let (a, b) = (f32::from_bits(*lhs), f32::from_bits(*rhs));
            match op {
                Operator::Add => a + b,
                Operator::Sub => a - b,
                Operator::Mul => a * b,
                Operator::Div => a / b,
                Operator::Pow => a.powf(b),
            }
        }
        Request::Call1 { function, argument } => {
            let x = f32::from_bits(*argument);
            match function {
                Builtin::Sin => x.sin(),
                Builtin::Cos => x.cos(),
                Builtin::Tan => x.tan(),
                Builtin::Sqrt => x.sqrt(),
                Builtin::Abs => x.abs(),
                Builtin::Ln => x.ln(),
                Builtin::Exp => x.exp(),
                _ => f32::NAN,
            }
        }
        Request::Call2 { function, first, second } => {
            let (a, b) = (f32::from_bits(*first), f32::from_bits(*second));
            match function {
                Builtin::Min => a.min(b),
                Builtin::Max => a.max(b),
                _ => f32::NAN,
            }
        }
    };
    value.to_bits()
}

fn expression(text: &str) -> CalculatableExpr {
    let tokens: Vec<_> = MathParser::parse(text)
        .iter()
        .map(|t| t.to_simple().unwrap())
        .collect();
    CalculatableExpr(tokens)
}

fn value_of(text: &str) -> Result<f32, EvalError> {
    evaluate(to_postfix(&expression(text)).unwrap(), Bindings::new(), compute).map(f32::from_bits)
}

#[test]
fn precedence_and_grouping() {
    assert_eq!(value_of("2+3*4"), Ok(14.0));
    assert_eq!(value_of("2^3^2"), Ok(512.0));
    assert_eq!(value_of("(2+3)*4"), Ok(20.0));
    assert_eq!(value_of("10-4-3"), Ok(3.0));
    assert_eq!(value_of("2*3+4"), Ok(10.0));
    assert_eq!(value_of("8/4/2"), Ok(1.0));
    assert_eq!(value_of("1.5+.25"), Ok(1.75));
}

#[test]
fn unary_minus() {
    assert_eq!(value_of("-2+3"), Ok(1.0));
    assert_eq!(value_of("-2^2"), Ok(-4.0));
    assert_eq!(value_of("2+-3"), Ok(-1.0));
    assert_eq!(value_of("--2"), Ok(2.0));
    assert_eq!(value_of("(-2)^2"), Ok(4.0));
    assert_eq!(value_of("max(-1,-2)"), Ok(-1.0));
}

#[test]
fn unary_minus_yields_like_any_operator() {
    let postfix = to_postfix(&expression("2*-3")).unwrap();
    assert_eq!(postfix.len(), 4);
    assert_eq!(postfix[1], PostfixToken::Binary(Operator::Mul));
    assert_eq!(postfix[3], PostfixToken::Negate);
    let postfix = to_postfix(&expression("2+-3")).unwrap();
    assert_eq!(postfix[2], PostfixToken::Negate);
    assert_eq!(postfix[3], PostfixToken::Binary(Operator::Add));
}

#[test]
fn functions_are_applied() {
    assert_eq!(value_of("sqrt(16)"), Ok(4.0));
    assert_eq!(value_of("abs(2-5)"), Ok(3.0));
    assert_eq!(value_of("max(2,3)"), Ok(3.0));
    assert_eq!(value_of("min(2,3)+1"), Ok(3.0));
    assert_eq!(value_of("2sqrt(4)"), Ok(4.0));
    assert_eq!(value_of("cos(0)"), Ok(1.0));
}

#[test]
fn division_by_zero_is_an_error() {
    assert_eq!(value_of("5/0"), Err(EvalError::DivisionByZero));
    assert_eq!(value_of("5/(2-2)"), Err(EvalError::DivisionByZero));
    assert_eq!(value_of("5/(-0)"), Err(EvalError::DivisionByZero));
}

#[test]
fn unbound_variable_is_an_error() {
    assert_eq!(value_of("2+x"), Err(EvalError::UnboundVariable));
    let mut bindings = Bindings::new();
    bindings.bind('x', 3.0f32.to_bits());
    assert_eq!(
        evaluate(to_postfix(&expression("2+x")).unwrap(), bindings, compute),
        Ok(5.0f32.to_bits())
    );
}

#[test]
fn later_binding_replaces_earlier() {
    let mut bindings = Bindings::new();
    bindings.bind('x', 3.0f32.to_bits());
    bindings.bind('y', 1.0f32.to_bits());
    bindings.bind('x', 4.0f32.to_bits());
    assert_eq!(bindings.get('x'), Some(4.0f32.to_bits()));
    assert_eq!(bindings.get('y'), Some(1.0f32.to_bits()));
    assert_eq!(bindings.get('z'), None);
}

#[test]
fn invalid_operations_are_errors() {
    assert_eq!(value_of("(0-8)^0.5"), Err(EvalError::InvalidOperation));
    assert_eq!(value_of("sqrt(0-1)"), Err(EvalError::InvalidOperation));
    assert_eq!(value_of("2+"), Err(EvalError::InvalidOperation));
    assert_eq!(value_of("2 3"), Err(EvalError::InvalidOperation));
    assert_eq!(value_of(""), Err(EvalError::InvalidOperation));
    assert_eq!(value_of("sin(1,2)"), Err(EvalError::InvalidOperation));
    assert_eq!(value_of("max(1)"), Err(EvalError::InvalidOperation));
}

#[test]
fn unknown_function_is_an_error() {
    assert_eq!(value_of("g(2)"), Err(EvalError::UnknownFunction));
    assert_eq!(value_of("sinh(2)"), Err(EvalError::UnknownFunction));
}

#[test]
fn unbalanced_parentheses_are_an_error() {
    assert_eq!(
        to_postfix(&expression("(2+3")),
        Err(ConvertError::UnbalancedParentheses)
    );
    assert_eq!(
        to_postfix(&expression("max(2,3")),
        Err(ConvertError::UnbalancedParentheses)
    );
    assert_eq!(
        to_postfix(&expression("2+3)")),
        Err(ConvertError::UnbalancedParentheses)
    );
}

#[test]
fn misplaced_comma_is_an_error() {
    assert_eq!(
        to_postfix(&expression("2,3")),
        Err(ConvertError::MisplacedComma)
    );
    assert_eq!(
        to_postfix(&expression("(2,3)")),
        Err(ConvertError::MisplacedComma)
    );
    assert_eq!(
        to_postfix(&expression("max((2,3))")),
        Err(ConvertError::MisplacedComma)
    );
}

#[test]
fn first_fault_decides() {
    assert_eq!(
        to_postfix(&expression("2,3)")),
        Err(ConvertError::MisplacedComma)
    );
    assert_eq!(
        to_postfix(&expression("2),3")),
        Err(ConvertError::UnbalancedParentheses)
    );
}

#[test]
fn postfix_order_of_a_call() {
    let postfix = to_postfix(&expression("max(2,3)*x")).unwrap();
    let shown: Vec<String> = postfix.iter().map(|t| format!("{:?}", t)).collect();
    assert_eq!(postfix.len(), 5);
    assert_eq!(
        postfix[2],
        PostfixToken::Call { name: "max".to_string(), args: 2 }
    );
    assert_eq!(postfix[3], PostfixToken::Variable('x'));
    assert_eq!(postfix[4], PostfixToken::Binary(Operator::Mul));
    assert!(shown[0].contains("2") && shown[1].contains("3"));
}

#[test]
fn call_without_arguments_has_none() {
    let postfix = to_postfix(&expression("f()")).unwrap();
    assert_eq!(
        postfix,
        vec![PostfixToken::Call { name: "f".to_string(), args: 0 }]
    );
}

#[test]
fn classified_expression_evaluates() {
    match classify(MathParser::parse("2(3+4)")) {
        ExprType::CalculableExpression(e) => {
            assert_eq!(
                evaluate(to_postfix(&e).unwrap(), Bindings::new(), compute),
                Ok(14.0f32.to_bits())
            );
        }
        other => panic!("{:?}", other),
    }
    assert_eq!(
        MathParser::parse("2(3+4)")[1],
        ComplexToken::Operator(Operator::Mul)
    );
}

#[test]
fn evaluator_asks_one_question_at_a_time() {
    let postfix = to_postfix(&expression("2+3")).unwrap();
    let mut evaluator = Evaluator::new(postfix, Bindings::new());
    assert!(!evaluator.finished());
    assert_eq!(
        evaluator.advance(),
        Progress::Ask(Request::Convert(Numeral::new("2").unwrap()))
    );
    assert_eq!(
        evaluator.question(),
        Some(Request::Convert(Numeral::new("2").unwrap()))
    );
    evaluator.answer(2.0f32.to_bits());
    assert_eq!(
        evaluator.advance(),
        Progress::Ask(Request::Convert(Numeral::new("3").unwrap()))
    );
    evaluator.answer(3.0f32.to_bits());
    assert_eq!(
        evaluator.advance(),
        Progress::Ask(Request::Operate {
            op: Operator::Add,
            lhs: 2.0f32.to_bits(),
            rhs: 3.0f32.to_bits(),
        })
    );
    evaluator.answer(5.0f32.to_bits());
    assert_eq!(evaluator.advance(), Progress::Done(Ok(5.0f32.to_bits())));
    assert!(evaluator.finished());
    assert_eq!(evaluator.outcome(), Ok(5.0f32.to_bits()));
    evaluator.answer(9.0f32.to_bits());
    assert_eq!(evaluator.outcome(), Ok(5.0f32.to_bits()));
}

#[test]
fn an_answer_that_is_no_number_is_an_error() {
    let postfix = to_postfix(&expression("2")).unwrap();
    let mut evaluator = Evaluator::new(postfix, Bindings::new());
    evaluator.advance();
    evaluator.answer(f32::NAN.to_bits());
    assert_eq!(
        evaluator.advance(),
        Progress::Done(Err(EvalError::InvalidOperation))
    );
}

#[test]
fn values_and_the_unary_minus_need_no_question() {
    let postfix = vec![PostfixToken::Value(2.5f32.to_bits()), PostfixToken::Negate];
    let mut evaluator = Evaluator::new(postfix, Bindings::new());
    assert_eq!(evaluator.question(), None);
    assert_eq!(evaluator.advance(), Progress::Done(Ok((-2.5f32).to_bits())));
    let mut evaluator = Evaluator::new(vec![PostfixToken::Negate], Bindings::new());
    assert_eq!(
        evaluator.advance(),
        Progress::Done(Err(EvalError::InvalidOperation))
    );
    let zero = vec![PostfixToken::Value(0), PostfixToken::Negate];
    assert_eq!(
        evaluate(zero, Bindings::new(), compute),
        Ok((-0.0f32).to_bits())
    );
}

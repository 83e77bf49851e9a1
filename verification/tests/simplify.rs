use plotrat::{
    to_postfix, Builtin, CalculatableExpr, MathParser, Operator, PostfixToken, Progress, Request,
    Simplifier,
};

fn compute(request: Request) -> u32 {
    let request = &request;
    let value = match request {
        Request::Convert(numeral) => numeral.as_str().parse::<f32>().unwrap(),
        Request::Lookup(letter) => match letter {
            'e' => std::f32::consts::E,
            '\u{3c0}' => std::f32::consts::PI,
            _ => f32::NAN,
        },
        Request::Operate { op, lhs, rhs } => {
            let (a, b) = (f32::from_bits(*lhs), f32::from_bits(*rhs));
            match op {
                Operator::Add => a + b,
                Operator::Sub => a - b,
                Operator::Mul => a * b,
                Operator::Div => a / b,
                Operator::Pow => a.powf(b),
            }
        }
        Request::Call1 { function, argument } => {
            let x = f32::from_bits(*argument);
            match function {
                Builtin::Sin => x.sin(),
                Builtin::Cos => x.cos(),
                Builtin::Tan => x.tan(),
                Builtin::Sqrt => x.sqrt(),
                Builtin::Abs => x.abs(),
                Builtin::Ln => x.ln(),
                Builtin::Exp => x.exp(),
                _ => f32::NAN,
            }
        }
        Request::Call2 { function, first, second } => {
            let (a, b) = (f32::from_bits(*first), f32::from_bits(*second));
            match function {
                Builtin::Min => a.min(b),
                Builtin::Max => a.max(b),
                _ => f32::NAN,
            }
        }
    };
    value.to_bits()
}

fn postfix(text: &str) -> Vec<PostfixToken> {
    let tokens: Vec<_> = MathParser::parse(text)
        .iter()
        .map(|t| t.to_simple().unwrap())
        .collect();
    to_postfix(&CalculatableExpr(tokens)).unwrap()
}

fn simplify(postfix: Vec<PostfixToken>, parameter: char) -> Vec<PostfixToken> {
    plotrat::simplify(postfix, parameter, compute)
}

fn value(x: f32) -> PostfixToken {
    PostfixToken::Value(x.to_bits())
}

fn x() -> PostfixToken {
    PostfixToken::Variable('x')
}

fn op(o: Operator) -> PostfixToken {
    PostfixToken::Binary(o)
}

#[test]
fn constants_fold_to_one_number() {
    assert_eq!(simplify(postfix("2+3*4"), 'x'), vec![value(14.0)]);
    assert_eq!(simplify(postfix("-(2+3)"), 'x'), vec![value(-5.0)]);
    assert_eq!(simplify(postfix("sqrt(16)+max(1,2)"), 'x'), vec![value(6.0)]);
    assert_eq!(
        simplify(postfix("2e"), 'x'),
        vec![value(2.0 * std::f32::consts::E)]
    );
}

#[test]
fn parameter_is_kept() {
    assert_eq!(
        simplify(postfix("(2x-4/10)/4"), 'x'),
        vec![
            value(2.0),
            x(),
            op(Operator::Mul),
            value(0.4),
            op(Operator::Sub),
            value(4.0),
            op(Operator::Div),
        ]
    );
    assert_eq!(
        simplify(postfix("x+2*3"), 'x'),
        vec![x(), value(6.0), op(Operator::Add)]
    );
    assert_eq!(
        simplify(postfix("-x"), 'x'),
        vec![x(), PostfixToken::Negate]
    );
    assert_eq!(
        simplify(postfix("sin(x)"), 'x'),
        vec![x(), PostfixToken::Call { name: "sin".to_string(), args: 1 }]
    );
}

#[test]
fn identities_are_elided() {
    assert_eq!(simplify(postfix("x+0"), 'x'), vec![x()]);
    assert_eq!(simplify(postfix("x*1"), 'x'), vec![x()]);
    assert_eq!(simplify(postfix("x^1"), 'x'), vec![x()]);
    assert_eq!(simplify(postfix("x*(3-2)+(1-1)"), 'x'), vec![x()]);
    assert_eq!(simplify(postfix("(x+0)^1*1"), 'x'), vec![x()]);
}

#[test]
fn other_operations_are_kept() {
    assert_eq!(
        simplify(postfix("x-0"), 'x'),
        vec![x(), value(0.0), op(Operator::Sub)]
    );
    assert_eq!(
        simplify(postfix("0+x"), 'x'),
        vec![value(0.0), x(), op(Operator::Add)]
    );
    assert_eq!(
        simplify(postfix("x*0"), 'x'),
        vec![x(), value(0.0), op(Operator::Mul)]
    );
}

#[test]
fn what_has_no_value_is_kept() {
    assert_eq!(
        simplify(postfix("1/0"), 'x'),
        vec![value(1.0), value(0.0), op(Operator::Div)]
    );
    assert_eq!(
        simplify(postfix("sqrt(0-1)"), 'x'),
        vec![value(-1.0), PostfixToken::Call { name: "sqrt".to_string(), args: 1 }]
    );
    assert_eq!(
        simplify(postfix("g(2)+y"), 'x'),
        vec![
            value(2.0),
            PostfixToken::Call { name: "g".to_string(), args: 1 },
            PostfixToken::Variable('y'),
            op(Operator::Add),
        ]
    );
}

#[test]
fn malformed_postfix_comes_back_unchanged() {
    let broken = vec![value(2.0), op(Operator::Add)];
    assert_eq!(simplify(broken.clone(), 'x'), broken);
    let two = vec![value(2.0), value(3.0)];
    assert_eq!(simplify(two.clone(), 'x'), two);
    assert_eq!(simplify(Vec::new(), 'x'), Vec::new());
}

#[test]
fn simplified_is_a_fixed_point() {
    for text in [
        "(2x-4/10)/4",
        "x+0",
        "x*(3-2)+(1-1)",
        "1/0",
        "sqrt(0-1)+x",
        "g(2)+y",
        "2+3*4",
        "-x^2+max(x,3)e",
        "2+",
    ] {
        let once = simplify(postfix(text), 'x');
        let twice = simplify(once.clone(), 'x');
        assert_eq!(once, twice);
    }
}

#[test]
fn an_answer_without_a_question_changes_nothing() {
    let mut simplifier = Simplifier::new(vec![x(), value(1.0)], 'x');
    simplifier.answer(7.0f32.to_bits());
    assert!(!simplifier.finished());
    assert_eq!(simplifier.outcome(), vec![x(), value(1.0)]);
    assert!(simplifier.question().is_none());
}

#[test]
fn simplifier_asks_one_question_at_a_time() {
    let mut simplifier = Simplifier::new(postfix("x+2*3"), 'x');
    let mut asked = 0;
    let result = loop {
        match simplifier.advance() {
            Progress::Ask(request) => {
                asked += 1;
                simplifier.answer(compute(request));
            }
            Progress::Done(result) => break result,
        }
    };
    assert_eq!(asked, 3);
    assert!(simplifier.finished());
    assert_eq!(result, vec![x(), value(6.0), op(Operator::Add)]);
    assert_eq!(simplifier.outcome(), result);
}

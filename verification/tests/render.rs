use plotrat::{classify, render, CalculatableExpr, ExprType, LexError, MathParser};

#[test]
fn rendering_spells_every_token() {
    assert_eq!(render(&classify(MathParser::parse("2y-4=10"))), "2 * y - 4 = 10 ");
    assert_eq!(
        render(&classify(MathParser::parse("f(x)=x^2+1"))),
        "f( x ) = x ^ 2 + 1 "
    );
    assert_eq!(
        render(&classify(MathParser::parse("max(1.5,.5)<=2e"))),
        "max( 1.5 , .5 ) <= 2 * e "
    );
    assert_eq!(render(&ExprType::Unrecognized), "? ");
    assert_eq!(
        render(&ExprType::VariableAssignment { name: 'x', value: CalculatableExpr(vec![]) }),
        "x = "
    );
}

#[test]
fn rendering_and_reading_again_gives_the_statement() {
    for text in [
        "f(x)=x^2+1",
        "2y-4=10",
        "g(y)*4=2y-4/10",
        "2+3*4",
        "sqrt(2)(3+4)e",
        "x=5",
        "2+x",
        "1.2.3",
        "a != b",
        "(1=2)",
        "",
        "3 >= 2",
        "\u{3c0}(2)",
    ] {
        let statement = classify(MathParser::parse(text));
        let again = classify(MathParser::parse(&render(&statement)));
        assert_eq!(statement, again);
    }
}

#[test]
fn first_error_names_the_place() {
    assert_eq!(MathParser::first_error("2+3*4"), None);
    assert_eq!(
        MathParser::first_error("2 + #3"),
        Some(LexError::InvalidCharacter { position: 4, character: '#' })
    );
    assert_eq!(
        MathParser::first_error("2 + 1.2.3 + X"),
        Some(LexError::MalformedNumber { position: 4 })
    );
    assert_eq!(
        MathParser::first_error("a ! b"),
        Some(LexError::InvalidCharacter { position: 2, character: '!' })
    );
    assert_eq!(
        MathParser::first_error("\u{3c0} + ."),
        Some(LexError::MalformedNumber { position: 4 })
    );
    assert_eq!(
        MathParser::first_error("x + Y"),
        Some(LexError::InvalidCharacter { position: 4, character: 'Y' })
    );
}

use mexe::lex::{get_tokens, tokenize};
use mexe::parser::parse_and_evaluate;
use mexe::{Expr, Literal, MexeError, Operator, Token};

fn num(text: &str) -> Token {
    Token::Number(Literal::new(text.as_bytes().to_vec()).unwrap())
}

#[test]
fn does_not_panic_with_good_input() {
    let exprs = [
        "1+1",
        "1÷1×1",
        "1.1+1",
        "1.1+1.2",
        "183.387+(2*2.3)",
        "(2.3 + 1) - ((2.55 - 91381.832) / (83767.3 * 22))",
    ];

    for expr in exprs.iter() {
        let _tokens = get_tokens(expr);
    }
}

#[test]
fn does_not_panic_with_bad_input() {
    let exprs = [
        "",
        "1+1+",
        "1.1.1+1",
        "1.1+1.",
        "183.+(2*2.3)",
        "(2.3 ++ 1)",
    ];

    for expr in exprs.iter() {
        let _tokens = get_tokens(expr);
    }
}

#[test]
fn tokens_of_an_expression() {
    assert_eq!(
        get_tokens("183.387+(2*2.3) - 4/5"),
        Ok(vec![
            num("183.387"),
            Token::Op(Operator::Add),
            Token::LPar,
            num("2"),
            Token::Op(Operator::Mul),
            num("2.3"),
            Token::RPar,
            Token::Op(Operator::Sub),
            num("4"),
            Token::Op(Operator::Div),
            num("5"),
            Token::EOI,
        ])
    );
}

#[test]
fn tokens_of_nothing() {
    assert_eq!(get_tokens(""), Ok(vec![Token::EOI]));
    assert_eq!(get_tokens("    "), Ok(vec![Token::EOI]));
    assert_eq!(tokenize(&[]), Ok(vec![Token::EOI]));
}

#[test]
fn numbers_run_as_far_as_they_can() {
    assert_eq!(get_tokens("12 34"), Ok(vec![num("12"), num("34"), Token::EOI]));
    assert_eq!(get_tokens("1234"), Ok(vec![num("1234"), Token::EOI]));
    assert_eq!(get_tokens("1.5"), Ok(vec![num("1.5"), Token::EOI]));
    assert_eq!(
        get_tokens("1(2"),
        Ok(vec![num("1"), Token::LPar, num("2"), Token::EOI])
    );
    assert_eq!(get_tokens("000.000"), Ok(vec![num("000.000"), Token::EOI]));
}

#[test]
fn a_point_at_the_end_of_a_number_counts_for_nothing() {
    assert_eq!(get_tokens("183."), Ok(vec![num("183"), Token::EOI]));
    assert_eq!(
        get_tokens("1.1+1."),
        Ok(vec![num("1.1"), Token::Op(Operator::Add), num("1"), Token::EOI])
    );
    assert_eq!(
        get_tokens("183.+(2*2.3)"),
        Ok(vec![
            num("183"),
            Token::Op(Operator::Add),
            Token::LPar,
            num("2"),
            Token::Op(Operator::Mul),
            num("2.3"),
            Token::RPar,
            Token::EOI,
        ])
    );
    assert_eq!(get_tokens("1. 5"), Ok(vec![num("1"), num("5"), Token::EOI]));
}

#[test]
fn misplaced_points_fail() {
    assert_eq!(get_tokens("."), Err(MexeError::UnexpectedCharacter(b'.', 0)));
    assert_eq!(get_tokens(".5"), Err(MexeError::UnexpectedCharacter(b'.', 0)));
    assert_eq!(get_tokens("1 .5"), Err(MexeError::UnexpectedCharacter(b'.', 2)));
    assert_eq!(get_tokens("1..5"), Err(MexeError::UnexpectedCharacter(b'.', 2)));
    assert_eq!(
        get_tokens("1.1.1+1"),
        Err(MexeError::UnexpectedCharacter(b'.', 3))
    );
    assert_eq!(get_tokens("(.)"), Err(MexeError::UnexpectedCharacter(b'.', 1)));
}

#[test]
fn other_bytes_fail() {
    assert_eq!(get_tokens("1÷1×1"), Err(MexeError::InvalidCharacter(1)));
    assert_eq!(get_tokens("x"), Err(MexeError::InvalidCharacter(0)));
    assert_eq!(get_tokens("1 + 2x"), Err(MexeError::InvalidCharacter(5)));
    assert_eq!(get_tokens("1.x"), Err(MexeError::InvalidCharacter(2)));
    assert_eq!(get_tokens("1\n"), Err(MexeError::InvalidCharacter(1)));
    assert_eq!(tokenize(&[49, 255]), Err(MexeError::InvalidCharacter(1)));
    assert_eq!(get_tokens("a.b"), Err(MexeError::InvalidCharacter(0)));
    assert_eq!(get_tokens("1.2.a"), Err(MexeError::UnexpectedCharacter(b'.', 3)));
}

#[test]
fn tokens_end_with_the_end_marker() {
    for text in ["1+1", "", "((", "1 2 3", "12."].iter() {
        let tokens = get_tokens(text).unwrap();
        assert_eq!(tokens.last(), Some(&Token::EOI));
        assert_eq!(tokens.iter().filter(|t| **t == Token::EOI).count(), 1);
    }
}

#[test]
fn token_texts() {
    assert_eq!(Token::LPar.text(), "(");
    assert_eq!(Token::RPar.text(), ")");
    assert_eq!(Token::Op(Operator::Add).text(), "+");
    assert_eq!(Token::Op(Operator::Sub).text(), "-");
    assert_eq!(Token::Op(Operator::Mul).text(), "*");
    assert_eq!(Token::Op(Operator::Div).text(), "/");
    assert_eq!(Token::EOI.text(), "EOI");
    assert_eq!(num("2.50").text(), "2.50");
    assert_eq!(num("0123456789").text(), "0123456789");
}

#[test]
fn operator_symbols() {
    assert_eq!(Operator::Add.symbol(), b'+');
    assert_eq!(Operator::Sub.symbol(), b'-');
    assert_eq!(Operator::Mul.symbol(), b'*');
    assert_eq!(Operator::Div.symbol(), b'/');
}

#[test]
fn literals_are_numbers() {
    for text in ["0", "1", "007", "1.5", "0.0", "123456789012345678901234567890.5"].iter() {
        let literal = Literal::new(text.as_bytes().to_vec()).unwrap();
        assert_eq!(literal.as_bytes(), text.as_bytes());
        assert_eq!(literal.text(), *text);
        assert_eq!(literal.clone(), literal);
    }
    for text in ["", ".", "1.", ".5", "1.2.3", "1a", "-1", " 1", "1 ", "1..2", "+"].iter() {
        assert_eq!(Literal::new(text.as_bytes().to_vec()), None);
    }
}

#[test]
fn parsing_tokens() {
    let tokens = vec![num("1"), Token::Op(Operator::Add), num("2"), Token::EOI];
    assert_eq!(
        parse_and_evaluate(tokens),
        Ok(Expr::Binary(
            Box::new(Expr::Number(Literal::new(b"1".to_vec()).unwrap())),
            Operator::Add,
            Box::new(Expr::Number(Literal::new(b"2".to_vec()).unwrap())),
        ))
    );
}

#[test]
fn tokens_that_run_out_fail() {
    let end = Err(MexeError::UnexpectedEndOfInput);
    assert_eq!(parse_and_evaluate(vec![]), end);
    assert_eq!(parse_and_evaluate(vec![num("1")]), end);
    assert_eq!(parse_and_evaluate(vec![Token::LPar, num("1")]), end);
    assert_eq!(parse_and_evaluate(vec![Token::LPar]), end);
    assert_eq!(
        parse_and_evaluate(vec![num("1"), Token::Op(Operator::Add)]),
        end
    );
    assert_eq!(
        parse_and_evaluate(vec![num("1"), Token::Op(Operator::Mul)]),
        end
    );
    assert_eq!(
        parse_and_evaluate(vec![Token::Op(Operator::Sub)]),
        Err(MexeError::UnexpectedToken("-".to_owned()))
    );
}

#[test]
fn tokens_behind_the_expression_fail() {
    assert_eq!(
        parse_and_evaluate(vec![num("1"), Token::EOI, Token::EOI]),
        Err(MexeError::UnexpectedToken("EOI".to_owned()))
    );
    assert_eq!(
        parse_and_evaluate(vec![num("1"), Token::EOI, num("2")]),
        Err(MexeError::UnexpectedToken("EOI".to_owned()))
    );
    assert_eq!(
        parse_and_evaluate(vec![num("1"), Token::RPar, Token::EOI]),
        Err(MexeError::UnexpectedToken(")".to_owned()))
    );
    assert_eq!(
        parse_and_evaluate(vec![Token::EOI]),
        Err(MexeError::UnexpectedToken("EOI".to_owned()))
    );
}

#[test]
fn error_messages() {
    assert_eq!(
        MexeError::InvalidCharacter(0).message(),
        "Invalid character at index 0"
    );
    assert_eq!(
        MexeError::InvalidCharacter(1234567890).message(),
        "Invalid character at index 1234567890"
    );
    assert_eq!(
        MexeError::UnexpectedCharacter(b'.', 17).message(),
        "Unexpected character at index 17"
    );
    assert_eq!(
        MexeError::InvalidBinaryExpression.message(),
        "Invalid binary expression"
    );
    assert_eq!(MexeError::MissingOperand.message(), "Missing operand");
    assert_eq!(MexeError::MissingOperator.message(), "Missing operator");
    assert_eq!(
        MexeError::UnexpectedToken("+".to_owned()).message(),
        "Unexpected token: `+`"
    );
    assert_eq!(
        MexeError::InternalParserError.message(),
        "Internal parser error"
    );
    assert_eq!(
        MexeError::UnexpectedEndOfInput.message(),
        "Unexpected end of input"
    );
    assert_eq!(
        MexeError::InvalidCharacter(usize::MAX).message(),
        format!("Invalid character at index {}", usize::MAX)
    );
}

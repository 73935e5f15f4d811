use float_cmp::{ApproxEq, F64Margin};
use mexe::{eval, eval_binary, Expr, Literal, MexeError, Operator};

fn number(literal: &Literal) -> f64 {
    std::str::from_utf8(literal.as_bytes())
        .unwrap()
        .parse::<f64>()
        .unwrap()
}

fn value(tree: &Expr) -> f64 {
    match tree {
        Expr::Number(literal) => number(literal),
        Expr::Negate(inner) => -value(inner),
        Expr::Binary(left, op, right) => {
            let (left, right) = (value(left), value(right));
            match op {
                Operator::Add => left + right,
                Operator::Sub => left - right,
                Operator::Mul => left * right,
                Operator::Div => left / right,
            }
        }
    }
}

fn eval_value(expression: &str) -> Result<f64, MexeError> {
    eval(expression).map(|tree| value(&tree))
}

fn eval_binary_value(expression: &str) -> Result<f64, MexeError> {
    eval_binary(expression).map(|tree| value(&tree))
}

fn float_eq(op1: f64, op2: f64) {
    assert!(op1.approx_eq(op2, F64Margin::default()));
}

fn num(text: &str) -> Expr {
    Expr::Number(Literal::new(text.as_bytes().to_vec()).unwrap())
}

fn binary(left: Expr, op: Operator, right: Expr) -> Expr {
    Expr::Binary(Box::new(left), op, Box::new(right))
}

fn unexpected(text: &str) -> MexeError {
    MexeError::UnexpectedToken(text.to_owned())
}

#[test]
fn eval_does_not_panic_with_empty_input() {
    let _val = eval_value("");

    let empty: &[u8] = &[];
    let _val = eval_value(std::str::from_utf8(empty).unwrap());
}

#[test]
fn eval_does_not_panic_with_bad_input() {
    let exprs = ["(1"];

    for expr in exprs.iter() {
        let _val = eval_value(expr);
    }
}

#[test]
fn test_eval() {
    float_eq(1.0, eval_value("1").unwrap());
    float_eq(-1.0, eval_value("-1").unwrap());
    float_eq(1.0, eval_value("(1)").unwrap());
    float_eq(1.0, eval_value("((1))").unwrap());
    float_eq(-1.0, eval_value("-(1)").unwrap());

    float_eq(2.0, eval_value("1 + 1").unwrap());
    float_eq(0.0, eval_value("1 - 1").unwrap());
    float_eq(1.1, eval_value("(1+1.1) - 1").unwrap());
    float_eq(1.1, eval_value("(1+(1.1)) - 1").unwrap());
    float_eq(1.1, eval_value("(1+(1.1 + 0)) - 1").unwrap());
    float_eq(3.0, eval_value("(1+(1.0 + 0) + 2) - 1").unwrap());
    float_eq(2.0, eval_value("(((1))) + ((((1))))").unwrap());

    float_eq(21.0, eval_value("(1 + (4 * 5))").unwrap());
    float_eq(10.5, eval_value("(1 + (4 * 5)) / 2").unwrap());
    float_eq(18.0, eval_value("1 + (4 * 5) - 9 / 3").unwrap());
    float_eq(8.4, eval_value("(1 + (4 * 5)) / 2 - 3 * 0.7").unwrap());
    float_eq(9.9, eval_value("(1 + ((4 * 5) + (3))) / 2 - 3 * 0.7").unwrap());
    float_eq(0.45, eval_value("0.15 + 0.15 + 0.15").unwrap());
}

#[test]
fn test_eval_failures() {
    let exprs = ["(((1", "((1", "(1", "1)))", "1))", "1)"];

    for expr in exprs.iter() {
        if let Ok(_) = eval_value(expr) {
            panic!("{} should not be parsed", expr);
        }
    }
}

#[test]
fn test_eval_binary() {
    float_eq(3.0, eval_binary_value("1 + 2").unwrap());
    float_eq(10.0, eval_binary_value("2*5").unwrap());
    float_eq(1.1, eval_binary_value("5.5/5").unwrap());
    float_eq(10.5, eval_binary_value(" 5.5  + 5 ").unwrap());
}

#[test]
fn correct_errors_are_returned() {
    assert_eq!(eval("1++"), Err(MexeError::UnexpectedToken("+".to_owned())));
}

#[test]
fn exact_values() {
    assert_eq!(eval_value("1 + (4 * 5) - 9 / 3"), Ok(18.0));
    assert_eq!(eval_value("-(1)"), Ok(-1.0));
    assert_eq!(eval_value("((1))"), Ok(1.0));
    assert_eq!(eval_value("2 - 3 - 4"), Ok(-5.0));
    assert_eq!(eval_value("8 / 4 / 2"), Ok(1.0));
    assert_eq!(eval_value("2 + 3 * 4"), Ok(14.0));
    assert_eq!(eval_value("2 * 3 + 4"), Ok(10.0));
    assert_eq!(eval_value("1 - -2"), Ok(3.0));
    assert_eq!(eval_value("2 * -(3 + 4)"), Ok(-14.0));
    assert_eq!(eval_value("0.15 + 0.15 + 0.15"), Ok(0.15 + 0.15 + 0.15));
    assert_ne!(eval_value("0.15 + 0.15 + 0.15"), Ok(0.45));
}

#[test]
fn division_by_zero_is_no_error() {
    assert_eq!(eval_value("1 / 0"), Ok(f64::INFINITY));
    assert_eq!(eval_value("-1 / 0"), Ok(f64::NEG_INFINITY));
    assert!(eval_value("0 / 0").unwrap().is_nan());
}

#[test]
fn trees_follow_precedence() {
    assert_eq!(
        eval("1 + 2 * 3"),
        Ok(binary(
            num("1"),
            Operator::Add,
            binary(num("2"), Operator::Mul, num("3"))
        ))
    );
    assert_eq!(
        eval("1 * 2 + 3"),
        Ok(binary(
            binary(num("1"), Operator::Mul, num("2")),
            Operator::Add,
            num("3")
        ))
    );
    assert_eq!(
        eval("(1 + 2) * 3"),
        Ok(binary(
            binary(num("1"), Operator::Add, num("2")),
            Operator::Mul,
            num("3")
        ))
    );
}

#[test]
fn trees_group_from_the_left() {
    assert_eq!(
        eval("1 - 2 - 3"),
        Ok(binary(
            binary(num("1"), Operator::Sub, num("2")),
            Operator::Sub,
            num("3")
        ))
    );
    assert_eq!(
        eval("8 / 4 * 2"),
        Ok(binary(
            binary(num("8"), Operator::Div, num("4")),
            Operator::Mul,
            num("2")
        ))
    );
}

#[test]
fn trees_of_factors() {
    assert_eq!(eval("7"), Ok(num("7")));
    assert_eq!(eval("((7.25))"), Ok(num("7.25")));
    assert_eq!(eval("-7"), Ok(Expr::Negate(Box::new(num("7")))));
    assert_eq!(eval("-(7)"), Ok(Expr::Negate(Box::new(num("7")))));
    assert_eq!(
        eval("1 - -2"),
        Ok(binary(
            num("1"),
            Operator::Sub,
            Expr::Negate(Box::new(num("2")))
        ))
    );
    assert_eq!(
        eval("-(1 + 2)"),
        Ok(Expr::Negate(Box::new(binary(
            num("1"),
            Operator::Add,
            num("2")
        ))))
    );
}

#[test]
fn numbers_keep_their_digits() {
    assert_eq!(eval("007.500"), Ok(num("007.500")));
    assert_eq!(eval("12."), Ok(num("12")));
    assert_eq!(eval_value("183.+(2*2.3)"), Ok(183.0 + (2.0 * 2.3)));
}

#[test]
fn unbalanced_parentheses_fail() {
    assert_eq!(eval("(1"), Err(unexpected("EOI")));
    assert_eq!(eval("1)"), Err(unexpected(")")));
    assert_eq!(eval(""), Err(unexpected("EOI")));
    assert_eq!(eval("   "), Err(unexpected("EOI")));
    assert_eq!(eval("()"), Err(unexpected(")")));
    assert_eq!(eval("(1 2)"), Err(unexpected("2")));
    assert_eq!(eval("-(1"), Err(unexpected("EOI")));
}

#[test]
fn misplaced_tokens_fail() {
    assert_eq!(eval("1 2.50"), Err(unexpected("2.50")));
    assert_eq!(eval("1 (2)"), Err(unexpected("(")));
    assert_eq!(eval("*1"), Err(unexpected("*")));
    assert_eq!(eval("1 +"), Err(unexpected("EOI")));
    assert_eq!(eval("1 * / 2"), Err(unexpected("/")));
    assert_eq!(eval("-"), Err(unexpected("-")));
    assert_eq!(eval("--1"), Err(unexpected("-")));
    assert_eq!(eval("+1"), Err(unexpected("+")));
    assert_eq!(eval("(2.3 ++ 1)"), Err(unexpected("+")));
}

#[test]
fn bytes_outside_the_alphabet_fail() {
    assert_eq!(eval("1 + a"), Err(MexeError::InvalidCharacter(4)));
    assert_eq!(eval("1\t+ 1"), Err(MexeError::InvalidCharacter(1)));
    assert_eq!(eval("1e5"), Err(MexeError::InvalidCharacter(1)));
    assert_eq!(eval("1.1.1+1"), Err(MexeError::UnexpectedCharacter(b'.', 3)));
    assert_eq!(eval(".5"), Err(MexeError::UnexpectedCharacter(b'.', 0)));
    assert_eq!(eval("1 + ) a"), Err(MexeError::InvalidCharacter(6)));
}

#[test]
fn binary_takes_one_operation_only() {
    assert_eq!(
        eval_binary("1 + 2 + 3"),
        Err(MexeError::InvalidBinaryExpression)
    );
    assert_eq!(eval_value("1 + 2 + 3"), Ok(6.0));
    assert_eq!(eval_binary(""), Err(MexeError::InvalidBinaryExpression));
    assert_eq!(eval_binary("1"), Err(MexeError::InvalidBinaryExpression));
    assert_eq!(eval_binary("-1"), Err(MexeError::InvalidBinaryExpression));
    assert_eq!(eval_binary("1 + -2"), Err(MexeError::InvalidBinaryExpression));
    assert_eq!(eval_binary("(1)"), Err(MexeError::MissingOperand));
    assert_eq!(eval_binary("+ 1 2"), Err(MexeError::MissingOperand));
    assert_eq!(eval_binary("1 + )"), Err(MexeError::MissingOperand));
    assert_eq!(eval_binary("+ + +"), Err(MexeError::MissingOperand));
    assert_eq!(eval_binary("1 2 3"), Err(MexeError::MissingOperator));
    assert_eq!(eval_binary("1 ( 3"), Err(MexeError::MissingOperator));
    assert_eq!(eval_binary("1 + a"), Err(MexeError::InvalidCharacter(4)));
    assert_eq!(
        eval_binary("1. .2"),
        Err(MexeError::UnexpectedCharacter(b'.', 3))
    );
}

#[test]
fn binary_agrees_with_eval() {
    for text in ["1 + 2", "2*5", "5.5/5", " 5.5  + 5 ", "3-4", "1/0"].iter() {
        assert_eq!(eval_binary(text), eval(text));
        assert!(eval_binary(text).is_ok());
    }
    assert_eq!(
        eval_binary("5.5/5"),
        Ok(binary(num("5.5"), Operator::Div, num("5")))
    );
}

#[test]
fn blanks_do_not_matter() {
    assert_eq!(eval_value("5.5  + 5"), eval_value("5.5+5"));
    assert_eq!(eval("5.5  + 5"), eval("5.5+5"));
    assert_eq!(eval(" ( 1 +  2 )*3 "), eval("(1+2)*3"));
    assert_eq!(eval("- 1"), eval("-1"));
    assert_eq!(eval("1 +"), eval("1+"));
    assert_eq!(eval("1  a"), Err(MexeError::InvalidCharacter(3)));
    assert_eq!(eval("1a"), Err(MexeError::InvalidCharacter(1)));
    assert_ne!(eval("1 2"), eval("12"));
}

#[test]
fn the_same_text_gives_the_same_result() {
    for text in ["(1 + (4 * 5)) / 2 - 3 * 0.7", "1++", "1 + a", ""].iter() {
        let first = eval(text);
        for _ in 0..5 {
            assert_eq!(eval(text), first);
        }
    }
    let first = eval_value("0.15 + 0.15 + 0.15").unwrap();
    let again = eval_value("0.15 + 0.15 + 0.15").unwrap();
    assert_eq!(first.to_bits(), again.to_bits());
}

#[test]
fn trees_can_be_cloned() {
    let tree = eval("-(1 + 2) * 3.5").unwrap();
    assert_eq!(tree.clone(), tree);
}

#[test]
fn long_chains_do_not_nest_calls() {
    let mut text = String::from("1");
    for _ in 0..2000 {
        text.push_str(" + 1 * 1");
    }
    assert_eq!(eval_value(&text), Ok(2001.0));
}

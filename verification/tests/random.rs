use glc::{Expression, Grammar, NonTerminal, Or, Rule, RuleBody, Sequence, Symbol, Terminal};
use mexe::{eval, Expr, Literal, MexeError, Operator};

fn nt_seq(head: &str, body: &[&str]) -> Rule {
    Rule(
        NonTerminal(head.into()),
        RuleBody::Sequence(Sequence(
            body.iter()
                .map(|nt| Symbol::NonTerminal(NonTerminal((*nt).into())))
                .collect(),
        )),
    )
}

fn t_or(head: &str, body: &[&str]) -> Rule {
    Rule(
        NonTerminal(head.into()),
        RuleBody::Or(Or(body
            .iter()
            .map(|t| Sequence(vec![Symbol::Terminal(Terminal((*t).into()))]))
            .collect())),
    )
}

fn grammar() -> Grammar {
    Grammar(
        "E".into(),
        vec![
            nt_seq("E", &["T", "E_"]),
            nt_seq("E_", &["PM", "T", "E_"]),
            t_or("E_", &[""]),
            t_or("E_", &[""]),
            t_or("E_", &[""]),
            t_or("PM", &["+", "-"]),
            nt_seq("T", &["F", "T_"]),
            nt_seq("T_", &["MD", "F", "T_"]),
            t_or("MD", &["*", "/"]),
            t_or("T_", &[""]),
            t_or("T_", &[""]),
            t_or("T_", &[""]),
            nt_seq("F", &["LP", "E", "RP"]),
            nt_seq("F", &["M", "LP", "E", "RP"]),
            nt_seq("F", &["N"]),
            nt_seq("F", &["M", "N"]),
            t_or("LP", &["("]),
            t_or("RP", &[")"]),
            t_or("M", &["-"]),
            nt_seq("N", &["D", "DEC"]),
            nt_seq("D", &["D", "OD"]),
            nt_seq("OD", &["D"]),
            t_or("OD", &[""]),
            t_or("OD", &[""]),
            t_or("OD", &[""]),
            t_or("D", &["0", "1", "2", "3", "4", "5", "6", "7", "8", "9"]),
            nt_seq("DEC", &["P", "D"]),
            t_or("P", &["."]),
        ],
    )
}

fn number(literal: &Literal) -> f64 {
    std::str::from_utf8(literal.as_bytes())
        .unwrap()
        .parse::<f64>()
        .unwrap()
}

fn value(tree: &Expr) -> f64 {
    match tree {
        Expr::Number(literal) => number(literal),
        Expr::Negate(inner) => -value(inner),
        Expr::Binary(left, op, right) => {
            let (left, right) = (value(left), value(right));
            match op {
                Operator::Add => left + right,
                Operator::Sub => left - right,
                Operator::Mul => left * right,
                Operator::Div => left / right,
            }
        }
    }
}

fn eval_value(expression: String) -> Result<f64, MexeError> {
    eval(&expression).map(|tree| value(&tree))
}

#[test]
fn with_bounds() {
    random_exprs(1_000);
}

fn random_exprs(bound: u64) {
    let grammar = grammar();
    let mut exprs = 0;

    'der: while exprs < bound {
        exprs += 1;
        let mut d = grammar.start_derivation();
        let mut count = 0;

        while !d.is_done() {
            count += 1;
            d.derive_step(&grammar);

            if count > 10_000 {
                println!("skipped");
                continue 'der;
            }
        }

        let e: Expression = d.into();
        let mexe = eval_value(e.to_string()).unwrap();
        let meval = meval::eval_str(e.to_string()).unwrap();
        println!("{}\nval: {}, steps: {}\n", &e, mexe, count);

        if !mexe.is_nan() || !meval.is_nan() {
            assert_eq!(mexe, meval);
        }
    }
}

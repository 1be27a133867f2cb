use bc::{compute, evaluate, evaluate_line, to_postfix, tokenize};
use bc::{BinaryOp, EvalError, Expr, Literal, Token};

fn number(text: &str) -> Token {
    Token::Number(Literal::parse(text).unwrap())
}

fn leaf(text: &str) -> Expr {
    Expr::Number(Literal::parse(text).unwrap())
}

fn node(op: BinaryOp, lhs: Expr, rhs: Expr) -> Expr {
    Expr::Binary(op, Box::new(lhs), Box::new(rhs))
}

fn value(e: &Expr) -> f64 {
    match e {
        Expr::Number(lit) => std::str::from_utf8(lit.digits()).unwrap().parse::<f64>().unwrap(),
        Expr::Binary(op, lhs, rhs) => {
            let a = value(lhs);
            let b = value(rhs);
            match op {
                BinaryOp::Add => a + b,
                BinaryOp::Subtract => a - b,
                BinaryOp::Multiply => a * b,
                BinaryOp::Divide => a / b,
            }
        }
    }
}

fn result(line: &str) -> Result<f64, EvalError> {
    evaluate_line(line).map(|e| value(&e))
}

#[test]
fn digits_alone_keep_their_value() {
    assert_eq!(evaluate_line("42"), Ok(leaf("42")));
    assert_eq!(result("42"), Ok(42.0));
    assert_eq!(result("0"), Ok(0.0));
    assert_eq!(result("007"), Ok(7.0));
    assert_eq!(result("1234567890"), Ok(1234567890.0));
    assert_eq!(result("99999999999999999999999"), Ok(1e23));
}

#[test]
fn single_digit_operations() {
    assert_eq!(result("3+4"), Ok(7.0));
    assert_eq!(result("7/2"), Ok(3.5));
    assert_eq!(result("3-4"), Ok(-1.0));
    assert_eq!(result("3*4"), Ok(12.0));
    assert_eq!(evaluate_line("7/2"), Ok(node(BinaryOp::Divide, leaf("7"), leaf("2"))));
}

#[test]
fn every_single_digit_pair() {
    let ops = [
        (b'+', BinaryOp::Add),
        (b'-', BinaryOp::Subtract),
        (b'*', BinaryOp::Multiply),
        (b'/', BinaryOp::Divide),
    ];
    for a in 0u8..10 {
        for b in 0u8..10 {
            for (symbol, op) in ops {
                let line = String::from_utf8(vec![b'0' + a, symbol, b'0' + b]).unwrap();
                let lhs = leaf(&a.to_string());
                let rhs = leaf(&b.to_string());
                assert_eq!(evaluate_line(&line), Ok(node(op, lhs, rhs)));
                let x = f64::from(a);
                let y = f64::from(b);
                let expected = match op {
                    BinaryOp::Add => x + y,
                    BinaryOp::Subtract => x - y,
                    BinaryOp::Multiply => x * y,
                    BinaryOp::Divide => x / y,
                };
                let got = result(&line).unwrap();
                assert!(got == expected || (got.is_nan() && expected.is_nan()));
            }
        }
    }
}

#[test]
fn equal_rank_groups_from_the_left() {
    assert_eq!(result("4-2-1"), Ok(1.0));
    assert_eq!(result("8/4/2"), Ok(1.0));
    assert_eq!(
        evaluate_line("4-2-1"),
        Ok(node(
            BinaryOp::Subtract,
            node(BinaryOp::Subtract, leaf("4"), leaf("2")),
            leaf("1")
        ))
    );
}

#[test]
fn multiplication_binds_tighter() {
    assert_eq!(result("2+3*4"), Ok(14.0));
    assert_eq!(result("(2+3)*4"), Ok(20.0));
    assert_eq!(result("2*3+4"), Ok(10.0));
}

#[test]
fn nested_brackets() {
    assert_eq!(result("((1+2))*3"), Ok(9.0));
    assert_eq!(result("( ( ( 1 + 2 ) ) ) * 3"), Ok(9.0));
    assert_eq!(result("( (1+2) * (3+4) )"), Ok(21.0));
    assert_eq!(result("2 * ( 3 + ( 4 - ( 5 ) ) )"), Ok(4.0));
}

#[test]
fn adjacent_brackets_are_one_token() {
    assert_eq!(tokenize("(("), vec![Token::OpenParen]);
    assert_eq!(
        tokenize("((1)+2)"),
        vec![
            Token::OpenParen,
            number("1"),
            Token::CloseParen,
            Token::Add,
            number("2"),
            Token::CloseParen
        ]
    );
    assert_eq!(evaluate_line("((1)+2)"), Err(EvalError::UnbalancedParentheses));
    assert_eq!(result("( (1)+2)"), Ok(3.0));
}

#[test]
fn division_by_zero_is_no_error() {
    assert_eq!(result("1/0"), Ok(f64::INFINITY));
    assert_eq!(result("(0-1)/0"), Ok(f64::NEG_INFINITY));
    assert!(result("0/0").unwrap().is_nan());
}

#[test]
fn leading_minus_lacks_an_operand() {
    assert_eq!(evaluate_line("-1/0"), Err(EvalError::MissingOperand));
    assert_eq!(evaluate_line("-3"), Err(EvalError::MissingOperand));
}

#[test]
fn malformed_lines() {
    assert_eq!(evaluate_line("(1+2"), Err(EvalError::UnbalancedParentheses));
    assert_eq!(evaluate_line("1+2)"), Err(EvalError::UnbalancedParentheses));
    assert_eq!(evaluate_line("1+"), Err(EvalError::MissingOperand));
    assert_eq!(evaluate_line("1 2"), Err(EvalError::MalformedExpression));
    assert_eq!(evaluate_line("+"), Err(EvalError::MissingOperand));
    assert_eq!(evaluate_line(""), Err(EvalError::MalformedExpression));
    assert_eq!(evaluate_line("   "), Err(EvalError::MalformedExpression));
    assert_eq!(evaluate_line("()"), Err(EvalError::MalformedExpression));
}

#[test]
fn blanks_only_separate() {
    assert_eq!(result("1 + 2"), Ok(3.0));
    assert_eq!(result("1+2"), Ok(3.0));
    assert_eq!(result(" 1+2 "), Ok(3.0));
    assert_eq!(tokenize("1 + 2"), tokenize("1+2"));
    assert_eq!(tokenize(" 1+2 "), tokenize("1+2"));
    assert_eq!(tokenize("\t12\n"), vec![number("12")]);
    assert_eq!(tokenize("1 2"), vec![number("1"), number("2")]);
}

#[test]
fn other_bytes_are_blank() {
    assert_eq!(tokenize("1a2"), vec![number("1"), number("2")]);
    assert_eq!(tokenize("1.5"), vec![number("1"), number("5")]);
    assert_eq!(tokenize("1\u{e9}2"), vec![number("1"), number("2")]);
}

#[test]
fn same_line_same_outcome() {
    for line in ["2+3*4", "(1+2", "1 2", "8/4/2", ""] {
        let first = evaluate_line(line);
        let second = evaluate_line(line);
        assert_eq!(first, second);
    }
    assert_eq!(result("1+"), Err(EvalError::MissingOperand));
    assert_eq!(result("1+1"), Ok(2.0));
}

#[test]
fn tokenize_kinds() {
    assert_eq!(
        tokenize("12+(3-4)*5/6"),
        vec![
            number("12"),
            Token::Add,
            Token::OpenParen,
            number("3"),
            Token::Subtract,
            number("4"),
            Token::CloseParen,
            Token::Multiply,
            number("5"),
            Token::Divide,
            number("6"),
        ]
    );
    assert_eq!(tokenize(""), Vec::<Token>::new());
    assert_eq!(tokenize("++"), vec![Token::Add]);
    assert_eq!(tokenize("+-"), vec![Token::Add, Token::Subtract]);
}

#[test]
fn postfix_order() {
    let tokens = tokenize("2+3*4");
    assert_eq!(
        to_postfix(&tokens),
        Ok(vec![number("2"), number("3"), number("4"), Token::Multiply, Token::Add])
    );
    let tokens = tokenize("(2+3)*4");
    assert_eq!(
        to_postfix(&tokens),
        Ok(vec![number("2"), number("3"), Token::Add, number("4"), Token::Multiply])
    );
    let tokens = tokenize("4-2-1");
    assert_eq!(
        to_postfix(&tokens),
        Ok(vec![number("4"), number("2"), Token::Subtract, number("1"), Token::Subtract])
    );
    assert_eq!(to_postfix(&[]), Ok(vec![]));
}

#[test]
fn postfix_refuses_unbalanced_brackets() {
    assert_eq!(to_postfix(&[Token::CloseParen]), Err(EvalError::UnbalancedParentheses));
    assert_eq!(to_postfix(&[Token::OpenParen]), Err(EvalError::UnbalancedParentheses));
    assert_eq!(
        to_postfix(&[Token::OpenParen, number("1"), Token::Add]),
        Err(EvalError::UnbalancedParentheses)
    );
    assert_eq!(to_postfix(&[Token::OpenParen, Token::CloseParen]), Ok(vec![]));
}

#[test]
fn evaluate_pops_right_operand_first() {
    let postfix = vec![number("7"), number("2"), Token::Subtract];
    assert_eq!(evaluate(&postfix), Ok(node(BinaryOp::Subtract, leaf("7"), leaf("2"))));
    assert_eq!(value(&evaluate(&postfix).unwrap()), 5.0);
}

#[test]
fn evaluate_errors() {
    assert_eq!(evaluate(&[]), Err(EvalError::MalformedExpression));
    assert_eq!(evaluate(&[number("1"), number("2")]), Err(EvalError::MalformedExpression));
    assert_eq!(evaluate(&[number("1"), Token::Add]), Err(EvalError::MissingOperand));
    assert_eq!(evaluate(&[Token::Add]), Err(EvalError::MissingOperand));
    assert_eq!(evaluate(&[Token::OpenParen]), Err(EvalError::UnbalancedParentheses));
    assert_eq!(
        evaluate(&[number("1"), Token::CloseParen]),
        Err(EvalError::UnbalancedParentheses)
    );
}

#[test]
fn compute_takes_tokens_in_any_order() {
    let tokens = vec![number("1"), number("2"), Token::Add];
    assert_eq!(compute(&tokens), Ok(node(BinaryOp::Add, leaf("1"), leaf("2"))));
    let tokens = vec![Token::Add, number("1"), number("2")];
    assert_eq!(compute(&tokens), Ok(node(BinaryOp::Add, leaf("1"), leaf("2"))));
}

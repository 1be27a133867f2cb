use bc::{classify, precedence, BinaryOp, CharClass, EvalError, Literal, Token};

#[test]
fn precedence_table() {
    assert_eq!(precedence(&Token::Add), 1);
    assert_eq!(precedence(&Token::Subtract), 1);
    assert_eq!(precedence(&Token::Multiply), 2);
    assert_eq!(precedence(&Token::Divide), 2);
    assert_eq!(precedence(&Token::OpenParen), 0);
    assert_eq!(precedence(&Token::CloseParen), 0);
    assert_eq!(precedence(&Token::Number(Literal::parse("5").unwrap())), 0);
}

#[test]
fn literal_keeps_its_digits() {
    let lit = Literal::parse("0123").unwrap();
    assert_eq!(lit.digits(), b"0123");
    let copy = lit.clone();
    assert_eq!(copy, lit);
    assert_eq!(copy.digits(), b"0123");
}

#[test]
fn literal_refuses_what_is_no_digit_run() {
    assert_eq!(Literal::parse(""), Err(EvalError::MalformedNumber));
    assert_eq!(Literal::parse("1.5"), Err(EvalError::MalformedNumber));
    assert_eq!(Literal::parse("-3"), Err(EvalError::MalformedNumber));
    assert_eq!(Literal::parse("1e5"), Err(EvalError::MalformedNumber));
    assert_eq!(Literal::parse(" 1"), Err(EvalError::MalformedNumber));
    assert_eq!(Literal::parse("12a"), Err(EvalError::MalformedNumber));
    assert_eq!(Literal::parse("/"), Err(EvalError::MalformedNumber));
    assert_eq!(Literal::parse(":"), Err(EvalError::MalformedNumber));
}

#[test]
fn token_operator() {
    assert_eq!(Token::Add.operator(), Some(BinaryOp::Add));
    assert_eq!(Token::Subtract.operator(), Some(BinaryOp::Subtract));
    assert_eq!(Token::Multiply.operator(), Some(BinaryOp::Multiply));
    assert_eq!(Token::Divide.operator(), Some(BinaryOp::Divide));
    assert_eq!(Token::OpenParen.operator(), None);
    assert_eq!(Token::CloseParen.operator(), None);
    assert_eq!(Token::Number(Literal::parse("1").unwrap()).operator(), None);
}

#[test]
fn token_clone_is_equal() {
    let t = Token::Number(Literal::parse("31").unwrap());
    assert_eq!(t.clone(), t);
    assert_eq!(Token::Divide.clone(), Token::Divide);
}

#[test]
fn byte_classes() {
    for b in b'0'..=b'9' {
        assert_eq!(classify(b), CharClass::Digit);
    }
    assert_eq!(classify(b'+'), CharClass::Add);
    assert_eq!(classify(b'-'), CharClass::Subtract);
    assert_eq!(classify(b'*'), CharClass::Multiply);
    assert_eq!(classify(b'/'), CharClass::Divide);
    assert_eq!(classify(b'('), CharClass::OpenParen);
    assert_eq!(classify(b')'), CharClass::CloseParen);
    assert_eq!(classify(b' '), CharClass::Blank);
    assert_eq!(classify(b'\t'), CharClass::Blank);
    assert_eq!(classify(b'.'), CharClass::Blank);
    assert_eq!(classify(b':'), CharClass::Blank);
    assert_eq!(classify(b'x'), CharClass::Blank);
    assert_eq!(classify(0xff), CharClass::Blank);
}

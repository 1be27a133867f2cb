//! Tokens of the expression language, their operators and precedence.

use vstd::prelude::*;
use vstd::string::StringSliceAdditionalSpecFns;

verus! {

/// What can go wrong on one line of input.
#[derive(Clone, Copy, PartialEq, Eq, Structural, Debug)]
pub enum EvalError {
    /// A number literal is not a non-empty run of decimal digits.
    MalformedNumber,
    /// A closing bracket without an opening one, or an opening bracket
    /// that is never closed.
    UnbalancedParentheses,
    /// An operator is applied with fewer than two operands available.
    MissingOperand,
    /// The reduction ends with no value, or with more than one.
    MalformedExpression,
}

/// The four binary operators.
#[derive(Clone, Copy, PartialEq, Eq, Structural, Debug)]
pub enum BinaryOp {
    Add,
    Subtract,
    Multiply,
    Divide,
}

impl BinaryOp {
    /// Binding strength: the additive operators bind less tightly than the
    /// multiplicative ones.
    pub open spec fn rank(self) -> nat {
        match self {
            BinaryOp::Add | BinaryOp::Subtract => 1,
            BinaryOp::Multiply | BinaryOp::Divide => 2,
        }
    }

    /// The byte that is written for this operator.
    pub open spec fn symbol(self) -> u8 {
        match self {
            BinaryOp::Add => 0x2b,
            BinaryOp::Subtract => 0x2d,
            BinaryOp::Multiply => 0x2a,
            BinaryOp::Divide => 0x2f,
        }
    }

    /// The token that stands for this operator.
    pub open spec fn token(self) -> SpecToken {
        match self {
            BinaryOp::Add => SpecToken::Add,
            BinaryOp::Subtract => SpecToken::Subtract,
            BinaryOp::Multiply => SpecToken::Multiply,
            BinaryOp::Divide => SpecToken::Divide,
        }
    }
}

/// `b` is one of the ASCII digits `0` to `9`.
pub open spec fn is_digit(b: u8) -> bool {
    0x30 <= b <= 0x39
}

/// `s` is a non-empty run of ASCII digits.
pub open spec fn is_digit_run(s: Seq<u8>) -> bool {
    &&& s.len() > 0
    &&& forall|i: int| 0 <= i < s.len() ==> is_digit(#[trigger] s[i])
}

/// A number literal: a non-empty run of decimal digits, kept as written.
#[derive(PartialEq, Eq, Debug)]
pub struct Literal {
    digits: Vec<u8>,
}

impl View for Literal {
    type V = Seq<u8>;

    closed spec fn view(&self) -> Seq<u8> {
        self.digits@
    }
}

impl DeepView for Literal {
    type V = Seq<u8>;

    open spec fn deep_view(&self) -> Seq<u8> {
        self@
    }
}

impl Literal {
    #[verifier::type_invariant]
    spec fn well_formed(&self) -> bool {
        is_digit_run(self.digits@)
    }

    /// The literal made of `bytes[start..end]`, which must be digits.
    pub(crate) fn from_run(bytes: &[u8], start: usize, end: usize) -> (lit: Literal)
        requires
            start < end <= bytes@.len(),
            forall|i: int| start <= i < end ==> is_digit(#[trigger] bytes@[i]),
        ensures
            lit@ == bytes@.subrange(start as int, end as int),
    {
        let mut digits: Vec<u8> = Vec::new();
        let mut i: usize = start;
        while i < end
            invariant
                start <= i <= end <= bytes@.len(),
                digits@ == bytes@.subrange(start as int, i as int),
            decreases end - i,
        {
            digits.push(bytes[i]);
            i += 1;
            assert(digits@ =~= bytes@.subrange(start as int, i as int));
        }
        Literal { digits }
    }

    /// Reads a literal from text: succeeds exactly on a non-empty run of
    /// ASCII digits, and then keeps that run.
    pub fn parse(text: &str) -> (r: Result<Literal, EvalError>)
        ensures
            match r {
                Ok(lit) => is_digit_run(text.spec_bytes()) && lit@ == text.spec_bytes(),
                Err(e) => !is_digit_run(text.spec_bytes()) && e == EvalError::MalformedNumber,
            },
    {
        let bytes = text.as_bytes();
        let n: usize = bytes.len();
        if n == 0 {
            return Err(EvalError::MalformedNumber);
        }
        let mut i: usize = 0;
        while i < n
            invariant
                i <= n == bytes@.len(),
                bytes@ == text.spec_bytes(),
                forall|k: int| 0 <= k < i ==> is_digit(#[trigger] bytes@[k]),
            decreases n - i,
        {
            let b: u8 = bytes[i];
            if b < 0x30 || b > 0x39 {
                assert(!is_digit(bytes@[i as int]));
                return Err(EvalError::MalformedNumber);
            }
            i += 1;
        }
        let lit = Literal::from_run(bytes, 0, n);
        assert(bytes@.subrange(0, n as int) =~= bytes@);
        Ok(lit)
    }

    /// The digits of the literal, most significant first.
    pub fn digits(&self) -> (bytes: &[u8])
        ensures
            bytes@ == self@,
            is_digit_run(bytes@),
    {
        proof {
            use_type_invariant(self);
        }
        self.digits.as_slice()
    }
}

impl Clone for Literal {
    fn clone(&self) -> (r: Self)
        ensures
            r@ == self@,
    {
        proof {
            use_type_invariant(self);
        }
        Literal::from_run(self.digits.as_slice(), 0, self.digits.len())
    }
}

/// A token as contracts see it: a number with its digits, an operator, or
/// a bracket.
pub enum SpecToken {
    Number(Seq<u8>),
    Add,
    Subtract,
    Multiply,
    Divide,
    OpenParen,
    CloseParen,
}

impl SpecToken {
    /// The operator that the token stands for, if it is one.
    pub open spec fn operator(self) -> Option<BinaryOp> {
        match self {
            SpecToken::Add => Some(BinaryOp::Add),
            SpecToken::Subtract => Some(BinaryOp::Subtract),
            SpecToken::Multiply => Some(BinaryOp::Multiply),
            SpecToken::Divide => Some(BinaryOp::Divide),
            _ => None,
        }
    }

    /// The bytes that are written for the token.
    pub open spec fn text(self) -> Seq<u8> {
        match self {
            SpecToken::Number(digits) => digits,
            SpecToken::OpenParen => seq![0x28u8],
            SpecToken::CloseParen => seq![0x29u8],
            _ => seq![self.operator()->0.symbol()],
        }
    }

    /// The rank of an operator token; numbers and brackets have rank 0.
    pub open spec fn precedence(self) -> nat {
        match self.operator() {
            Some(op) => op.rank(),
            None => 0,
        }
    }
}

/// A token: one of seven kinds, of which only a number carries data.
#[derive(PartialEq, Eq, Debug)]
pub enum Token {
    Number(Literal),
    Add,
    Subtract,
    Multiply,
    Divide,
    OpenParen,
    CloseParen,
}

impl View for Token {
    type V = SpecToken;

    open spec fn view(&self) -> SpecToken {
        match self {
            Token::Number(lit) => SpecToken::Number(lit@),
            Token::Add => SpecToken::Add,
            Token::Subtract => SpecToken::Subtract,
            Token::Multiply => SpecToken::Multiply,
            Token::Divide => SpecToken::Divide,
            Token::OpenParen => SpecToken::OpenParen,
            Token::CloseParen => SpecToken::CloseParen,
        }
    }
}

impl DeepView for Token {
    type V = SpecToken;

    open spec fn deep_view(&self) -> SpecToken {
        self@
    }
}

impl Clone for Token {
    fn clone(&self) -> (r: Self)
        ensures
            r@ == self@,
    {
        match self {
            Token::Number(lit) => Token::Number(lit.clone()),
            Token::Add => Token::Add,
            Token::Subtract => Token::Subtract,
            Token::Multiply => Token::Multiply,
            Token::Divide => Token::Divide,
            Token::OpenParen => Token::OpenParen,
            Token::CloseParen => Token::CloseParen,
        }
    }
}

impl Token {
    /// The operator that the token stands for, if it is one.
    pub fn operator(&self) -> (r: Option<BinaryOp>)
        ensures
            r == self@.operator(),
    {
        match self {
            Token::Add => Some(BinaryOp::Add),
            Token::Subtract => Some(BinaryOp::Subtract),
            Token::Multiply => Some(BinaryOp::Multiply),
            Token::Divide => Some(BinaryOp::Divide),
            _ => None,
        }
    }
}

/// The binding strength of a token: 1 for `+` and `-`, 2 for `*` and `/`,
/// and 0 for numbers and brackets, which are never compared.
pub fn precedence(t: &Token) -> (rank: u8)
    ensures
        rank == t@.precedence(),
{
    match t {
        Token::Add | Token::Subtract => 1,
        Token::Multiply | Token::Divide => 2,
        _ => 0,
    }
}

} // verus!

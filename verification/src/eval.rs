//! The reducer of postfix sequences: a stack machine whose operands are
//! expression trees. Its result is the one tree that is left, which says
//! which operator is applied to which operands; no arithmetic is done here.

use crate::lexer::{lex, tokenize};
use crate::postfix::{postfix_of, to_postfix};
use crate::token::{BinaryOp, EvalError, Literal, SpecToken, Token};
use vstd::prelude::*;
use vstd::string::StringSliceAdditionalSpecFns;

verus! {

/// An expression as contracts see it: a number with its digits, or an
/// operator applied to a left and a right operand.
pub enum SpecExpr {
    Number(Seq<u8>),
    Binary(BinaryOp, Box<SpecExpr>, Box<SpecExpr>),
}

/// An expression: a number literal, or an operator applied to a left and
/// a right operand.
#[derive(PartialEq, Eq, Debug)]
pub enum Expr {
    Number(Literal),
    Binary(BinaryOp, Box<Expr>, Box<Expr>),
}

impl Expr {
    /// The expression as contracts see it.
    pub open spec fn model(&self) -> SpecExpr
        decreases self,
    {
        match self {
            Expr::Number(lit) => SpecExpr::Number(lit@),
            Expr::Binary(op, lhs, rhs) => SpecExpr::Binary(
                *op,
                Box::new(lhs.model()),
                Box::new(rhs.model()),
            ),
        }
    }
}

impl View for Expr {
    type V = SpecExpr;

    open spec fn view(&self) -> SpecExpr {
        self.model()
    }
}

impl DeepView for Expr {
    type V = SpecExpr;

    open spec fn deep_view(&self) -> SpecExpr {
        self@
    }
}

/// The operand stack after the token `t`: a number is pushed; an operator
/// takes the top entry as its right operand and the one below as its left
/// operand, and fails where there are not two; a bracket has no place in
/// postfix order.
pub open spec fn apply(operands: Seq<SpecExpr>, t: SpecToken) -> Result<Seq<SpecExpr>, EvalError> {
    match t {
        SpecToken::Number(digits) => Ok(operands.push(SpecExpr::Number(digits))),
        SpecToken::OpenParen | SpecToken::CloseParen => Err(EvalError::UnbalancedParentheses),
        _ => {
            let n = operands.len() as int;
            if n < 2 {
                Err(EvalError::MissingOperand)
            } else {
                Ok(
                    operands.take(n - 2).push(
                        SpecExpr::Binary(
                            t.operator()->0,
                            Box::new(operands[n - 2]),
                            Box::new(operands[n - 1]),
                        ),
                    ),
                )
            }
        },
    }
}

/// The operand stack after the tokens `ts`, begun with `operands`, or the
/// first error among them.
pub open spec fn reduce(operands: Seq<SpecExpr>, ts: Seq<SpecToken>) -> Result<
    Seq<SpecExpr>,
    EvalError,
>
    decreases ts.len(),
{
    if ts.len() == 0 {
        Ok(operands)
    } else {
        match reduce(operands, ts.drop_last()) {
            Ok(next) => apply(next, ts.last()),
            Err(e) => Err(e),
        }
    }
}

/// The expression that the postfix sequence `ts` reduces to: the one
/// operand that is left at the end.
pub open spec fn expr_of_postfix(ts: Seq<SpecToken>) -> Result<SpecExpr, EvalError> {
    match reduce(Seq::empty(), ts) {
        Ok(operands) => if operands.len() == 1 {
            Ok(operands[0])
        } else {
            Err(EvalError::MalformedExpression)
        },
        Err(e) => Err(e),
    }
}

/// The expression that the infix tokens `ts` stand for: conversion, then
/// reduction.
pub open spec fn expr_of_tokens(ts: Seq<SpecToken>) -> Result<SpecExpr, EvalError> {
    match postfix_of(ts) {
        Ok(postfix) => expr_of_postfix(postfix),
        Err(e) => Err(e),
    }
}

/// The expression that the line `s` stands for.
pub open spec fn expr_of_line(s: Seq<u8>) -> Result<SpecExpr, EvalError> {
    expr_of_tokens(lex(s))
}

/// The postfix order of an expression: the left operand, the right
/// operand, then the operator.
pub open spec fn postorder(e: SpecExpr) -> Seq<SpecToken>
    decreases e,
{
    match e {
        SpecExpr::Number(digits) => seq![SpecToken::Number(digits)],
        SpecExpr::Binary(op, lhs, rhs) => postorder(*lhs) + postorder(*rhs) + seq![op.token()],
    }
}

/// The postfix orders of the expressions `operands`, one after the other.
pub open spec fn postorders(operands: Seq<SpecExpr>) -> Seq<SpecToken>
    decreases operands.len(),
{
    if operands.len() == 0 {
        Seq::empty()
    } else {
        postorders(operands.drop_last()) + postorder(operands.last())
    }
}

/// A reduction loses nothing: the operands that it leaves, written in
/// postfix order one after the other, are the tokens that it read.
pub proof fn lemma_reduce_keeps_tokens(ts: Seq<SpecToken>)
    requires
        reduce(Seq::empty(), ts) is Ok,
    ensures
        postorders(reduce(Seq::empty(), ts)->Ok_0) == ts,
    decreases ts.len(),
{
    if ts.len() == 0 {
        assert(ts =~= Seq::empty());
    } else {
        let head = ts.drop_last();
        let t = ts.last();
        lemma_reduce_keeps_tokens(head);
        let before = reduce(Seq::empty(), head)->Ok_0;
        let after = reduce(Seq::empty(), ts)->Ok_0;
        assert(head + seq![t] =~= ts);
        match t {
            SpecToken::Number(digits) => {
                assert(after.drop_last() =~= before);
            },
            SpecToken::OpenParen | SpecToken::CloseParen => {},
            _ => {
                let n = before.len() as int;
                let rest = before.take(n - 2);
                let op = t.operator()->0;
                assert(op.token() == t);
                assert(after.drop_last() =~= rest);
                assert(before.drop_last().drop_last() =~= rest);
                assert(before.drop_last().last() == before[n - 2]);
                assert(postorders(before) == postorders(rest) + postorder(before[n - 2])
                    + postorder(before[n - 1])) by {
                    reveal_with_fuel(postorders, 3);
                }
                assert(postorders(after) =~= postorders(before) + seq![t]);
            },
        }
    }
}

/// A postfix sequence reduces to the expression `e` only if it is the
/// postfix order of `e`.
pub proof fn lemma_reduced_from_postorder(ts: Seq<SpecToken>, e: SpecExpr)
    requires
        expr_of_postfix(ts) == Ok::<_, EvalError>(e),
    ensures
        ts == postorder(e),
{
    lemma_reduce_keeps_tokens(ts);
    let operands = reduce(Seq::empty(), ts)->Ok_0;
    assert(operands.drop_last() =~= Seq::empty());
    assert(postorders(operands) =~= postorder(e)) by {
        reveal_with_fuel(postorders, 2);
    }
}

/// An error among the first `n` tokens is the error of the whole sequence.
pub proof fn lemma_reduce_error_stays(operands: Seq<SpecExpr>, ts: Seq<SpecToken>, n: int)
    requires
        0 <= n <= ts.len(),
        reduce(operands, ts.take(n)) is Err,
    ensures
        reduce(operands, ts) == reduce(operands, ts.take(n)),
    decreases ts.len() - n,
{
    if n < ts.len() {
        assert(ts.take(n + 1).drop_last() =~= ts.take(n));
        lemma_reduce_error_stays(operands, ts, n + 1);
    } else {
        assert(ts.take(n) =~= ts);
    }
}

/// Whether the outcome `r` is the outcome `expected` that a contract
/// names.
pub open spec fn agrees(r: Result<Expr, EvalError>, expected: Result<SpecExpr, EvalError>) -> bool {
    match r {
        Ok(e) => expected == Ok::<_, EvalError>(e@),
        Err(e) => expected == Err::<SpecExpr, _>(e),
    }
}

/// A line has one outcome: two evaluations of the same bytes fail with the
/// same error or give the same expression, whatever was evaluated before
/// or between them.
pub proof fn lemma_same_line_same_outcome(
    first: Result<Expr, EvalError>,
    second: Result<Expr, EvalError>,
    s: Seq<u8>,
)
    requires
        agrees(first, expr_of_line(s)),
        agrees(second, expr_of_line(s)),
    ensures
        match (first, second) {
            (Ok(a), Ok(b)) => a@ == b@,
            (Err(a), Err(b)) => a == b,
            _ => false,
        },
{
}

/// Reduces a postfix sequence to one expression. A number is pushed on the
/// operand stack; an operator pops its right operand, then its left one,
/// and pushes their combination. The reduction fails with `MissingOperand`
/// at an operator that finds fewer than two operands, with
/// `UnbalancedParentheses` at a bracket, and with `MalformedExpression`
/// where the end leaves no operand or more than one.
pub fn evaluate(postfix: &[Token]) -> (r: Result<Expr, EvalError>)
    ensures
        agrees(r, expr_of_postfix(postfix.deep_view())),
        r matches Ok(e) ==> postorder(e@) == postfix.deep_view(),
{
    let mut operands: Vec<Expr> = Vec::new();
    let ghost ts = postfix.deep_view();
    let mut i: usize = 0;
    assert(operands.deep_view() =~= Seq::empty());
    while i < postfix.len()
        invariant
            i <= postfix@.len(),
            ts == postfix.deep_view(),
            reduce(Seq::empty(), ts.take(i as int)) == Ok::<_, EvalError>(operands.deep_view()),
        decreases postfix@.len() - i,
    {
        let t = &postfix[i];
        let ghost before = operands.deep_view();
        proof {
            assert(ts.take(i + 1).drop_last() =~= ts.take(i as int));
            assert(ts.take(i + 1).last() == t@);
            assert(before.len() == operands@.len());
        }
        match t {
            Token::Number(lit) => {
                operands.push(Expr::Number(lit.clone()));
                assert(operands.deep_view() =~= before.push(SpecExpr::Number(lit@)));
            },
            Token::OpenParen | Token::CloseParen => {
                proof {
                    lemma_reduce_error_stays(Seq::empty(), ts, i + 1);
                }
                return Err(EvalError::UnbalancedParentheses);
            },
            _ => {
                let op = t.operator().unwrap();
                if operands.len() < 2 {
                    proof {
                        lemma_reduce_error_stays(Seq::empty(), ts, i + 1);
                    }
                    return Err(EvalError::MissingOperand);
                }
                let rhs = operands.pop().unwrap();
                let lhs = operands.pop().unwrap();
                operands.push(Expr::Binary(op, Box::new(lhs), Box::new(rhs)));
                assert(operands.deep_view() =~= apply(before, t@)->Ok_0);
            },
        }
        i += 1;
    }
    assert(ts.take(i as int) =~= ts);
    assert(operands.deep_view().len() == operands@.len());
    if operands.len() == 1 {
        let e = operands.pop().unwrap();
        proof {
            lemma_reduced_from_postorder(ts, e@);
        }
        Ok(e)
    } else {
        Err(EvalError::MalformedExpression)
    }
}

/// The expression that infix tokens stand for: they are brought into
/// postfix order and then reduced. The first failure of either step is the
/// outcome.
pub fn compute(tokens: &[Token]) -> (r: Result<Expr, EvalError>)
    ensures
        agrees(r, expr_of_tokens(tokens.deep_view())),
{
    match to_postfix(tokens) {
        Ok(postfix) => evaluate(postfix.as_slice()),
        Err(e) => Err(e),
    }
}

/// The expression that one line of text stands for. The outcome depends on
/// the bytes of the line alone: nothing is kept from one line to the next.
pub fn evaluate_line(line: &str) -> (r: Result<Expr, EvalError>)
    ensures
        agrees(r, expr_of_line(line.spec_bytes())),
{
    let tokens = tokenize(line);
    compute(tokens.as_slice())
}

} // verus!

//! Well-formed infix expressions, and the proof that the pipeline reads
//! each of them as the grammar does: operators of higher rank bind first,
//! operators of equal rank group from the left, and brackets of any depth
//! only group.

use crate::eval::{
    apply, expr_of_line, expr_of_postfix, expr_of_tokens, postorder, reduce, SpecExpr,
};
use crate::lexer::{
    apart, class_of, lemma_blanks_only_separate, lemma_lex_blank, lemma_lex_concat,
    lemma_lex_digit_run, lemma_lex_symbol, legible, lex, is_blank, CharClass,
};
use crate::postfix::{above_open, displaced, lemma_unload_one_more, postfix_of, Yard};
use crate::token::{is_digit, is_digit_run, BinaryOp, EvalError, SpecToken};
use vstd::prelude::*;

verus! {

/// An infix expression as it is written: a number, a bracketed
/// expression, or two expressions with an operator between them.
pub enum Syntax {
    Number(Seq<u8>),
    Group(Box<Syntax>),
    Binary(BinaryOp, Box<Syntax>, Box<Syntax>),
}

impl Syntax {
    /// How tightly the expression holds together as written: the rank of
    /// its operator, and 3 for a number or a bracketed expression.
    pub open spec fn level(self) -> nat {
        match self {
            Syntax::Binary(op, _, _) => op.rank(),
            _ => 3,
        }
    }

    /// The expression needs no further brackets to be read as it is
    /// built: the left operand of each operator holds together at least as
    /// tightly as the operator, and the right operand more tightly.
    pub open spec fn well_formed(self) -> bool
        decreases self,
    {
        match self {
            Syntax::Number(_) => true,
            Syntax::Group(inner) => inner.well_formed(),
            Syntax::Binary(op, lhs, rhs) => {
                &&& lhs.well_formed()
                &&& rhs.well_formed()
                &&& lhs.level() >= op.rank()
                &&& rhs.level() > op.rank()
            },
        }
    }

    /// The tokens of the expression in the order in which it is written.
    pub open spec fn tokens(self) -> Seq<SpecToken>
        decreases self,
    {
        match self {
            Syntax::Number(digits) => seq![SpecToken::Number(digits)],
            Syntax::Group(inner) => seq![SpecToken::OpenParen] + inner.tokens()
                + seq![SpecToken::CloseParen],
            Syntax::Binary(op, lhs, rhs) => lhs.tokens() + seq![op.token()] + rhs.tokens(),
        }
    }

    /// What the expression means: its operators and operands, without the
    /// brackets.
    pub open spec fn expr(self) -> SpecExpr
        decreases self,
    {
        match self {
            Syntax::Number(digits) => SpecExpr::Number(digits),
            Syntax::Group(inner) => inner.expr(),
            Syntax::Binary(op, lhs, rhs) => SpecExpr::Binary(
                op,
                Box::new(lhs.expr()),
                Box::new(rhs.expr()),
            ),
        }
    }

    /// The expression inside `depth` pairs of brackets.
    pub open spec fn nested(self, depth: nat) -> Syntax
        decreases depth,
    {
        if depth == 0 {
            self
        } else {
            Syntax::Group(Box::new(self.nested((depth - 1) as nat)))
        }
    }

    /// The operators of the expression that still wait on the stack when
    /// its last token has been converted, the last pushed at the end.
    pub open spec fn pending(self) -> Seq<SpecToken>
        decreases self,
    {
        match self {
            Syntax::Binary(op, _, rhs) => seq![op.token()] + rhs.pending(),
            _ => Seq::empty(),
        }
    }

    /// The output that the conversion has made of the expression when its
    /// last token has been converted.
    pub open spec fn emitted(self) -> Seq<SpecToken>
        decreases self,
    {
        match self {
            Syntax::Number(digits) => seq![SpecToken::Number(digits)],
            Syntax::Group(inner) => postorder(inner.expr()),
            Syntax::Binary(_, lhs, rhs) => postorder(lhs.expr()) + rhs.emitted(),
        }
    }
}

/// Every entry of `ops` is an operator of rank `rank` or higher.
pub open spec fn ops_at_least(ops: Seq<SpecToken>, rank: nat) -> bool {
    forall|i: int|
        0 <= i < ops.len() ==> (#[trigger] ops[i]).operator() is Some && ops[i].precedence()
            >= rank
}

/// No entry at the top of `stack` gives way to an operator of rank `rank`.
pub open spec fn settled(stack: Seq<SpecToken>, rank: nat) -> bool {
    stack.len() == 0 || stack.last() is OpenParen || stack.last().precedence() < rank
}

/// The conversion of `a + b` is that of `a`, continued with `b`.
pub proof fn lemma_run_concat(y: Yard, a: Seq<SpecToken>, b: Seq<SpecToken>)
    ensures
        y.run(a + b) == match y.run(a) {
            Ok(mid) => mid.run(b),
            Err(e) => Err(e),
        },
    decreases b.len(),
{
    if b.len() == 0 {
        assert(a + b =~= a);
    } else {
        assert((a + b).drop_last() =~= a + b.drop_last());
        assert((a + b).last() == b.last());
        lemma_run_concat(y, a, b.drop_last());
    }
}

/// The conversion of one token is one step.
pub proof fn lemma_run_one(y: Yard, t: SpecToken)
    ensures
        y.run(seq![t]) == y.step(t),
{
    assert(seq![t].drop_last() =~= Seq::<SpecToken>::empty());
    assert(y.run(Seq::<SpecToken>::empty()) == Ok::<_, EvalError>(y));
    assert(seq![t].last() == t);
}

/// The reduction of `a + b` is that of `a`, continued with `b`.
pub proof fn lemma_reduce_concat(operands: Seq<SpecExpr>, a: Seq<SpecToken>, b: Seq<SpecToken>)
    ensures
        reduce(operands, a + b) == match reduce(operands, a) {
            Ok(mid) => reduce(mid, b),
            Err(e) => Err(e),
        },
    decreases b.len(),
{
    if b.len() == 0 {
        assert(a + b =~= a);
    } else {
        assert((a + b).drop_last() =~= a + b.drop_last());
        assert((a + b).last() == b.last());
        lemma_reduce_concat(operands, a, b.drop_last());
    }
}

/// The reduction of one token is one application.
pub proof fn lemma_reduce_one(operands: Seq<SpecExpr>, t: SpecToken)
    ensures
        reduce(operands, seq![t]) == apply(operands, t),
{
    assert(seq![t].drop_last() =~= Seq::<SpecToken>::empty());
    assert(reduce(operands, Seq::<SpecToken>::empty()) == Ok::<_, EvalError>(operands));
    assert(seq![t].last() == t);
}

/// Moving all of `top` from the stack to the output appends it in
/// reverse.
pub proof fn lemma_unload_top(below: Seq<SpecToken>, top: Seq<SpecToken>, output: Seq<SpecToken>)
    ensures
        (Yard { stack: below + top, output }).unload(top.len()) == (Yard {
            stack: below,
            output: output + top.reverse(),
        }),
    decreases top.len(),
{
    let y = Yard { stack: below + top, output };
    if top.len() == 0 {
        assert(below + top =~= below);
        assert(output + top.reverse() =~= output);
    } else {
        lemma_unload_one_more(y, top.len());
        assert(y.stack.drop_last() =~= below + top.drop_last());
        assert(y.stack.last() == top.last());
        lemma_unload_top(below, top.drop_last(), output.push(top.last()));
        assert(output.push(top.last()) + top.drop_last().reverse() =~= output + top.reverse());
    }
}

/// Operators of rank `t`'s or higher on a settled stack all give way to
/// `t`, and nothing below them does.
pub proof fn lemma_displaced_top(below: Seq<SpecToken>, top: Seq<SpecToken>, t: SpecToken)
    requires
        ops_at_least(top, t.precedence()),
        settled(below, t.precedence()),
    ensures
        displaced(below + top, t) == top.len(),
    decreases top.len(),
{
    if top.len() == 0 {
        assert(below + top =~= below);
    } else {
        assert((below + top).last() == top.last());
        assert((below + top).drop_last() =~= below + top.drop_last());
        assert(top.last() == top[top.len() - 1]);
        assert(top.last().operator() is Some);
        assert forall|i: int| 0 <= i < top.drop_last().len() implies (#[trigger] top.drop_last()[i]).operator() is Some
            && top.drop_last()[i].precedence() >= t.precedence() by {
            assert(top.drop_last()[i] == top[i]);
        }
        lemma_displaced_top(below, top.drop_last(), t);
    }
}

/// Operators above an opening bracket are all that is above it.
pub proof fn lemma_above_open_top(below: Seq<SpecToken>, top: Seq<SpecToken>)
    requires
        ops_at_least(top, 0),
    ensures
        above_open(below + top) == top.len() + above_open(below),
    decreases top.len(),
{
    if top.len() == 0 {
        assert(below + top =~= below);
    } else {
        assert((below + top).last() == top.last());
        assert((below + top).drop_last() =~= below + top.drop_last());
        assert(top.last() == top[top.len() - 1]);
        assert(top.last().operator() is Some);
        assert forall|i: int| 0 <= i < top.drop_last().len() implies (#[trigger] top.drop_last()[i]).operator() is Some
            && top.drop_last()[i].precedence() >= 0 by {
            assert(top.drop_last()[i] == top[i]);
        }
        lemma_above_open_top(below, top.drop_last());
    }
}

/// What waits after a well-formed expression are operators of its level
/// or higher, and what was emitted, followed by them in the order in
/// which they leave the stack, is the postfix order of the expression.
pub proof fn lemma_pending(t: Syntax)
    requires
        t.well_formed(),
    ensures
        ops_at_least(t.pending(), t.level()),
        t.emitted() + t.pending().reverse() == postorder(t.expr()),
    decreases t,
{
    match t {
        Syntax::Number(digits) => {
            assert(t.emitted() + t.pending().reverse() =~= postorder(t.expr()));
        },
        Syntax::Group(inner) => {
            assert(t.emitted() + t.pending().reverse() =~= postorder(t.expr()));
        },
        Syntax::Binary(op, lhs, rhs) => {
            lemma_pending(*rhs);
            let p = rhs.pending();
            assert forall|i: int| 0 <= i < t.pending().len() implies (#[trigger] t.pending()[i]).operator() is Some
                && t.pending()[i].precedence() >= t.level() by {
                if i > 0 {
                    assert(t.pending()[i] == p[i - 1]);
                }
            }
            assert(t.pending().reverse() =~= p.reverse() + seq![op.token()]);
            assert(t.emitted() + t.pending().reverse() =~= postorder(lhs.expr()) + (rhs.emitted()
                + p.reverse()) + seq![op.token()]);
        },
    }
}

/// The conversion of a well-formed expression, begun on a settled stack,
/// leaves the stack as it was but for the operators of the expression
/// that still wait, and fails nowhere.
pub proof fn lemma_run_syntax(y: Yard, t: Syntax)
    requires
        t.well_formed(),
        settled(y.stack, t.level()),
    ensures
        y.run(t.tokens()) == Ok::<_, EvalError>(
            Yard { stack: y.stack + t.pending(), output: y.output + t.emitted() },
        ),
    decreases t,
{
    match t {
        Syntax::Number(digits) => {
            lemma_run_one(y, SpecToken::Number(digits));
            assert(y.stack + t.pending() =~= y.stack);
            assert(y.output + t.emitted() =~= y.output.push(SpecToken::Number(digits)));
        },
        Syntax::Group(inner) => {
            let open = seq![SpecToken::OpenParen];
            let close = seq![SpecToken::CloseParen];
            let y1 = Yard { stack: y.stack.push(SpecToken::OpenParen), output: y.output };
            let top = inner.pending();
            let y2 = Yard { stack: y1.stack + top, output: y.output + inner.emitted() };
            lemma_run_one(y, SpecToken::OpenParen);
            lemma_run_syntax(y1, *inner);
            lemma_run_concat(y, open, inner.tokens());
            lemma_run_concat(y, open + inner.tokens(), close);
            lemma_run_one(y2, SpecToken::CloseParen);
            lemma_pending(*inner);
            lemma_above_open_top(y1.stack, top);
            lemma_unload_top(y1.stack, top, y2.output);
            assert(y1.stack.drop_last() =~= y.stack + t.pending());
            assert(y2.output + top.reverse() =~= y.output + (inner.emitted() + top.reverse()));
        },
        Syntax::Binary(op, lhs, rhs) => {
            let mid = seq![op.token()];
            let top = lhs.pending();
            let y1 = Yard { stack: y.stack + top, output: y.output + lhs.emitted() };
            let done = y.output + postorder(lhs.expr());
            let y2 = Yard { stack: y.stack.push(op.token()), output: done };
            lemma_run_syntax(y, *lhs);
            lemma_run_one(y1, op.token());
            lemma_pending(*lhs);
            lemma_displaced_top(y.stack, top, op.token());
            lemma_unload_top(y.stack, top, y1.output);
            assert(y1.output + top.reverse() =~= done);
            assert(y1.step(op.token()) == Ok::<_, EvalError>(y2));
            lemma_run_syntax(y2, *rhs);
            lemma_run_concat(y, lhs.tokens(), mid);
            lemma_run_concat(y, lhs.tokens() + mid, rhs.tokens());
            assert(y2.stack + rhs.pending() =~= y.stack + t.pending());
            assert(y2.output + rhs.emitted() =~= y.output + t.emitted());
        },
    }
}

/// The postfix order of an expression reduces to that expression, on top
/// of whatever operands were there.
pub proof fn lemma_reduce_postorder(operands: Seq<SpecExpr>, e: SpecExpr)
    ensures
        reduce(operands, postorder(e)) == Ok::<_, EvalError>(operands.push(e)),
    decreases e,
{
    match e {
        SpecExpr::Number(digits) => {
            lemma_reduce_one(operands, SpecToken::Number(digits));
        },
        SpecExpr::Binary(op, lhs, rhs) => {
            let both = operands.push(*lhs).push(*rhs);
            lemma_reduce_postorder(operands, *lhs);
            lemma_reduce_postorder(operands.push(*lhs), *rhs);
            lemma_reduce_concat(operands, postorder(*lhs), postorder(*rhs));
            lemma_reduce_concat(operands, postorder(*lhs) + postorder(*rhs), seq![op.token()]);
            lemma_reduce_one(both, op.token());
            assert(both.take(both.len() - 2) =~= operands);
            assert(op.token().operator() == Some(op));
        },
    }
}

/// Reduction undoes postfix order: the postfix order of an expression
/// reduces to that expression and to nothing else.
pub proof fn lemma_postorder_reduces(e: SpecExpr)
    ensures
        expr_of_postfix(postorder(e)) == Ok::<_, EvalError>(e),
{
    lemma_reduce_postorder(Seq::empty(), e);
}

/// The tokens of a well-formed expression convert to the postfix order of
/// what the expression means.
pub proof fn lemma_well_formed_converts(t: Syntax)
    requires
        t.well_formed(),
    ensures
        postfix_of(t.tokens()) == Ok::<_, EvalError>(postorder(t.expr())),
{
    let y = Yard::start();
    lemma_run_syntax(y, t);
    lemma_pending(t);
    let top = t.pending();
    let end = Yard { stack: y.stack + top, output: y.output + t.emitted() };
    lemma_above_open_top(y.stack, top);
    lemma_unload_top(y.stack, top, end.output);
    assert(end.stack.len() == top.len());
    assert(end.output + top.reverse() =~= t.emitted() + top.reverse());
}

/// The pipeline reads every well-formed expression as the grammar does:
/// its tokens compute to what the expression means. Higher rank binds
/// first, equal rank groups from the left, and brackets only group.
pub proof fn lemma_well_formed_computes(t: Syntax)
    requires
        t.well_formed(),
    ensures
        expr_of_tokens(t.tokens()) == Ok::<_, EvalError>(t.expr()),
{
    lemma_well_formed_converts(t);
    lemma_postorder_reduces(t.expr());
}

/// Brackets of any depth around a well-formed expression change nothing
/// of what it means.
pub proof fn lemma_nesting(t: Syntax, depth: nat)
    requires
        t.well_formed(),
    ensures
        t.nested(depth).well_formed(),
        t.nested(depth).expr() == t.expr(),
        expr_of_tokens(t.nested(depth).tokens()) == Ok::<_, EvalError>(t.expr()),
    decreases depth,
{
    if depth > 0 {
        lemma_nesting(t, (depth - 1) as nat);
    }
    lemma_well_formed_computes(t.nested(depth));
}

/// A line whose tokens are those of a well-formed expression evaluates to
/// what that expression means.
pub proof fn lemma_well_formed_line(s: Seq<u8>, t: Syntax)
    requires
        t.well_formed(),
        lex(s) == t.tokens(),
    ensures
        expr_of_line(s) == Ok::<_, EvalError>(t.expr()),
{
    lemma_well_formed_computes(t);
}

/// The tokens `ts` written down with a space after each.
pub open spec fn spaced(ts: Seq<SpecToken>) -> Seq<u8>
    decreases ts.len(),
{
    if ts.len() == 0 {
        Seq::empty()
    } else {
        spaced(ts.drop_last()) + ts.last().text() + seq![0x20u8]
    }
}

/// A token that is written down alone is read back as itself.
pub proof fn lemma_lex_text(t: SpecToken)
    requires
        t matches SpecToken::Number(digits) ==> is_digit_run(digits),
    ensures
        lex(t.text()) == seq![t],
        t.text().len() > 0,
        class_of(t.text()[0]) != CharClass::Blank,
{
    match t {
        SpecToken::Number(digits) => {
            lemma_lex_digit_run(digits);
            assert(is_digit(digits[0]));
        },
        SpecToken::OpenParen => {
            lemma_lex_symbol(0x28);
        },
        SpecToken::CloseParen => {
            lemma_lex_symbol(0x29);
        },
        _ => {
            lemma_lex_symbol(t.operator()->0.symbol());
        },
    }
}

/// Tokens that are written down with a space after each are read back as
/// they were: every sequence of tokens is the reading of some line.
pub proof fn lemma_lex_spaced(ts: Seq<SpecToken>)
    requires
        legible(ts),
    ensures
        lex(spaced(ts)) == ts,
        ts.len() > 0 ==> spaced(ts).len() > 0 && spaced(ts).last() == 0x20,
    decreases ts.len(),
{
    if ts.len() == 0 {
        assert(lex(Seq::<u8>::empty()) =~= ts);
    } else {
        let head = ts.drop_last();
        let t = ts.last();
        let space = seq![0x20u8];
        assert(legible(head)) by {
            assert forall|i: int| 0 <= i < head.len() implies ((#[trigger] head[i]) matches SpecToken::Number(
                digits,
            ) ==> is_digit_run(digits)) by {
                assert(head[i] == ts[i]);
            }
        }
        assert(t == ts[ts.len() - 1]);
        lemma_lex_spaced(head);
        lemma_lex_text(t);
        assert(is_blank(space));
        lemma_lex_blank(space);
        lemma_lex_concat(t.text(), space);
        assert(lex(t.text() + space) =~= seq![t]);
        let written = spaced(head);
        if written.len() > 0 {
            assert(class_of(written.last()) == CharClass::Blank);
        }
        assert((t.text() + space)[0] == t.text()[0]);
        lemma_lex_concat(written, t.text() + space);
        assert(spaced(ts) =~= written + (t.text() + space));
        assert(head + seq![t] =~= ts);
    }
}

/// A line of digits and nothing else evaluates to the number with those
/// digits.
pub proof fn lemma_digits_evaluate(s: Seq<u8>)
    requires
        is_digit_run(s),
    ensures
        lex(s) == seq![SpecToken::Number(s)],
        expr_of_line(s) == Ok::<_, EvalError>(SpecExpr::Number(s)),
{
    lemma_lex_digit_run(s);
    lemma_well_formed_line(s, Syntax::Number(s));
}

/// Two numbers with one operator between them evaluate to that operator
/// applied to the first number on the left and the second on the right.
pub proof fn lemma_operation_evaluates(a: Seq<u8>, op: BinaryOp, b: Seq<u8>)
    requires
        is_digit_run(a),
        is_digit_run(b),
    ensures
        lex(a + seq![op.symbol()] + b) == seq![
            SpecToken::Number(a),
            op.token(),
            SpecToken::Number(b),
        ],
        expr_of_line(a + seq![op.symbol()] + b) == Ok::<_, EvalError>(
            SpecExpr::Binary(op, Box::new(SpecExpr::Number(a)), Box::new(SpecExpr::Number(b))),
        ),
{
    let mid = seq![op.symbol()];
    let t = Syntax::Binary(op, Box::new(Syntax::Number(a)), Box::new(Syntax::Number(b)));
    lemma_lex_text(SpecToken::Number(a));
    lemma_lex_text(op.token());
    lemma_lex_text(SpecToken::Number(b));
    assert(op.token().text() =~= mid);
    assert(is_digit(a.last()));
    assert(is_digit(b[0]));
    lemma_lex_concat(a, mid);
    assert((a + mid).last() == mid[0]);
    lemma_lex_concat(a + mid, b);
    assert(t.tokens() =~= seq![SpecToken::Number(a), op.token(), SpecToken::Number(b)]) by {
        reveal_with_fuel(Syntax::tokens, 2);
    }
    assert(lex(a + mid + b) =~= t.tokens());
    assert(t.well_formed()) by {
        reveal_with_fuel(Syntax::well_formed, 2);
    }
    assert(t.expr() == SpecExpr::Binary(
        op,
        Box::new(SpecExpr::Number(a)),
        Box::new(SpecExpr::Number(b)),
    )) by {
        reveal_with_fuel(Syntax::expr, 2);
    }
    lemma_well_formed_line(a + mid + b, t);
}

/// Blanks change no outcome where they only separate: between two parts
/// of a line that no run reaches across, before a line, and after it.
pub proof fn lemma_blanks_change_nothing(a: Seq<u8>, w: Seq<u8>, b: Seq<u8>)
    requires
        is_blank(w),
        apart(a, b),
    ensures
        expr_of_line(a + w + b) == expr_of_line(a + b),
{
    lemma_blanks_only_separate(a, w, b);
}

/// Every well-formed expression can be written as a line that evaluates
/// to what the expression means, however deep its brackets are: with a
/// space after each token.
pub proof fn lemma_spaced_line_evaluates(t: Syntax)
    requires
        t.well_formed(),
        legible(t.tokens()),
    ensures
        expr_of_line(spaced(t.tokens())) == Ok::<_, EvalError>(t.expr()),
{
    lemma_lex_spaced(t.tokens());
    lemma_well_formed_line(spaced(t.tokens()), t);
}

} // verus!

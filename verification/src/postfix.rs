//! The converter from infix to postfix order. Operators wait on a stack
//! until an operator that binds no tighter, a closing bracket or the end
//! of the input sends them to the output.

use crate::token::{precedence, EvalError, SpecToken, Token};
use vstd::prelude::*;

verus! {

/// The state of a conversion: the operators and opening brackets that
/// wait, the last pushed at the end, and the output so far.
pub struct Yard {
    pub stack: Seq<SpecToken>,
    pub output: Seq<SpecToken>,
}

impl Yard {
    /// The state before the first token.
    pub open spec fn start() -> Yard {
        Yard { stack: Seq::empty(), output: Seq::empty() }
    }

    /// Moves the top `k` entries of the stack to the output, the top one
    /// first.
    pub open spec fn unload(self, k: nat) -> Yard
        decreases k,
    {
        if k == 0 || self.stack.len() == 0 {
            self
        } else {
            Yard {
                stack: self.stack.drop_last(),
                output: self.output.push(self.stack.last()),
            }.unload((k - 1) as nat)
        }
    }

    /// The state after the token `t`, or the error that `t` brings.
    pub open spec fn step(self, t: SpecToken) -> Result<Yard, EvalError> {
        match t {
            SpecToken::Number(_) => Ok(Yard { stack: self.stack, output: self.output.push(t) }),
            SpecToken::OpenParen => Ok(Yard { stack: self.stack.push(t), output: self.output }),
            SpecToken::CloseParen => {
                let k = above_open(self.stack);
                if k == self.stack.len() {
                    Err(EvalError::UnbalancedParentheses)
                } else {
                    let y = self.unload(k);
                    Ok(Yard { stack: y.stack.drop_last(), output: y.output })
                }
            },
            _ => {
                let y = self.unload(displaced(self.stack, t));
                Ok(Yard { stack: y.stack.push(t), output: y.output })
            },
        }
    }

    /// The state after the tokens `ts`, or the first error among them.
    pub open spec fn run(self, ts: Seq<SpecToken>) -> Result<Yard, EvalError>
        decreases ts.len(),
    {
        if ts.len() == 0 {
            Ok(self)
        } else {
            match self.run(ts.drop_last()) {
                Ok(y) => y.step(ts.last()),
                Err(e) => Err(e),
            }
        }
    }

    /// The output once the input has ended: what waits on the stack
    /// follows, the top first. An opening bracket that still waits was
    /// never closed.
    pub open spec fn finish(self) -> Result<Seq<SpecToken>, EvalError> {
        if above_open(self.stack) < self.stack.len() {
            Err(EvalError::UnbalancedParentheses)
        } else {
            Ok(self.unload(self.stack.len()).output)
        }
    }
}

/// The number of entries at the top of `stack` that give way to the
/// operator `t`: those above the topmost opening bracket that bind at
/// least as tightly as `t`. Equal rank gives way, so that operators of one
/// rank group from the left.
pub open spec fn displaced(stack: Seq<SpecToken>, t: SpecToken) -> nat
    decreases stack.len(),
{
    if stack.len() > 0 && !(stack.last() is OpenParen) && stack.last().precedence()
        >= t.precedence() {
        1 + displaced(stack.drop_last(), t)
    } else {
        0
    }
}

/// The number of entries of `stack` above its topmost opening bracket, or
/// the length of `stack` if it holds none.
pub open spec fn above_open(stack: Seq<SpecToken>) -> nat
    decreases stack.len(),
{
    if stack.len() > 0 && !(stack.last() is OpenParen) {
        1 + above_open(stack.drop_last())
    } else {
        0
    }
}

/// The postfix order of the infix tokens `ts`, or the reason why there is
/// none.
pub open spec fn postfix_of(ts: Seq<SpecToken>) -> Result<Seq<SpecToken>, EvalError> {
    match Yard::start().run(ts) {
        Ok(y) => y.finish(),
        Err(e) => Err(e),
    }
}

/// An error among the first `n` tokens is the error of the whole input.
pub proof fn lemma_run_error_stays(y: Yard, ts: Seq<SpecToken>, n: int)
    requires
        0 <= n <= ts.len(),
        y.run(ts.take(n)) is Err,
    ensures
        y.run(ts) == y.run(ts.take(n)),
    decreases ts.len() - n,
{
    if n < ts.len() {
        assert(ts.take(n + 1).drop_last() =~= ts.take(n));
        lemma_run_error_stays(y, ts, n + 1);
    } else {
        assert(ts.take(n) =~= ts);
    }
}

/// No entry of `ts` is a bracket.
pub open spec fn bracket_free(ts: Seq<SpecToken>) -> bool {
    forall|i: int| 0 <= i < ts.len() ==> !((#[trigger] ts[i]) is OpenParen) && !(ts[i] is CloseParen)
}

/// The output holds no bracket and the stack no closing one.
pub open spec fn tidy(y: Yard) -> bool {
    &&& bracket_free(y.output)
    &&& forall|i: int| 0 <= i < y.stack.len() ==> !((#[trigger] y.stack[i]) is CloseParen)
}

/// What lies above the topmost opening bracket is part of the stack.
pub proof fn lemma_above_open_within(stack: Seq<SpecToken>)
    ensures
        above_open(stack) <= stack.len(),
    decreases stack.len(),
{
    if stack.len() > 0 {
        lemma_above_open_within(stack.drop_last());
    }
}

/// What gives way to an operator lies above the topmost opening bracket.
pub proof fn lemma_displaced_above_open(stack: Seq<SpecToken>, t: SpecToken)
    ensures
        displaced(stack, t) <= above_open(stack),
    decreases stack.len(),
{
    if stack.len() > 0 {
        lemma_displaced_above_open(stack.drop_last(), t);
    }
}

/// Moving entries from above the topmost opening bracket brings no
/// bracket to the output.
pub proof fn lemma_unload_tidy(y: Yard, k: nat)
    requires
        tidy(y),
        k <= above_open(y.stack),
    ensures
        tidy(y.unload(k)),
        y.unload(k).stack == y.stack.take(y.stack.len() - k),
    decreases k,
{
    lemma_above_open_within(y.stack);
    if k == 0 || y.stack.len() == 0 {
        assert(y.stack.take(y.stack.len() - k) =~= y.stack);
    } else {
        let next = Yard { stack: y.stack.drop_last(), output: y.output.push(y.stack.last()) };
        assert(y.stack.last() == y.stack[y.stack.len() - 1]);
        assert forall|i: int| 0 <= i < next.output.len() implies !((#[trigger] next.output[i]) is OpenParen)
            && !(next.output[i] is CloseParen) by {
            if i < y.output.len() {
                assert(next.output[i] == y.output[i]);
            }
        }
        assert forall|i: int| 0 <= i < next.stack.len() implies !((#[trigger] next.stack[i]) is CloseParen) by {
            assert(next.stack[i] == y.stack[i]);
        }
        lemma_unload_tidy(next, (k - 1) as nat);
        assert(next.stack.take(next.stack.len() - (k - 1)) =~= y.stack.take(y.stack.len() - k));
    }
}

/// A step that succeeds keeps the state tidy.
pub proof fn lemma_step_tidy(y: Yard, t: SpecToken)
    requires
        tidy(y),
        y.step(t) is Ok,
    ensures
        tidy(y.step(t)->Ok_0),
{
    let next = y.step(t)->Ok_0;
    match t {
        SpecToken::Number(_) => {
            assert forall|i: int| 0 <= i < next.output.len() implies !((#[trigger] next.output[i]) is OpenParen)
                && !(next.output[i] is CloseParen) by {
                if i < y.output.len() {
                    assert(next.output[i] == y.output[i]);
                }
            }
        },
        SpecToken::OpenParen => {
            assert forall|i: int| 0 <= i < next.stack.len() implies !((#[trigger] next.stack[i]) is CloseParen) by {
                if i < y.stack.len() {
                    assert(next.stack[i] == y.stack[i]);
                }
            }
        },
        SpecToken::CloseParen => {
            let k = above_open(y.stack);
            lemma_above_open_within(y.stack);
            lemma_unload_tidy(y, k);
            let mid = y.unload(k);
            assert(mid.stack.len() == y.stack.len() - k);
            assert forall|i: int| 0 <= i < next.stack.len() implies !((#[trigger] next.stack[i]) is CloseParen) by {
                assert(next.stack[i] == mid.stack[i]);
            }
        },
        _ => {
            let k = displaced(y.stack, t);
            lemma_displaced_above_open(y.stack, t);
            lemma_unload_tidy(y, k);
            let mid = y.unload(k);
            assert forall|i: int| 0 <= i < next.stack.len() implies !((#[trigger] next.stack[i]) is CloseParen) by {
                if i < mid.stack.len() {
                    assert(next.stack[i] == mid.stack[i]);
                }
            }
        },
    }
}

/// A conversion that succeeds keeps the state tidy.
pub proof fn lemma_run_tidy(y: Yard, ts: Seq<SpecToken>)
    requires
        tidy(y),
        y.run(ts) is Ok,
    ensures
        tidy(y.run(ts)->Ok_0),
    decreases ts.len(),
{
    if ts.len() > 0 {
        lemma_run_tidy(y, ts.drop_last());
        lemma_step_tidy(y.run(ts.drop_last())->Ok_0, ts.last());
    }
}

/// No bracket survives a conversion: the postfix order holds numbers and
/// operators only.
pub proof fn lemma_postfix_bracket_free(ts: Seq<SpecToken>)
    requires
        postfix_of(ts) is Ok,
    ensures
        bracket_free(postfix_of(ts)->Ok_0),
{
    lemma_run_tidy(Yard::start(), ts);
    let y = Yard::start().run(ts)->Ok_0;
    lemma_unload_tidy(y, y.stack.len());
}

/// To move `k` entries is to move one and then the rest.
pub proof fn lemma_unload_one_more(y: Yard, k: nat)
    requires
        k > 0,
        y.stack.len() > 0,
    ensures
        y.unload(1) == (Yard {
            stack: y.stack.drop_last(),
            output: y.output.push(y.stack.last()),
        }),
        y.unload(k) == y.unload(1).unload((k - 1) as nat),
{
    reveal_with_fuel(Yard::unload, 2);
}

/// The state that contracts see in the two vectors of a conversion.
spec fn yard_of(stack: Vec<Token>, output: Vec<Token>) -> Yard {
    Yard { stack: stack.deep_view(), output: output.deep_view() }
}

/// Moves the top entry of `stack` to `output`.
fn unload_one(stack: &mut Vec<Token>, output: &mut Vec<Token>)
    requires
        old(stack)@.len() > 0,
    ensures
        yard_of(*final(stack), *final(output)) == yard_of(*old(stack), *old(output)).unload(1),
        final(stack).deep_view() == old(stack).deep_view().drop_last(),
        final(stack)@.len() == old(stack)@.len() - 1,
{
    let ghost before = yard_of(*stack, *output);
    let top = stack.pop().unwrap();
    output.push(top);
    proof {
        assert(stack.deep_view() =~= before.stack.drop_last());
        assert(output.deep_view() =~= before.output.push(before.stack.last()));
        lemma_unload_one_more(before, 1);
    }
}

/// Sends to `output` the entries of `stack` that give way to `t`.
fn displace(stack: &mut Vec<Token>, output: &mut Vec<Token>, t: &Token)
    ensures
        yard_of(*final(stack), *final(output)) == yard_of(*old(stack), *old(output)).unload(
            displaced(old(stack).deep_view(), t@),
        ),
{
    let ghost goal = yard_of(*stack, *output).unload(displaced(stack.deep_view(), t@));
    let rank = precedence(t);
    loop
        invariant
            rank == t@.precedence(),
            goal == yard_of(*stack, *output).unload(displaced(stack.deep_view(), t@)),
        ensures
            goal == yard_of(*stack, *output),
        decreases stack@.len(),
    {
        assert(stack.deep_view().len() == stack@.len());
        if stack.len() == 0 {
            break;
        }
        let top = &stack[stack.len() - 1];
        assert(top@ == stack.deep_view().last());
        let stays = match top {
            Token::OpenParen => true,
            _ => precedence(top) < rank,
        };
        if stays {
            break;
        }
        proof {
            lemma_unload_one_more(
                yard_of(*stack, *output),
                displaced(stack.deep_view(), t@),
            );
        }
        unload_one(stack, output);
    }
}

/// Sends to `output` what waits above the topmost opening bracket and
/// drops that bracket; `false`, if there is none.
fn close_bracket(stack: &mut Vec<Token>, output: &mut Vec<Token>) -> (found: bool)
    ensures
        match yard_of(*old(stack), *old(output)).step(SpecToken::CloseParen) {
            Ok(y) => found && yard_of(*final(stack), *final(output)) == y,
            Err(_) => !found,
        },
{
    let ghost before = yard_of(*stack, *output);
    let ghost k = above_open(before.stack);
    assert(before.stack.len() == stack@.len());
    loop
        invariant
            before == yard_of(*old(stack), *old(output)),
            k == above_open(before.stack),
            before.stack.len() - k == stack@.len() - above_open(stack.deep_view()),
            before.unload(k) == yard_of(*stack, *output).unload(above_open(stack.deep_view())),
        decreases stack@.len(),
    {
        assert(stack.deep_view().len() == stack@.len());
        if stack.len() == 0 {
            return false;
        }
        let top = &stack[stack.len() - 1];
        assert(top@ == stack.deep_view().last());
        if let Token::OpenParen = top {
            let ghost full = stack.deep_view();
            stack.pop();
            assert(stack.deep_view() =~= full.drop_last());
            return true;
        }
        proof {
            lemma_unload_one_more(yard_of(*stack, *output), above_open(stack.deep_view()));
        }
        unload_one(stack, output);
    }
}

/// Sends all of `stack` to `output`; `false`, if it holds an opening
/// bracket.
fn flush(stack: &mut Vec<Token>, output: &mut Vec<Token>) -> (clean: bool)
    ensures
        match yard_of(*old(stack), *old(output)).finish() {
            Ok(out) => clean && final(output).deep_view() == out,
            Err(_) => !clean,
        },
{
    let ghost before = yard_of(*stack, *output);
    assert(before.stack.len() == stack@.len());
    loop
        invariant
            before == yard_of(*old(stack), *old(output)),
            (above_open(before.stack) < before.stack.len()) == (above_open(stack.deep_view())
                < stack@.len()),
            before.unload(before.stack.len()) == yard_of(*stack, *output).unload(stack@.len()),
        decreases stack@.len(),
    {
        assert(stack.deep_view().len() == stack@.len());
        if stack.len() == 0 {
            return true;
        }
        let top = &stack[stack.len() - 1];
        assert(top@ == stack.deep_view().last());
        if let Token::OpenParen = top {
            return false;
        }
        proof {
            lemma_unload_one_more(yard_of(*stack, *output), stack@.len());
        }
        unload_one(stack, output);
    }
}

/// Converts infix tokens to postfix order. Numbers go straight to the
/// output; an operator first sends out the waiting operators that bind at
/// least as tightly; a closing bracket sends out what waits above its
/// opening bracket. The conversion fails on a closing bracket without an
/// opening one and on an opening bracket that is never closed.
pub fn to_postfix(tokens: &[Token]) -> (r: Result<Vec<Token>, EvalError>)
    ensures
        match r {
            Ok(postfix) => postfix_of(tokens.deep_view()) == Ok::<_, EvalError>(
                postfix.deep_view(),
            ),
            Err(e) => postfix_of(tokens.deep_view()) == Err::<Seq<SpecToken>, _>(e),
        },
        r matches Ok(postfix) ==> bracket_free(postfix.deep_view()),
        r matches Err(e) ==> e == EvalError::UnbalancedParentheses,
{
    let mut stack: Vec<Token> = Vec::new();
    let mut output: Vec<Token> = Vec::new();
    let ghost ts = tokens.deep_view();
    let mut i: usize = 0;
    assert(yard_of(stack, output) == Yard::start()) by {
        assert(stack.deep_view() =~= Seq::empty());
        assert(output.deep_view() =~= Seq::empty());
    }
    while i < tokens.len()
        invariant
            i <= tokens@.len(),
            ts == tokens.deep_view(),
            Yard::start().run(ts.take(i as int)) == Ok::<_, EvalError>(yard_of(stack, output)),
        decreases tokens@.len() - i,
    {
        let t = &tokens[i];
        let ghost before = yard_of(stack, output);
        proof {
            assert(ts.take(i + 1).drop_last() =~= ts.take(i as int));
            assert(ts.take(i + 1).last() == t@);
        }
        match t {
            Token::Number(_) => {
                output.push(t.clone());
                assert(output.deep_view() =~= before.output.push(t@));
            },
            Token::OpenParen => {
                stack.push(Token::OpenParen);
                assert(stack.deep_view() =~= before.stack.push(t@));
            },
            Token::CloseParen => {
                if !close_bracket(&mut stack, &mut output) {
                    proof {
                        lemma_run_error_stays(Yard::start(), ts, i + 1);
                    }
                    return Err(EvalError::UnbalancedParentheses);
                }
            },
            _ => {
                displace(&mut stack, &mut output, t);
                let ghost mid = stack.deep_view();
                stack.push(t.clone());
                assert(stack.deep_view() =~= mid.push(t@));
            },
        }
        i += 1;
    }
    assert(ts.take(i as int) =~= ts);
    if flush(&mut stack, &mut output) {
        proof {
            lemma_postfix_bracket_free(ts);
        }
        Ok(output)
    } else {
        Err(EvalError::UnbalancedParentheses)
    }
}

} // verus!

//! The tokenizer: a line of bytes is cut into maximal runs of bytes of one
//! class, and each run but a blank one becomes one token.

use crate::token::{is_digit, is_digit_run, Literal, SpecToken, Token};
use vstd::prelude::*;
use vstd::string::StringSliceAdditionalSpecFns;

verus! {

/// The class of a byte of input. Every byte that is neither a digit, an
/// operator nor a bracket is blank: it separates tokens and is otherwise
/// ignored.
#[derive(Clone, Copy, PartialEq, Eq, Structural, Debug)]
pub enum CharClass {
    Blank,
    Digit,
    Add,
    Subtract,
    Multiply,
    Divide,
    OpenParen,
    CloseParen,
}

/// The class of the byte `b`.
pub open spec fn class_of(b: u8) -> CharClass {
    if is_digit(b) {
        CharClass::Digit
    } else if b == 0x2b {
        CharClass::Add
    } else if b == 0x2d {
        CharClass::Subtract
    } else if b == 0x2a {
        CharClass::Multiply
    } else if b == 0x2f {
        CharClass::Divide
    } else if b == 0x28 {
        CharClass::OpenParen
    } else if b == 0x29 {
        CharClass::CloseParen
    } else {
        CharClass::Blank
    }
}

/// Every byte of `s` is blank.
pub open spec fn is_blank(s: Seq<u8>) -> bool {
    forall|i: int| 0 <= i < s.len() ==> class_of(#[trigger] s[i]) == CharClass::Blank
}

/// The number of leading bytes of `s` that are of class `c`.
pub open spec fn run_length(s: Seq<u8>, c: CharClass) -> nat
    decreases s.len(),
{
    if s.len() > 0 && class_of(s[0]) == c {
        1 + run_length(s.drop_first(), c)
    } else {
        0
    }
}

/// The token that a run of bytes of class `c` stands for; a blank run
/// stands for none, and a run of one operator or bracket for one token,
/// however long it is.
pub open spec fn run_token(c: CharClass, run: Seq<u8>) -> Option<SpecToken> {
    match c {
        CharClass::Blank => None,
        CharClass::Digit => Some(SpecToken::Number(run)),
        CharClass::Add => Some(SpecToken::Add),
        CharClass::Subtract => Some(SpecToken::Subtract),
        CharClass::Multiply => Some(SpecToken::Multiply),
        CharClass::Divide => Some(SpecToken::Divide),
        CharClass::OpenParen => Some(SpecToken::OpenParen),
        CharClass::CloseParen => Some(SpecToken::CloseParen),
    }
}

/// The tokens of the line `s`: those of its maximal runs, in order.
pub open spec fn lex(s: Seq<u8>) -> Seq<SpecToken>
    decreases s.len(),
{
    if s.len() == 0 {
        Seq::empty()
    } else {
        let c = class_of(s[0]);
        let n = run_length(s, c);
        proof {
            lemma_run_length(s, c);
        }
        let rest = lex(s.skip(n as int));
        match run_token(c, s.take(n as int)) {
            Some(t) => seq![t] + rest,
            None => rest,
        }
    }
}

/// What `run_length` returns: it stays within `s`, the bytes before it are
/// of class `c`, and the byte at it, if there is one, is not.
pub proof fn lemma_run_length(s: Seq<u8>, c: CharClass)
    ensures
        run_length(s, c) <= s.len(),
        s.len() > 0 && class_of(s[0]) == c ==> run_length(s, c) >= 1,
        forall|i: int| 0 <= i < run_length(s, c) ==> class_of(#[trigger] s[i]) == c,
        run_length(s, c) < s.len() ==> class_of(s[run_length(s, c) as int]) != c,
    decreases s.len(),
{
    if s.len() > 0 && class_of(s[0]) == c {
        let t = s.drop_first();
        lemma_run_length(t, c);
        assert forall|i: int| 0 <= i < run_length(s, c) implies class_of(#[trigger] s[i]) == c by {
            if i > 0 {
                assert(s[i] == t[i - 1]);
            }
        }
        if run_length(s, c) < s.len() {
            assert(s[run_length(s, c) as int] == t[run_length(t, c) as int]);
        }
    }
}

/// A stretch of `m` bytes of class `c` that the end of `s` or a byte of
/// another class follows is the leading run of `s`.
pub proof fn lemma_run_length_is(s: Seq<u8>, c: CharClass, m: nat)
    requires
        m <= s.len(),
        forall|i: int| 0 <= i < m ==> class_of(#[trigger] s[i]) == c,
        m < s.len() ==> class_of(s[m as int]) != c,
    ensures
        run_length(s, c) == m,
{
    lemma_run_length(s, c);
    let n = run_length(s, c);
    if n < m {
        assert(class_of(s[n as int]) == c);
    } else if n > m {
        assert(class_of(s[m as int]) == c);
    }
}

/// Every number among `ts` is a non-empty run of digits.
pub open spec fn legible(ts: Seq<SpecToken>) -> bool {
    forall|i: int|
        0 <= i < ts.len() ==> ((#[trigger] ts[i]) matches SpecToken::Number(digits)
            ==> is_digit_run(digits))
}

/// Every number among the tokens of a line is a non-empty run of digits:
/// no line holds a malformed number.
pub proof fn lemma_lex_legible(s: Seq<u8>)
    ensures
        legible(lex(s)),
    decreases s.len(),
{
    if s.len() > 0 {
        let c = class_of(s[0]);
        let n = run_length(s, c);
        lemma_run_length(s, c);
        let rest = lex(s.skip(n as int));
        lemma_lex_legible(s.skip(n as int));
        let run = s.take(n as int);
        if c == CharClass::Digit {
            assert forall|i: int| 0 <= i < run.len() implies is_digit(#[trigger] run[i]) by {
                assert(class_of(s[i]) == CharClass::Digit);
            }
        }
        assert forall|i: int| 0 <= i < lex(s).len() implies ((#[trigger] lex(s)[i]) matches SpecToken::Number(
            digits,
        ) ==> is_digit_run(digits)) by {
            if run_token(c, run) is Some {
                if i > 0 {
                    assert(lex(s)[i] == rest[i - 1]);
                }
            } else {
                assert(lex(s)[i] == rest[i]);
            }
        }
    }
}

/// The tokens of `s` begin with the token of its leading run.
pub proof fn lemma_lex_first_run(s: Seq<u8>, c: CharClass, m: nat)
    requires
        0 < m <= s.len(),
        forall|i: int| 0 <= i < m ==> class_of(#[trigger] s[i]) == c,
        m < s.len() ==> class_of(s[m as int]) != c,
    ensures
        lex(s) == match run_token(c, s.take(m as int)) {
            Some(t) => seq![t] + lex(s.skip(m as int)),
            None => lex(s.skip(m as int)),
        },
{
    assert(class_of(s[0]) == c);
    lemma_run_length_is(s, c, m);
}

/// Classifies one byte of input.
pub fn classify(b: u8) -> (c: CharClass)
    ensures
        c == class_of(b),
{
    if 0x30 <= b && b <= 0x39 {
        CharClass::Digit
    } else if b == 0x2b {
        CharClass::Add
    } else if b == 0x2d {
        CharClass::Subtract
    } else if b == 0x2a {
        CharClass::Multiply
    } else if b == 0x2f {
        CharClass::Divide
    } else if b == 0x28 {
        CharClass::OpenParen
    } else if b == 0x29 {
        CharClass::CloseParen
    } else {
        CharClass::Blank
    }
}

/// Closes the run `bytes[start..end]` of class `c`: appends its token to
/// `items`, if it stands for one.
fn close_run(items: &mut Vec<Token>, c: CharClass, bytes: &[u8], start: usize, end: usize)
    requires
        start < end <= bytes@.len(),
        forall|i: int| start <= i < end ==> class_of(#[trigger] bytes@[i]) == c,
    ensures
        final(items).deep_view() == match run_token(
            c,
            bytes@.subrange(start as int, end as int),
        ) {
            Some(t) => old(items).deep_view().push(t),
            None => old(items).deep_view(),
        },
{
    let ghost before = items.deep_view();
    let token = match c {
        CharClass::Blank => {
            return ;
        },
        CharClass::Digit => {
            assert forall|i: int| start <= i < end implies is_digit(#[trigger] bytes@[i]) by {
                assert(class_of(bytes@[i]) == CharClass::Digit);
            }
            Token::Number(Literal::from_run(bytes, start, end))
        },
        CharClass::Add => Token::Add,
        CharClass::Subtract => Token::Subtract,
        CharClass::Multiply => Token::Multiply,
        CharClass::Divide => Token::Divide,
        CharClass::OpenParen => Token::OpenParen,
        CharClass::CloseParen => Token::CloseParen,
    };
    items.push(token);
    assert(items.deep_view() =~= before.push(token@));
}

/// Cuts a line into tokens. Blank bytes only separate; a run of digits is
/// one number; a run of one operator or bracket character is one token.
/// No line is refused: every run of digits is a literal.
pub fn tokenize(s: &str) -> (tokens: Vec<Token>)
    ensures
        tokens.deep_view() == lex(s.spec_bytes()),
{
    let bytes = s.as_bytes();
    let n: usize = bytes.len();
    let mut items: Vec<Token> = Vec::new();
    let mut last = CharClass::Blank;
    let mut j: usize = 0;
    let mut i: usize = 0;
    assert(items.deep_view() =~= Seq::empty());
    assert(bytes@.skip(0) =~= bytes@);
    while i < n
        invariant
            bytes@ == s.spec_bytes(),
            n == bytes@.len(),
            j <= i <= n,
            j < i || last == CharClass::Blank,
            forall|k: int| j <= k < i ==> class_of(#[trigger] bytes@[k]) == last,
            lex(bytes@) == items.deep_view() + lex(bytes@.skip(j as int)),
        decreases n - i,
    {
        let c = classify(bytes[i]);
        if c != last {
            if j < i {
                proof {
                    let rest = bytes@.skip(j as int);
                    assert(rest.take(i - j) =~= bytes@.subrange(j as int, i as int));
                    assert(rest.skip(i - j) =~= bytes@.skip(i as int));
                    lemma_lex_first_run(rest, last, (i - j) as nat);
                }
                let ghost before = items.deep_view();
                close_run(&mut items, last, bytes, j, i);
                proof {
                    let tail = lex(bytes@.skip(i as int));
                    match run_token(last, bytes@.subrange(j as int, i as int)) {
                        Some(t) => {
                            assert(before.push(t) + tail =~= before + (seq![t] + tail));
                        },
                        None => {},
                    }
                }
            }
            j = i;
            last = c;
        }
        i += 1;
    }
    if j < n {
        proof {
            let rest = bytes@.skip(j as int);
            assert(rest.take(n - j) =~= bytes@.subrange(j as int, n as int));
            assert(rest.skip(n - j) =~= Seq::<u8>::empty());
            lemma_lex_first_run(rest, last, (n - j) as nat);
        }
        let ghost before = items.deep_view();
        close_run(&mut items, last, bytes, j, n);
        proof {
            match run_token(last, bytes@.subrange(j as int, n as int)) {
                Some(t) => {
                    assert(before.push(t) =~= before + (seq![t] + Seq::empty()));
                },
                None => {
                    assert(before =~= before + Seq::empty());
                },
            }
        }
    } else {
        assert(bytes@.skip(j as int) =~= Seq::<u8>::empty());
        assert(items.deep_view() =~= items.deep_view() + Seq::empty());
    }
    items
}

/// No run reaches across the seam between `a` and `b`: one of them is
/// empty, or the last byte of `a` and the first byte of `b` differ in
/// class, or both are blank.
pub open spec fn apart(a: Seq<u8>, b: Seq<u8>) -> bool {
    ||| a.len() == 0
    ||| b.len() == 0
    ||| class_of(a.last()) != class_of(b[0])
    ||| class_of(b[0]) == CharClass::Blank
}

/// A blank line has no tokens.
pub proof fn lemma_lex_blank(w: Seq<u8>)
    requires
        is_blank(w),
    ensures
        lex(w) == Seq::<SpecToken>::empty(),
{
    if w.len() > 0 {
        lemma_lex_first_run(w, CharClass::Blank, w.len());
        assert(w.skip(w.len() as int) =~= Seq::<u8>::empty());
    }
}

/// A line that is one run of digits is one number, with those digits.
pub proof fn lemma_lex_digit_run(s: Seq<u8>)
    requires
        is_digit_run(s),
    ensures
        lex(s) == seq![SpecToken::Number(s)],
{
    assert forall|i: int| 0 <= i < s.len() implies class_of(#[trigger] s[i]) == CharClass::Digit by {
        assert(is_digit(s[i]));
    }
    lemma_lex_first_run(s, CharClass::Digit, s.len());
    assert(s.skip(s.len() as int) =~= Seq::<u8>::empty());
    assert(s.take(s.len() as int) =~= s);
    assert(seq![SpecToken::Number(s)] + Seq::empty() =~= seq![SpecToken::Number(s)]);
}

/// A line that is one byte other than a blank or a digit is the one token
/// of that byte's class.
pub proof fn lemma_lex_symbol(b: u8)
    requires
        class_of(b) != CharClass::Blank,
        class_of(b) != CharClass::Digit,
    ensures
        run_token(class_of(b), seq![b]) is Some,
        lex(seq![b]) == seq![run_token(class_of(b), seq![b])->0],
{
    let s = seq![b];
    lemma_lex_first_run(s, class_of(b), 1);
    assert(s.skip(1) =~= Seq::<u8>::empty());
    assert(s.take(1) =~= s);
    let t = run_token(class_of(b), s)->0;
    assert(seq![t] + Seq::empty() =~= seq![t]);
}

/// Where no run reaches across the seam, the tokens of `a + b` are those
/// of `a` followed by those of `b`.
pub proof fn lemma_lex_concat(a: Seq<u8>, b: Seq<u8>)
    requires
        apart(a, b),
    ensures
        lex(a + b) == lex(a) + lex(b),
    decreases a.len(),
{
    let ab = a + b;
    if a.len() == 0 {
        assert(ab =~= b);
        assert(lex(a) + lex(b) =~= lex(b));
    } else if b.len() == 0 {
        assert(ab =~= a);
        assert(lex(a) + lex(b) =~= lex(a));
    } else {
        let c = class_of(a[0]);
        let n = run_length(a, c);
        lemma_run_length(a, c);
        lemma_lex_first_run(a, c, n);
        assert forall|i: int| 0 <= i < n implies class_of(#[trigger] ab[i]) == c by {
            assert(ab[i] == a[i]);
        }
        if n < a.len() {
            assert(ab[n as int] == a[n as int]);
            lemma_lex_first_run(ab, c, n);
            assert(ab.take(n as int) =~= a.take(n as int));
            assert(ab.skip(n as int) =~= a.skip(n as int) + b);
            assert(a.skip(n as int).last() == a.last());
            lemma_lex_concat(a.skip(n as int), b);
            let tail = lex(a.skip(n as int));
            match run_token(c, a.take(n as int)) {
                Some(t) => {
                    assert(seq![t] + (tail + lex(b)) =~= (seq![t] + tail) + lex(b));
                },
                None => {},
            }
        } else {
            assert(a.take(n as int) =~= a);
            assert(a.skip(n as int) =~= Seq::<u8>::empty());
            assert(a.last() == a[n - 1]);
            if class_of(b[0]) != c {
                assert(ab[n as int] == b[0]);
                lemma_lex_first_run(ab, c, n);
                assert(ab.take(n as int) =~= a);
                assert(ab.skip(n as int) =~= b);
                match run_token(c, a) {
                    Some(t) => {
                        assert(seq![t] + lex(b) =~= (seq![t] + Seq::empty()) + lex(b));
                    },
                    None => {
                        assert(lex(b) =~= Seq::empty() + lex(b));
                    },
                }
            } else {
                assert(c == CharClass::Blank);
                let m = run_length(b, c);
                lemma_run_length(b, c);
                lemma_lex_first_run(b, c, m);
                assert forall|i: int| 0 <= i < n + m implies class_of(#[trigger] ab[i]) == c by {
                    if i >= n {
                        assert(ab[i] == b[i - n]);
                    }
                }
                if n + m < ab.len() {
                    assert(ab[(n + m) as int] == b[m as int]);
                }
                lemma_lex_first_run(ab, c, n + m);
                assert(ab.skip((n + m) as int) =~= b.skip(m as int));
                assert(lex(b) =~= Seq::empty() + lex(b));
            }
        }
    }
}

/// Blanks only separate: where no run reaches across the seam between `a`
/// and `b`, blank bytes put between them change no token. With `a` or `b`
/// empty this is the case of blanks before or after a line.
pub proof fn lemma_blanks_only_separate(a: Seq<u8>, w: Seq<u8>, b: Seq<u8>)
    requires
        is_blank(w),
        apart(a, b),
    ensures
        lex(a + w + b) == lex(a + b),
        lex(a + w + b) == lex(a) + lex(b),
{
    lemma_lex_concat(a, b);
    if w.len() == 0 {
        assert(a + w + b =~= a + b);
    } else {
        assert(class_of(w[0]) == CharClass::Blank);
        assert(class_of(w.last()) == CharClass::Blank);
        lemma_lex_blank(w);
        lemma_lex_concat(a, w);
        assert(lex(a + w) =~= lex(a));
        if a.len() > 0 {
            assert((a + w).last() == w.last());
        } else {
            assert(a + w =~= w);
        }
        lemma_lex_concat(a + w, b);
    }
}

} // verus!

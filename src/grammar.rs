use vstd::prelude::*;
use crate::ast::{MathConst, Tree};
use crate::text::{digits_end, digits_value, is_digit, is_name_start, name_end, skip_blanks};

verus! {

/// How a parse failed.
#[derive(Debug, PartialEq, Eq, Clone, Copy)]
pub enum ErrorKind {
    /// No literal, name or operand starts at the position.
    Lexical,
    /// A closing bracket, parenthesis or argument separator is missing.
    Unclosed,
    /// A literal was recognised but its value does not fit its type.
    Conversion,
    /// Brackets, parentheses or negations nest deeper than the parser allows.
    TooDeep,
}

/// A parse failure: what went wrong, and the byte offset of the unconsumed input there.
#[derive(Debug, PartialEq, Eq, Clone, Copy)]
pub struct ParseError {
    pub kind: ErrorKind,
    pub at: usize,
}

/// How many brackets, parentheses and negations may enclose one another.
pub const MAX_NESTING: usize = 128;

pub open spec fn fail<T>(kind: ErrorKind, at: int) -> Result<T, ParseError> {
    Err(ParseError { kind, at: at as usize })
}

pub open spec fn word_abs() -> Seq<u8> {
    seq![65u8, 98u8, 115u8]
}

pub open spec fn word_sin() -> Seq<u8> {
    seq![83u8, 105u8, 110u8]
}

pub open spec fn word_cos() -> Seq<u8> {
    seq![67u8, 111u8, 115u8]
}

pub open spec fn word_pi() -> Seq<u8> {
    seq![80u8, 105u8]
}

pub open spec fn word_e() -> Seq<u8> {
    seq![69u8]
}

/// The bracketed unary functions: `Abs[..]`, `Sin[..]`, `Cos[..]`.
pub open spec fn is_bracket_function(name: Seq<u8>) -> bool {
    name == word_abs() || name == word_sin() || name == word_cos()
}

pub open spec fn apply_bracket_function(name: Seq<u8>, t: Tree) -> Tree {
    if name == word_abs() {
        Tree::Absolute(Box::new(t))
    } else if name == word_sin() {
        Tree::Sin(Box::new(t))
    } else {
        Tree::Cos(Box::new(t))
    }
}

/// A numeric literal whose first digit is at `i`: a decimal where the digit run is
/// followed by `.` and a digit, an integer otherwise.
pub open spec fn number_at(b: Seq<u8>, i: int) -> Result<(int, Tree), ParseError> {
    let e = digits_end(b, i);
    if e + 1 < b.len() && b[e] == 46u8 && is_digit(b[e + 1]) {
        let f = digits_end(b, e + 1);
        Ok((f, Tree::Decimal(b.subrange(i, e), b.subrange(e + 1, f))))
    } else if digits_value(b.subrange(i, e)) <= i64::MAX {
        Ok((e, Tree::Integer(digits_value(b.subrange(i, e)) as i64)))
    } else {
        fail(ErrorKind::Conversion, i)
    }
}

/// A numeric literal after optional blanks.
pub open spec fn num_rule(b: Seq<u8>, i: int) -> Result<(int, Tree), ParseError> {
    let j = skip_blanks(b, i);
    if j < b.len() && is_digit(b[j]) {
        number_at(b, j)
    } else {
        fail(ErrorKind::Lexical, j)
    }
}

/// `( expr )`, after optional blanks.
pub open spec fn parens_rule(b: Seq<u8>, i: int, d: nat) -> Result<(int, Tree), ParseError>
    decreases d, 0int, b.len() - i,
{
    let j = skip_blanks(b, i);
    if !(j < b.len() && b[j] == 40u8) {
        fail(ErrorKind::Lexical, j)
    } else if d == 0 {
        fail(ErrorKind::TooDeep, j)
    } else {
        match expr_rule(b, j + 1, (d - 1) as nat) {
            Err(e) => Err(e),
            Ok((p, t)) => {
                let k = skip_blanks(b, p);
                if k < b.len() && b[k] == 41u8 {
                    Ok((k + 1, t))
                } else {
                    fail(ErrorKind::Unclosed, k)
                }
            },
        }
    }
}

/// `Name[ base ]` for a bracketed function whose name spans `j..k`, with `b[k] == '['`.
pub open spec fn bracket_rule(b: Seq<u8>, j: int, k: int, d: nat) -> Result<(int, Tree), ParseError>
    decreases d, 0int, b.len() - j,
{
    if d == 0 {
        fail(ErrorKind::TooDeep, k)
    } else {
        match base_rule(b, k + 1, (d - 1) as nat) {
            Err(e) => Err(e),
            Ok((p, t)) => {
                let m = skip_blanks(b, p);
                if m < b.len() && b[m] == 93u8 {
                    Ok((m + 1, apply_bracket_function(b.subrange(j, k), t)))
                } else {
                    fail(ErrorKind::Unclosed, m)
                }
            },
        }
    }
}

/// `Abs[ base ]`, after optional blanks.
pub open spec fn absolute_rule(b: Seq<u8>, i: int, d: nat) -> Result<(int, Tree), ParseError> {
    let j = skip_blanks(b, i);
    let k = name_end(b, j);
    if j < b.len() && is_name_start(b[j]) && b.subrange(j, k) == word_abs() && k < b.len()
        && b[k] == 91u8 {
        bracket_rule(b, j, k, d)
    } else {
        fail(ErrorKind::Lexical, j)
    }
}

/// The arguments of a call, from just after `(` or `,`; `done` holds those read so far.
pub open spec fn args_rule(b: Seq<u8>, i: int, d: nat, done: Seq<Tree>) -> Result<
    (int, Seq<Tree>),
    ParseError,
>
    decreases d, 7int, b.len() - i,
{
    let j = skip_blanks(b, i);
    if done.len() == 0 && j < b.len() && b[j] == 41u8 {
        Ok((j + 1, done))
    } else {
        match expr_rule(b, j, d) {
            Err(e) => Err(e),
            Ok((p, t)) => {
                let k = skip_blanks(b, p);
                if k < b.len() && b[k] == 41u8 {
                    Ok((k + 1, done.push(t)))
                } else if k < b.len() && b[k] == 44u8 {
                    // An argument always consumes input, so the guard always holds.
                    if i <= k {
                        args_rule(b, k + 1, d, done.push(t))
                    } else {
                        Ok((k + 1, done.push(t)))
                    }
                } else {
                    fail(ErrorKind::Unclosed, k)
                }
            },
        }
    }
}

/// A literal, a constant, a parenthesised expression, a bracketed function or a call.
pub open spec fn atom_rule(b: Seq<u8>, i: int, d: nat) -> Result<(int, Tree), ParseError>
    decreases d, 1int, b.len() - i,
{
    let j = skip_blanks(b, i);
    if j >= b.len() {
        fail(ErrorKind::Lexical, j)
    } else if is_digit(b[j]) {
        number_at(b, j)
    } else if b[j] == 40u8 {
        parens_rule(b, j, d)
    } else if is_name_start(b[j]) {
        let k = name_end(b, j);
        let name = b.subrange(j, k);
        if k < b.len() && b[k] == 91u8 && is_bracket_function(name) {
            bracket_rule(b, j, k, d)
        } else if k < b.len() && b[k] == 40u8 {
            if d == 0 {
                fail(ErrorKind::TooDeep, k)
            } else {
                match args_rule(b, k + 1, (d - 1) as nat, Seq::empty()) {
                    Err(e) => Err(e),
                    Ok((p, args)) => Ok((p, Tree::Call(name, args))),
                }
            }
        } else if name == word_pi() {
            Ok((k, Tree::Constant(MathConst::Pi)))
        } else if name == word_e() {
            Ok((k, Tree::Constant(MathConst::E)))
        } else {
            fail(ErrorKind::Lexical, j)
        }
    } else {
        fail(ErrorKind::Lexical, j)
    }
}

/// `- base`, after optional blanks.
pub open spec fn negate_rule(b: Seq<u8>, i: int, d: nat) -> Result<(int, Tree), ParseError>
    decreases d, 1int, b.len() - i,
{
    let j = skip_blanks(b, i);
    if !(j < b.len() && b[j] == 45u8) {
        fail(ErrorKind::Lexical, j)
    } else if d == 0 {
        fail(ErrorKind::TooDeep, j)
    } else {
        match base_rule(b, j + 1, (d - 1) as nat) {
            Err(e) => Err(e),
            Ok((p, t)) => Ok((p, Tree::Negation(Box::new(t)))),
        }
    }
}

/// A negation or an atom.
pub open spec fn base_rule(b: Seq<u8>, i: int, d: nat) -> Result<(int, Tree), ParseError>
    decreases d, 2int, b.len() - i,
{
    let j = skip_blanks(b, i);
    if j < b.len() && b[j] == 45u8 {
        negate_rule(b, j, d)
    } else {
        atom_rule(b, j, d)
    }
}

/// Folds `* base` and `/ base` onto `acc`, left to right, from position `p`.
pub open spec fn term_rest(b: Seq<u8>, p: int, acc: Tree, d: nat) -> Result<(int, Tree), ParseError>
    decreases d, 3int, b.len() - p,
{
    let k = skip_blanks(b, p);
    if k < b.len() && (b[k] == 42u8 || b[k] == 47u8) {
        match base_rule(b, k + 1, d) {
            Err(e) => Err(e),
            Ok((q, t)) => {
                let next = if b[k] == 42u8 {
                    Tree::Multiplication(Box::new(acc), Box::new(t))
                } else {
                    Tree::Division(Box::new(acc), Box::new(t))
                };
                // A base unit always consumes input, so the guard always holds; it
                // makes the progress visible to the termination measure.
                if p < q <= b.len() {
                    term_rest(b, q, next, d)
                } else {
                    Ok((q, next))
                }
            },
        }
    } else {
        Ok((p, acc))
    }
}

/// A multiplicative chain.
pub open spec fn term_rule(b: Seq<u8>, i: int, d: nat) -> Result<(int, Tree), ParseError>
    decreases d, 4int, b.len() - i,
{
    match base_rule(b, i, d) {
        Err(e) => Err(e),
        Ok((p, t)) => term_rest(b, p, t, d),
    }
}

/// Folds `+ term` and `- term` onto `acc`, left to right, from position `p`.
pub open spec fn expr_rest(b: Seq<u8>, p: int, acc: Tree, d: nat) -> Result<(int, Tree), ParseError>
    decreases d, 5int, b.len() - p,
{
    let k = skip_blanks(b, p);
    if k < b.len() && (b[k] == 43u8 || b[k] == 45u8) {
        match term_rule(b, k + 1, d) {
            Err(e) => Err(e),
            Ok((q, t)) => {
                let next = if b[k] == 43u8 {
                    Tree::Addition(Box::new(acc), Box::new(t))
                } else {
                    Tree::Subtraction(Box::new(acc), Box::new(t))
                };
                // As in `term_rest`, the guard always holds.
                if p < q <= b.len() {
                    expr_rest(b, q, next, d)
                } else {
                    Ok((q, next))
                }
            },
        }
    } else {
        Ok((p, acc))
    }
}

/// An additive chain of terms.
pub open spec fn expr_rule(b: Seq<u8>, i: int, d: nat) -> Result<(int, Tree), ParseError>
    decreases d, 6int, b.len() - i,
{
    match term_rule(b, i, d) {
        Err(e) => Err(e),
        Ok((p, t)) => expr_rest(b, p, t, d),
    }
}

/// What an entry point reports: the rule's result, where blanks that run to the end of
/// the input are consumed too; any other blanks after the result stay unconsumed.
pub open spec fn trailing(r: Result<(int, Tree), ParseError>, b: Seq<u8>) -> Result<
    (int, Tree),
    ParseError,
> {
    match r {
        Ok((p, t)) => if skip_blanks(b, p) == b.len() {
            Ok((b.len() as int, t))
        } else {
            Ok((p, t))
        },
        Err(e) => Err(e),
    }
}

} // verus!

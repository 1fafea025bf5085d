use vstd::prelude::*;
use vstd::string::StringSliceAdditionalSpecFns;
use vstd::utf8::valid_utf8;
use crate::ast::{CustomOperator, DecimalLiteral, Expr, MathConst, Tree};
use crate::grammar::{
    ErrorKind, ParseError, MAX_NESTING, word_abs, word_sin, word_cos, word_pi, word_e,
    number_at, num_rule, parens_rule, bracket_rule, absolute_rule, args_rule, atom_rule,
    negate_rule, base_rule, term_rest, term_rule, expr_rest, expr_rule, trailing,
    is_bracket_function,
};
use crate::text::{
    is_digit, skip_blanks, lemma_digits_end,
    lemma_name_end, lemma_skip_blanks, lemma_boundary_after_ascii, skip_blanks_at,
    digits_end_at, name_end_at, digits_to_i64, piece,
};

verus! {

broadcast use vstd::utf8::group_utf8_lib;

/// An internal result matches the grammar's result.
pub open spec fn agrees(r: Result<(usize, Expr), ParseError>, s: Result<(int, Tree), ParseError>) -> bool {
    match (r, s) {
        (Ok((q, e)), Ok((p, t))) => q == p && e@ == t,
        (Err(x), Err(y)) => x == y,
        _ => false,
    }
}

/// A success consumed input past `i`, and the last byte it consumed is ASCII.
pub open spec fn advances<T>(r: Result<(usize, T), ParseError>, b: Seq<u8>, i: int) -> bool {
    r is Ok ==> {
        let q = r->Ok_0.0 as int;
        i < q <= b.len() && b[q - 1] < 0x80
    }
}

/// What an entry point returns matches the grammar's result, with the unconsumed suffix.
pub open spec fn reports(r: Result<(&str, Expr), ParseError>, input: &str, s: Result<(int, Tree), ParseError>) -> bool {
    match (r, s) {
        (Ok((rest, e)), Ok((p, t))) => rest.spec_bytes() == input.spec_bytes().subrange(
            p,
            input.spec_bytes().len() as int,
        ) && e@ == t,
        (Err(x), Err(y)) => x == y,
        _ => false,
    }
}

pub open spec fn trees(v: Seq<Box<Expr>>) -> Seq<Tree> {
    Seq::new(v.len(), |k: int| (*v[k])@)
}

pub open spec fn fits(s: &str, b: &[u8]) -> bool {
    b@ == s.spec_bytes() && valid_utf8(b@) && b@.len() <= usize::MAX
}

/// Whether `b[j..k]` is the name `w`, given as its bytes.
fn name_is(b: &[u8], j: usize, k: usize, w: (u8, u8, u8), n: usize) -> (r: bool)
    requires
        j <= k <= b@.len(),
        1 <= n <= 3,
    ensures
        r == (b@.subrange(j as int, k as int) == seq![w.0, w.1, w.2].take(n as int)),
{
    let ghost want = seq![w.0, w.1, w.2].take(n as int);
    if k - j != n {
        proof {
            assert(b@.subrange(j as int, k as int).len() != want.len());
        }
        return false;
    }
    let r = b[j] == w.0 && (n < 2 || b[j + 1] == w.1) && (n < 3 || b[j + 2] == w.2);
    proof {
        let got = b@.subrange(j as int, k as int);
        if r {
            assert(got =~= want);
        } else if b[j as int] != w.0 {
            assert(got[0] != want[0]);
        } else if n >= 2 && b[j + 1] != w.1 {
            assert(got[1] != want[1]);
        } else {
            assert(got[2] != want[2]);
        }
    }
    r
}

fn number_here(s: &str, b: &[u8], i: usize) -> (r: Result<(usize, Expr), ParseError>)
    requires
        fits(s, b),
        i < b@.len(),
        is_digit(b@[i as int]),
    ensures
        agrees(r, number_at(b@, i as int)),
        advances(r, b@, i as int),
{
    let e = digits_end_at(b, i);
    proof {
        lemma_digits_end(b@, i as int);
        lemma_digits_end(b@, i as int + 1);
    }
    if e < b.len() && b[e] == 46u8 && e + 1 < b.len() && 48u8 <= b[e + 1] && b[e + 1] <= 57u8 {
        let f = digits_end_at(b, e + 1);
        proof {
            lemma_digits_end(b@, e as int + 1);
            lemma_digits_end(b@, e as int + 2);
        }
        let whole = piece(s, i, e);
        let fraction = piece(s, e + 1, f);
        Ok((f, Expr::decimal(DecimalLiteral { whole, fraction })))
    } else {
        match digits_to_i64(b, i, e) {
            Some(v) => Ok((e, Expr::integer(v))),
            None => Err(ParseError { kind: ErrorKind::Conversion, at: i }),
        }
    }
}

fn parens_at(s: &str, b: &[u8], i: usize, d: usize) -> (r: Result<(usize, Expr), ParseError>)
    requires
        fits(s, b),
        i <= b@.len(),
    ensures
        agrees(r, parens_rule(b@, i as int, d as nat)),
        advances(r, b@, i as int),
    decreases d, 0int, b@.len() - i,
{
    let j = skip_blanks_at(b, i);
    if !(j < b.len() && b[j] == 40u8) {
        return Err(ParseError { kind: ErrorKind::Lexical, at: j });
    }
    if d == 0 {
        return Err(ParseError { kind: ErrorKind::TooDeep, at: j });
    }
    match expr_at(s, b, j + 1, d - 1) {
        Err(e) => Err(e),
        Ok((p, t)) => {
            let k = skip_blanks_at(b, p);
            if k < b.len() && b[k] == 41u8 {
                Ok((k + 1, t))
            } else {
                Err(ParseError { kind: ErrorKind::Unclosed, at: k })
            }
        },
    }
}

fn bracket_at(s: &str, b: &[u8], j: usize, k: usize, d: usize) -> (r: Result<(usize, Expr), ParseError>)
    requires
        fits(s, b),
        j < k < b@.len(),
        b@[k as int] == 91u8,
        is_bracket_function(b@.subrange(j as int, k as int)),
    ensures
        agrees(r, bracket_rule(b@, j as int, k as int, d as nat)),
        advances(r, b@, j as int),
    decreases d, 0int, b@.len() - j,
{
    if d == 0 {
        return Err(ParseError { kind: ErrorKind::TooDeep, at: k });
    }
    match base_at(s, b, k + 1, d - 1) {
        Err(e) => Err(e),
        Ok((p, t)) => {
            let m = skip_blanks_at(b, p);
            if m < b.len() && b[m] == 93u8 {
                let arg = Box::new(t);
                proof {
                    assert(seq![65u8, 98u8, 115u8].take(3) =~= word_abs());
                    assert(seq![83u8, 105u8, 110u8].take(3) =~= word_sin());
                }
                if name_is(b, j, k, (65u8, 98u8, 115u8), 3) {
                    Ok((m + 1, Expr::absolute(arg)))
                } else if name_is(b, j, k, (83u8, 105u8, 110u8), 3) {
                    Ok((m + 1, Expr::sin(arg)))
                } else {
                    Ok((m + 1, Expr::cos(arg)))
                }
            } else {
                Err(ParseError { kind: ErrorKind::Unclosed, at: m })
            }
        },
    }
}

fn args_at(s: &str, b: &[u8], i: usize, d: usize) -> (r: Result<(usize, Vec<Box<Expr>>), ParseError>)
    requires
        fits(s, b),
        i <= b@.len(),
    ensures
        match (r, args_rule(b@, i as int, d as nat, Seq::empty())) {
            (Ok((q, v)), Ok((p, ts))) => q == p && trees(v@) == ts,
            (Err(x), Err(y)) => x == y,
            _ => false,
        },
        advances(r, b@, i as int),
    decreases d, 7int, b@.len() - i,
{
    let mut done: Vec<Box<Expr>> = Vec::new();
    let mut at: usize = i;
    proof {
        assert(trees(done@) =~= Seq::<Tree>::empty());
    }
    loop
        invariant
            fits(s, b),
            i <= at <= b@.len(),
            args_rule(b@, i as int, d as nat, Seq::empty()) == args_rule(
                b@,
                at as int,
                d as nat,
                trees(done@),
            ),
            done@.len() > 0 ==> i < at && b@[at - 1] == 44u8,
        decreases b@.len() - at,
    {
        let j = skip_blanks_at(b, at);
        if done.len() == 0 && j < b.len() && b[j] == 41u8 {
            return Ok((j + 1, done));
        }
        match expr_at(s, b, j, d) {
            Err(e) => {
                return Err(e);
            },
            Ok((p, t)) => {
                let k = skip_blanks_at(b, p);
                let ghost before = trees(done@);
                let ghost tv = t@;
                done.push(Box::new(t));
                proof {
                    assert(trees(done@) =~= before.push(tv));
                }
                if k < b.len() && b[k] == 41u8 {
                    return Ok((k + 1, done));
                } else if k < b.len() && b[k] == 44u8 {
                    at = k + 1;
                } else {
                    return Err(ParseError { kind: ErrorKind::Unclosed, at: k });
                }
            },
        }
    }
}

fn atom_at(s: &str, b: &[u8], i: usize, d: usize) -> (r: Result<(usize, Expr), ParseError>)
    requires
        fits(s, b),
        i <= b@.len(),
    ensures
        agrees(r, atom_rule(b@, i as int, d as nat)),
        advances(r, b@, i as int),
    decreases d, 1int, b@.len() - i,
{
    let j = skip_blanks_at(b, i);
    if j >= b.len() {
        return Err(ParseError { kind: ErrorKind::Lexical, at: j });
    }
    let c = b[j];
    if 48u8 <= c && c <= 57u8 {
        number_here(s, b, j)
    } else if c == 40u8 {
        parens_at(s, b, j, d)
    } else if (65u8 <= c && c <= 90u8) || (97u8 <= c && c <= 122u8) || c == 95u8 {
        let k = name_end_at(b, j);
        proof {
            lemma_name_end(b@, j as int);
            lemma_name_end(b@, j as int + 1);
            assert(seq![65u8, 98u8, 115u8].take(3) =~= word_abs());
            assert(seq![83u8, 105u8, 110u8].take(3) =~= word_sin());
            assert(seq![67u8, 111u8, 115u8].take(3) =~= word_cos());
            assert(seq![80u8, 105u8, 0u8].take(2) =~= word_pi());
            assert(seq![69u8, 0u8, 0u8].take(1) =~= word_e());
        }
        let bracket = k < b.len() && b[k] == 91u8 && (name_is(b, j, k, (65u8, 98u8, 115u8), 3)
            || name_is(b, j, k, (83u8, 105u8, 110u8), 3) || name_is(b, j, k, (67u8, 111u8, 115u8), 3));
        if bracket {
            bracket_at(s, b, j, k, d)
        } else if k < b.len() && b[k] == 40u8 {
            if d == 0 {
                return Err(ParseError { kind: ErrorKind::TooDeep, at: k });
            }
            match args_at(s, b, k + 1, d - 1) {
                Err(e) => Err(e),
                Ok((p, args)) => {
                    let name = piece(s, j, k);
                    let r = Expr::custom_operator(CustomOperator(name, args));
                    proof {
                        assert(r@->Call_1 =~= trees(args@));
                    }
                    Ok((p, r))
                },
            }
        } else if name_is(b, j, k, (80u8, 105u8, 0u8), 2) {
            Ok((k, Expr::math_constant(MathConst::Pi)))
        } else if name_is(b, j, k, (69u8, 0u8, 0u8), 1) {
            Ok((k, Expr::math_constant(MathConst::E)))
        } else {
            Err(ParseError { kind: ErrorKind::Lexical, at: j })
        }
    } else {
        Err(ParseError { kind: ErrorKind::Lexical, at: j })
    }
}

fn negate_at(s: &str, b: &[u8], i: usize, d: usize) -> (r: Result<(usize, Expr), ParseError>)
    requires
        fits(s, b),
        i <= b@.len(),
    ensures
        agrees(r, negate_rule(b@, i as int, d as nat)),
        advances(r, b@, i as int),
    decreases d, 1int, b@.len() - i,
{
    let j = skip_blanks_at(b, i);
    if !(j < b.len() && b[j] == 45u8) {
        return Err(ParseError { kind: ErrorKind::Lexical, at: j });
    }
    if d == 0 {
        return Err(ParseError { kind: ErrorKind::TooDeep, at: j });
    }
    match base_at(s, b, j + 1, d - 1) {
        Err(e) => Err(e),
        Ok((p, t)) => Ok((p, Expr::negate(Box::new(t)))),
    }
}

fn base_at(s: &str, b: &[u8], i: usize, d: usize) -> (r: Result<(usize, Expr), ParseError>)
    requires
        fits(s, b),
        i <= b@.len(),
    ensures
        agrees(r, base_rule(b@, i as int, d as nat)),
        advances(r, b@, i as int),
    decreases d, 2int, b@.len() - i,
{
    let j = skip_blanks_at(b, i);
    proof {
        lemma_skip_blanks(b@, j as int);
    }
    if j < b.len() && b[j] == 45u8 {
        negate_at(s, b, j, d)
    } else {
        atom_at(s, b, j, d)
    }
}

fn term_at(s: &str, b: &[u8], i: usize, d: usize) -> (r: Result<(usize, Expr), ParseError>)
    requires
        fits(s, b),
        i <= b@.len(),
    ensures
        agrees(r, term_rule(b@, i as int, d as nat)),
        advances(r, b@, i as int),
    decreases d, 4int, b@.len() - i,
{
    let (mut p, mut acc) = match base_at(s, b, i, d) {
        Err(e) => {
            return Err(e);
        },
        Ok(x) => x,
    };
    loop
        invariant
            fits(s, b),
            i < p <= b@.len(),
            b@[p - 1] < 0x80,
            term_rule(b@, i as int, d as nat) == term_rest(b@, p as int, acc@, d as nat),
        decreases b@.len() - p,
    {
        let k = skip_blanks_at(b, p);
        if k < b.len() && (b[k] == 42u8 || b[k] == 47u8) {
            match base_at(s, b, k + 1, d) {
                Err(e) => {
                    return Err(e);
                },
                Ok((q, t)) => {
                    if b[k] == 42u8 {
                        acc = Expr::multiply(Box::new(acc), Box::new(t));
                    } else {
                        acc = Expr::divide(Box::new(acc), Box::new(t));
                    }
                    p = q;
                },
            }
        } else {
            return Ok((p, acc));
        }
    }
}

fn expr_at(s: &str, b: &[u8], i: usize, d: usize) -> (r: Result<(usize, Expr), ParseError>)
    requires
        fits(s, b),
        i <= b@.len(),
    ensures
        agrees(r, expr_rule(b@, i as int, d as nat)),
        advances(r, b@, i as int),
    decreases d, 6int, b@.len() - i,
{
    let (mut p, mut acc) = match term_at(s, b, i, d) {
        Err(e) => {
            return Err(e);
        },
        Ok(x) => x,
    };
    loop
        invariant
            fits(s, b),
            i < p <= b@.len(),
            b@[p - 1] < 0x80,
            expr_rule(b@, i as int, d as nat) == expr_rest(b@, p as int, acc@, d as nat),
        decreases b@.len() - p,
    {
        let k = skip_blanks_at(b, p);
        if k < b.len() && (b[k] == 43u8 || b[k] == 45u8) {
            match term_at(s, b, k + 1, d) {
                Err(e) => {
                    return Err(e);
                },
                Ok((q, t)) => {
                    if b[k] == 43u8 {
                        acc = Expr::add(Box::new(acc), Box::new(t));
                    } else {
                        acc = Expr::subtract(Box::new(acc), Box::new(t));
                    }
                    p = q;
                },
            }
        } else {
            return Ok((p, acc));
        }
    }
}

/// Splits off the unconsumed suffix after a rule's result; blanks that run to the end of
/// the input count as consumed.
fn finish<'a>(input: &'a str, b: &[u8], r: Result<(usize, Expr), ParseError>) -> (out: Result<
    (&'a str, Expr),
    ParseError,
>)
    requires
        fits(input, b),
        advances(r, b@, -1),
    ensures
        match r {
            Ok((q, e)) => out is Ok && out->Ok_0.1 == e && out->Ok_0.0.spec_bytes() == b@.subrange(
                if skip_blanks(b@, q as int) == b@.len() {
                    b@.len() as int
                } else {
                    q as int
                },
                b@.len() as int,
            ),
            Err(x) => out == Err::<(&'a str, Expr), ParseError>(x),
        },
{
    match r {
        Err(x) => Err(x),
        Ok((q, e)) => {
            let end = skip_blanks_at(b, q);
            let p = if end == b.len() {
                end
            } else {
                q
            };
            proof {
                lemma_skip_blanks(b@, q as int);
                if p > q {
                    assert(b@[p - 1] == 32u8 || b@[p - 1] == 9u8);
                }
                if p > 0 {
                    lemma_boundary_after_ascii(b@, p - 1);
                }
            }
            let (_, rest) = input.split_at(p);
            Ok((rest, e))
        },
    }
}

fn bytes_of(input: &str) -> (b: &[u8])
    ensures
        fits(input, b),
{
    let b = input.as_bytes();
    let _ = b.len();
    b
}

/// Parses a full expression: additive chains of multiplicative chains of base units.
pub fn parse_expr(input: &str) -> (r: Result<(&str, Expr), ParseError>)
    ensures
        reports(
            r,
            input,
            trailing(expr_rule(input.spec_bytes(), 0, MAX_NESTING as nat), input.spec_bytes()),
        ),
{
    let b = bytes_of(input);
    finish(input, b, expr_at(input, b, 0, MAX_NESTING))
}

/// Parses a multiplicative chain of base units.
pub fn parse_term(input: &str) -> (r: Result<(&str, Expr), ParseError>)
    ensures
        reports(
            r,
            input,
            trailing(term_rule(input.spec_bytes(), 0, MAX_NESTING as nat), input.spec_bytes()),
        ),
{
    let b = bytes_of(input);
    finish(input, b, term_at(input, b, 0, MAX_NESTING))
}

/// Parses one base unit: a negation or an atom.
pub fn parse_base_expr(input: &str) -> (r: Result<(&str, Expr), ParseError>)
    ensures
        reports(
            r,
            input,
            trailing(base_rule(input.spec_bytes(), 0, MAX_NESTING as nat), input.spec_bytes()),
        ),
{
    let b = bytes_of(input);
    finish(input, b, base_at(input, b, 0, MAX_NESTING))
}

/// Parses a parenthesised expression.
pub fn parse_parentheses(input: &str) -> (r: Result<(&str, Expr), ParseError>)
    ensures
        reports(
            r,
            input,
            trailing(parens_rule(input.spec_bytes(), 0, MAX_NESTING as nat), input.spec_bytes()),
        ),
{
    let b = bytes_of(input);
    finish(input, b, parens_at(input, b, 0, MAX_NESTING))
}

/// Parses a negation: `-` followed by a base unit.
pub fn parse_negate(input: &str) -> (r: Result<(&str, Expr), ParseError>)
    ensures
        reports(
            r,
            input,
            trailing(negate_rule(input.spec_bytes(), 0, MAX_NESTING as nat), input.spec_bytes()),
        ),
{
    let b = bytes_of(input);
    finish(input, b, negate_at(input, b, 0, MAX_NESTING))
}

/// Parses a numeric literal.
pub fn parse_num(input: &str) -> (r: Result<(&str, Expr), ParseError>)
    ensures
        reports(r, input, trailing(num_rule(input.spec_bytes(), 0), input.spec_bytes())),
{
    let b = bytes_of(input);
    let j = skip_blanks_at(b, 0);
    let r = if j < b.len() && 48u8 <= b[j] && b[j] <= 57u8 {
        number_here(input, b, j)
    } else {
        Err(ParseError { kind: ErrorKind::Lexical, at: j })
    };
    finish(input, b, r)
}

/// Parses an absolute value: `Abs[` base unit `]`.
pub fn parse_absolute(input: &str) -> (r: Result<(&str, Expr), ParseError>)
    ensures
        reports(
            r,
            input,
            trailing(absolute_rule(input.spec_bytes(), 0, MAX_NESTING as nat), input.spec_bytes()),
        ),
{
    let b = bytes_of(input);
    let j = skip_blanks_at(b, 0);
    let k = name_end_at(b, j);
    proof {
        assert(seq![65u8, 98u8, 115u8].take(3) =~= word_abs());
    }
    let r = if j < b.len() && ((65u8 <= b[j] && b[j] <= 90u8) || (97u8 <= b[j] && b[j] <= 122u8)
        || b[j] == 95u8) && name_is(b, j, k, (65u8, 98u8, 115u8), 3) && k < b.len() && b[k]
        == 91u8 {
        bracket_at(input, b, j, k, MAX_NESTING)
    } else {
        Err(ParseError { kind: ErrorKind::Lexical, at: j })
    };
    finish(input, b, r)
}

} // verus!

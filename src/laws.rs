use vstd::prelude::*;
use crate::ast::Tree;
use crate::grammar::{
    atom_rule, base_rule, expr_rest, expr_rule, fail, number_at, parens_rule, term_rest,
    term_rule, ErrorKind, MAX_NESTING,
};
use crate::text::{digits_end, digits_value, is_blank, is_digit, skip_blanks};

verus! {

proof fn lemma_run_of_digits(b: Seq<u8>, i: int, m: int)
    requires
        0 <= i <= m <= b.len(),
        forall|k: int| i <= k < m ==> is_digit(#[trigger] b[k]),
        m == b.len() || !is_digit(b[m]),
    ensures
        digits_end(b, i) == m,
    decreases m - i,
{
    if i < m {
        lemma_run_of_digits(b, i + 1, m);
    }
}

/// Every non-empty run of decimal digits whose value fits in an `i64` parses, as a base
/// unit, into exactly that integer, consuming the whole run.
pub proof fn law_integer_literal(b: Seq<u8>, d: nat)
    requires
        b.len() > 0,
        forall|k: int| 0 <= k < b.len() ==> is_digit(#[trigger] b[k]),
        digits_value(b) <= i64::MAX,
    ensures
        base_rule(b, 0, d) == Ok::<(int, Tree), crate::grammar::ParseError>(
            (b.len() as int, Tree::Integer(digits_value(b) as i64)),
        ),
{
    assert(skip_blanks(b, 0) == 0);
    lemma_run_of_digits(b, 0, b.len() as int);
    assert(b.subrange(0, b.len() as int) =~= b);
    assert(atom_rule(b, 0, d) == number_at(b, 0));
}

/// Every input of the form `<digits>.<digits>` parses, as a base unit, into the decimal
/// literal with exactly those digits on each side, consuming the whole input.
pub proof fn law_decimal_literal(w: Seq<u8>, f: Seq<u8>, d: nat)
    requires
        w.len() > 0,
        f.len() > 0,
        forall|k: int| 0 <= k < w.len() ==> is_digit(#[trigger] w[k]),
        forall|k: int| 0 <= k < f.len() ==> is_digit(#[trigger] f[k]),
    ensures
        ({
            let b = w + seq![46u8] + f;
            base_rule(b, 0, d) == Ok::<(int, Tree), crate::grammar::ParseError>(
                (b.len() as int, Tree::Decimal(w, f)),
            )
        }),
{
    let b = w + seq![46u8] + f;
    let n = w.len() as int;
    assert(b[0] == w[0]);
    assert(skip_blanks(b, 0) == 0);
    assert forall|k: int| 0 <= k < n implies is_digit(#[trigger] b[k]) by {
        assert(b[k] == w[k]);
    }
    assert(b[n] == 46u8);
    lemma_run_of_digits(b, 0, n);
    assert forall|k: int| n + 1 <= k < b.len() implies is_digit(#[trigger] b[k]) by {
        assert(b[k] == f[k - n - 1]);
    }
    assert(is_digit(b[n + 1]));
    lemma_run_of_digits(b, n + 1, b.len() as int);
    assert(b.subrange(0, n) =~= w);
    assert(b.subrange(n + 1, b.len() as int) =~= f);
    assert(atom_rule(b, 0, d) == number_at(b, 0));
}

proof fn lemma_too_deep(b: Seq<u8>, i: int, d: nat)
    requires
        0 <= i,
        i + d < b.len(),
        forall|k: int| i <= k <= i + d ==> #[trigger] b[k] == 40u8,
    ensures
        expr_rule(b, i, d) == fail::<(int, Tree)>(ErrorKind::TooDeep, i + d),
    decreases d,
{
    assert(skip_blanks(b, i) == i);
    if d > 0 {
        lemma_too_deep(b, i + 1, (d - 1) as nat);
        assert(skip_blanks(b, i) == i);
    }
    assert(parens_rule(b, i, d) == fail::<(int, Tree)>(ErrorKind::TooDeep, i + d));
    assert(atom_rule(b, i, d) == fail::<(int, Tree)>(ErrorKind::TooDeep, i + d));
    assert(base_rule(b, i, d) == fail::<(int, Tree)>(ErrorKind::TooDeep, i + d));
    assert(term_rule(b, i, d) == fail::<(int, Tree)>(ErrorKind::TooDeep, i + d));
}

/// Parentheses nested deeper than the parser allows are reported as too deep, at the
/// first parenthesis past the limit, whatever follows them.
pub proof fn law_nesting_limit(b: Seq<u8>)
    requires
        MAX_NESTING < b.len(),
        forall|k: int| 0 <= k <= MAX_NESTING ==> #[trigger] b[k] == 40u8,
    ensures
        expr_rule(b, 0, MAX_NESTING as nat) == fail::<(int, Tree)>(
            ErrorKind::TooDeep,
            MAX_NESTING as int,
        ),
{
    lemma_too_deep(b, 0, MAX_NESTING as nat);
}

/// A literal `b[i..m]` of digits, followed by neither a digit nor a point, parses as a
/// base unit into its integer value.
proof fn lemma_literal_at(b: Seq<u8>, i: int, m: int, d: nat)
    requires
        0 <= i < m <= b.len(),
        forall|k: int| i <= k < m ==> is_digit(#[trigger] b[k]),
        m == b.len() || (!is_digit(b[m]) && b[m] != 46u8),
        digits_value(b.subrange(i, m)) <= i64::MAX,
    ensures
        base_rule(b, i, d) == Ok::<(int, Tree), crate::grammar::ParseError>(
            (m, Tree::Integer(digits_value(b.subrange(i, m)) as i64)),
        ),
{
    assert(is_digit(b[i]));
    assert(skip_blanks(b, i) == i);
    lemma_run_of_digits(b, i, m);
    assert(atom_rule(b, i, d) == number_at(b, i));
}

pub open spec fn is_literal(s: Seq<u8>) -> bool {
    &&& s.len() > 0
    &&& forall|k: int| 0 <= k < s.len() ==> is_digit(#[trigger] s[k])
    &&& digits_value(s) <= i64::MAX
}

pub open spec fn literal(s: Seq<u8>) -> Tree {
    Tree::Integer(digits_value(s) as i64)
}

/// Division is left-associative: for any integer literals `x`, `y`, `z`, the input
/// `x/y/z` parses whole into `(x / y) / z`.
pub proof fn law_division_left_associative(x: Seq<u8>, y: Seq<u8>, z: Seq<u8>, d: nat)
    requires
        is_literal(x),
        is_literal(y),
        is_literal(z),
    ensures
        ({
            let b = x + seq![47u8] + y + seq![47u8] + z;
            expr_rule(b, 0, d) == Ok::<(int, Tree), crate::grammar::ParseError>(
                (
                    b.len() as int,
                    Tree::Division(
                        Box::new(Tree::Division(Box::new(literal(x)), Box::new(literal(y)))),
                        Box::new(literal(z)),
                    ),
                ),
            )
        }),
{
    let b = x + seq![47u8] + y + seq![47u8] + z;
    let n1 = x.len() as int;
    let n2 = n1 + 1 + y.len();
    let n = b.len() as int;
    assert forall|k: int| 0 <= k < n1 implies is_digit(#[trigger] b[k]) by {
        assert(b[k] == x[k]);
    }
    assert forall|k: int| n1 + 1 <= k < n2 implies is_digit(#[trigger] b[k]) by {
        assert(b[k] == y[k - n1 - 1]);
    }
    assert forall|k: int| n2 + 1 <= k < n implies is_digit(#[trigger] b[k]) by {
        assert(b[k] == z[k - n2 - 1]);
    }
    assert(b[n1] == 47u8);
    assert(b[n2] == 47u8);
    assert(b.subrange(0, n1) =~= x);
    assert(b.subrange(n1 + 1, n2) =~= y);
    assert(b.subrange(n2 + 1, n) =~= z);
    lemma_literal_at(b, 0, n1, d);
    lemma_literal_at(b, n1 + 1, n2, d);
    lemma_literal_at(b, n2 + 1, n, d);
    assert(skip_blanks(b, n1) == n1);
    assert(skip_blanks(b, n2) == n2);
    assert(skip_blanks(b, n) == n);
    let xy = Tree::Division(Box::new(literal(x)), Box::new(literal(y)));
    let xyz = Tree::Division(Box::new(xy), Box::new(literal(z)));
    assert(term_rest(b, n, xyz, d) == Ok::<(int, Tree), crate::grammar::ParseError>((n, xyz)));
    assert(term_rest(b, n2, xy, d) == term_rest(b, n, xyz, d));
    assert(term_rest(b, n1, literal(x), d) == term_rest(b, n2, xy, d));
    assert(expr_rest(b, n, xyz, d) == Ok::<(int, Tree), crate::grammar::ParseError>((n, xyz)));
}

/// Multiplication binds tighter than addition: for any integer literals `x`, `y`, `z`,
/// the input `x+y*z` parses whole into `x + (y * z)`.
pub proof fn law_multiplication_binds_tighter(x: Seq<u8>, y: Seq<u8>, z: Seq<u8>, d: nat)
    requires
        is_literal(x),
        is_literal(y),
        is_literal(z),
    ensures
        ({
            let b = x + seq![43u8] + y + seq![42u8] + z;
            expr_rule(b, 0, d) == Ok::<(int, Tree), crate::grammar::ParseError>(
                (
                    b.len() as int,
                    Tree::Addition(
                        Box::new(literal(x)),
                        Box::new(Tree::Multiplication(Box::new(literal(y)), Box::new(literal(z)))),
                    ),
                ),
            )
        }),
{
    let b = x + seq![43u8] + y + seq![42u8] + z;
    let n1 = x.len() as int;
    let n2 = n1 + 1 + y.len();
    let n = b.len() as int;
    assert forall|k: int| 0 <= k < n1 implies is_digit(#[trigger] b[k]) by {
        assert(b[k] == x[k]);
    }
    assert forall|k: int| n1 + 1 <= k < n2 implies is_digit(#[trigger] b[k]) by {
        assert(b[k] == y[k - n1 - 1]);
    }
    assert forall|k: int| n2 + 1 <= k < n implies is_digit(#[trigger] b[k]) by {
        assert(b[k] == z[k - n2 - 1]);
    }
    assert(b[n1] == 43u8);
    assert(b[n2] == 42u8);
    assert(b.subrange(0, n1) =~= x);
    assert(b.subrange(n1 + 1, n2) =~= y);
    assert(b.subrange(n2 + 1, n) =~= z);
    lemma_literal_at(b, 0, n1, d);
    lemma_literal_at(b, n1 + 1, n2, d);
    lemma_literal_at(b, n2 + 1, n, d);
    assert(skip_blanks(b, n1) == n1);
    assert(skip_blanks(b, n2) == n2);
    assert(skip_blanks(b, n) == n);
    let yz = Tree::Multiplication(Box::new(literal(y)), Box::new(literal(z)));
    let all = Tree::Addition(Box::new(literal(x)), Box::new(yz));
    assert(term_rest(b, n, yz, d) == Ok::<(int, Tree), crate::grammar::ParseError>((n, yz)));
    assert(term_rest(b, n2, literal(y), d) == term_rest(b, n, yz, d));
    assert(term_rest(b, n1, literal(x), d) == Ok::<(int, Tree), crate::grammar::ParseError>(
        (n1, literal(x)),
    ));
    assert(expr_rest(b, n, all, d) == Ok::<(int, Tree), crate::grammar::ParseError>((n, all)));
    assert(expr_rest(b, n1, literal(x), d) == expr_rest(b, n, all, d));
}

/// Parentheses override precedence: for any integer literals `x`, `y`, `z`, the input
/// `(x+y)*z` parses whole into `(x + y) * z`.
pub proof fn law_parentheses_override_precedence(x: Seq<u8>, y: Seq<u8>, z: Seq<u8>, d: nat)
    requires
        is_literal(x),
        is_literal(y),
        is_literal(z),
        d > 0,
    ensures
        ({
            let b = seq![40u8] + x + seq![43u8] + y + seq![41u8, 42u8] + z;
            expr_rule(b, 0, d) == Ok::<(int, Tree), crate::grammar::ParseError>(
                (
                    b.len() as int,
                    Tree::Multiplication(
                        Box::new(Tree::Addition(Box::new(literal(x)), Box::new(literal(y)))),
                        Box::new(literal(z)),
                    ),
                ),
            )
        }),
{
    let b = seq![40u8] + x + seq![43u8] + y + seq![41u8, 42u8] + z;
    let e = (d - 1) as nat;
    let n1 = 1 + x.len() as int;
    let n2 = n1 + 1 + y.len();
    let n = b.len() as int;
    assert forall|k: int| 1 <= k < n1 implies is_digit(#[trigger] b[k]) by {
        assert(b[k] == x[k - 1]);
    }
    assert forall|k: int| n1 + 1 <= k < n2 implies is_digit(#[trigger] b[k]) by {
        assert(b[k] == y[k - n1 - 1]);
    }
    assert forall|k: int| n2 + 2 <= k < n implies is_digit(#[trigger] b[k]) by {
        assert(b[k] == z[k - n2 - 2]);
    }
    assert(b[0] == 40u8);
    assert(b[n1] == 43u8);
    assert(b[n2] == 41u8);
    assert(b[n2 + 1] == 42u8);
    assert(b.subrange(1, n1) =~= x);
    assert(b.subrange(n1 + 1, n2) =~= y);
    assert(b.subrange(n2 + 2, n) =~= z);
    lemma_literal_at(b, 1, n1, e);
    lemma_literal_at(b, n1 + 1, n2, e);
    lemma_literal_at(b, n2 + 2, n, d);
    assert(skip_blanks(b, 0) == 0);
    assert(skip_blanks(b, n1) == n1);
    assert(skip_blanks(b, n2) == n2);
    assert(skip_blanks(b, n2 + 1) == n2 + 1);
    assert(skip_blanks(b, n) == n);
    let xy = Tree::Addition(Box::new(literal(x)), Box::new(literal(y)));
    let all = Tree::Multiplication(Box::new(xy), Box::new(literal(z)));
    assert(term_rest(b, n1, literal(x), e) == Ok::<(int, Tree), crate::grammar::ParseError>(
        (n1, literal(x)),
    ));
    assert(term_rest(b, n2, literal(y), e) == Ok::<(int, Tree), crate::grammar::ParseError>(
        (n2, literal(y)),
    ));
    assert(expr_rest(b, n2, xy, e) == Ok::<(int, Tree), crate::grammar::ParseError>((n2, xy)));
    assert(expr_rest(b, n1, literal(x), e) == expr_rest(b, n2, xy, e));
    assert(expr_rule(b, 1, e) == Ok::<(int, Tree), crate::grammar::ParseError>((n2, xy)));
    assert(parens_rule(b, 0, d) == Ok::<(int, Tree), crate::grammar::ParseError>((n2 + 1, xy)));
    assert(atom_rule(b, 0, d) == parens_rule(b, 0, d));
    assert(base_rule(b, 0, d) == atom_rule(b, 0, d));
    assert(term_rest(b, n, all, d) == Ok::<(int, Tree), crate::grammar::ParseError>((n, all)));
    assert(term_rest(b, n2 + 1, xy, d) == term_rest(b, n, all, d));
    assert(expr_rest(b, n, all, d) == Ok::<(int, Tree), crate::grammar::ParseError>((n, all)));
}

proof fn lemma_run_of_blanks(b: Seq<u8>, i: int, m: int)
    requires
        0 <= i <= m <= b.len(),
        forall|k: int| i <= k < m ==> is_blank(#[trigger] b[k]),
        m == b.len() || !is_blank(b[m]),
    ensures
        skip_blanks(b, i) == m,
    decreases m - i,
{
    if i < m {
        lemma_run_of_blanks(b, i + 1, m);
    }
}

/// Blanks around a binary operator do not change the tree: for any integer literals
/// `x`, `y` and any runs of spaces and tabs `s`, `t`, the input `x s + t y` parses whole
/// into `x + y`.
pub proof fn law_blanks_around_operator(x: Seq<u8>, s: Seq<u8>, t: Seq<u8>, y: Seq<u8>, d: nat)
    requires
        is_literal(x),
        is_literal(y),
        forall|k: int| 0 <= k < s.len() ==> is_blank(#[trigger] s[k]),
        forall|k: int| 0 <= k < t.len() ==> is_blank(#[trigger] t[k]),
    ensures
        ({
            let b = x + s + seq![43u8] + t + y;
            expr_rule(b, 0, d) == Ok::<(int, Tree), crate::grammar::ParseError>(
                (b.len() as int, Tree::Addition(Box::new(literal(x)), Box::new(literal(y)))),
            )
        }),
{
    let b = x + s + seq![43u8] + t + y;
    let n1 = x.len() as int;
    let k = n1 + s.len();
    let j = k + 1 + t.len();
    let n = b.len() as int;
    assert forall|i: int| 0 <= i < n1 implies is_digit(#[trigger] b[i]) by {
        assert(b[i] == x[i]);
    }
    assert forall|i: int| n1 <= i < k implies is_blank(#[trigger] b[i]) by {
        assert(b[i] == s[i - n1]);
    }
    assert forall|i: int| k + 1 <= i < j implies is_blank(#[trigger] b[i]) by {
        assert(b[i] == t[i - k - 1]);
    }
    assert forall|i: int| j <= i < n implies is_digit(#[trigger] b[i]) by {
        assert(b[i] == y[i - j]);
    }
    assert(b[k] == 43u8);
    assert(is_digit(b[j]));
    if n1 < k {
        assert(is_blank(b[n1]));
    }
    assert(b.subrange(0, n1) =~= x);
    assert(b.subrange(j, n) =~= y);
    lemma_literal_at(b, 0, n1, d);
    lemma_literal_at(b, j, n, d);
    lemma_run_of_blanks(b, n1, k);
    lemma_run_of_blanks(b, k + 1, j);
    lemma_run_of_blanks(b, n, n);
    assert(skip_blanks(b, j) == j);
    assert(base_rule(b, k + 1, d) == base_rule(b, j, d));
    let all = Tree::Addition(Box::new(literal(x)), Box::new(literal(y)));
    assert(term_rest(b, n1, literal(x), d) == Ok::<(int, Tree), crate::grammar::ParseError>(
        (n1, literal(x)),
    ));
    assert(term_rest(b, n, literal(y), d) == Ok::<(int, Tree), crate::grammar::ParseError>(
        (n, literal(y)),
    ));
    assert(expr_rest(b, n, all, d) == Ok::<(int, Tree), crate::grammar::ParseError>((n, all)));
    assert(expr_rest(b, n1, literal(x), d) == expr_rest(b, n, all, d));
}

} // verus!

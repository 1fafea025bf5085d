use vstd::prelude::*;
use vstd::string::StringSliceAdditionalSpecFns;
use vstd::utf8::*;

verus! {

broadcast use vstd::utf8::group_utf8_lib;

pub open spec fn is_blank(c: u8) -> bool {
    c == 32u8 || c == 9u8
}

pub open spec fn is_digit(c: u8) -> bool {
    48u8 <= c <= 57u8
}

pub open spec fn is_name_start(c: u8) -> bool {
    (65u8 <= c <= 90u8) || (97u8 <= c <= 122u8) || c == 95u8
}

pub open spec fn is_name_char(c: u8) -> bool {
    is_name_start(c) || is_digit(c)
}

/// The first position at or after `i` that holds no space or tab.
pub open spec fn skip_blanks(b: Seq<u8>, i: int) -> int
    decreases b.len() - i,
{
    if 0 <= i < b.len() && is_blank(b[i]) {
        skip_blanks(b, i + 1)
    } else {
        i
    }
}

/// The end of the run of digits that starts at `i`.
pub open spec fn digits_end(b: Seq<u8>, i: int) -> int
    decreases b.len() - i,
{
    if 0 <= i < b.len() && is_digit(b[i]) {
        digits_end(b, i + 1)
    } else {
        i
    }
}

/// The end of the run of name characters that starts at `i`.
pub open spec fn name_end(b: Seq<u8>, i: int) -> int
    decreases b.len() - i,
{
    if 0 <= i < b.len() && is_name_char(b[i]) {
        name_end(b, i + 1)
    } else {
        i
    }
}

/// The value of a run of decimal digits, most significant first.
pub open spec fn digits_value(s: Seq<u8>) -> int
    decreases s.len(),
{
    if s.len() == 0 {
        0
    } else {
        10 * digits_value(s.drop_last()) + (s.last() - 48u8)
    }
}

pub proof fn lemma_skip_blanks(b: Seq<u8>, i: int)
    requires
        0 <= i <= b.len(),
    ensures
        i <= skip_blanks(b, i) <= b.len(),
        forall|k: int| i <= k < skip_blanks(b, i) ==> is_blank(#[trigger] b[k]),
    decreases b.len() - i,
{
    if i < b.len() && is_blank(b[i]) {
        lemma_skip_blanks(b, i + 1);
    }
}

pub proof fn lemma_digits_end(b: Seq<u8>, i: int)
    requires
        0 <= i <= b.len(),
    ensures
        i <= digits_end(b, i) <= b.len(),
        forall|k: int| i <= k < digits_end(b, i) ==> is_digit(#[trigger] b[k]),
    decreases b.len() - i,
{
    if i < b.len() && is_digit(b[i]) {
        lemma_digits_end(b, i + 1);
    }
}

pub proof fn lemma_name_end(b: Seq<u8>, i: int)
    requires
        0 <= i <= b.len(),
    ensures
        i <= name_end(b, i) <= b.len(),
        forall|k: int| i <= k < name_end(b, i) ==> is_name_char(#[trigger] b[k]),
    decreases b.len() - i,
{
    if i < b.len() && is_name_char(b[i]) {
        lemma_name_end(b, i + 1);
    }
}

/// A longer run of digits never has a smaller value.
pub proof fn lemma_digits_value_grows(s: Seq<u8>, m: int)
    requires
        0 <= m <= s.len(),
        forall|k: int| 0 <= k < s.len() ==> is_digit(#[trigger] s[k]),
    ensures
        0 <= digits_value(s.subrange(0, m)) <= digits_value(s),
    decreases s.len(),
{
    if s.len() > 0 {
        assert(s.drop_last() =~= s.subrange(0, s.len() - 1));
        if m < s.len() {
            lemma_digits_value_grows(s.drop_last(), m);
            assert(s.drop_last().subrange(0, m) =~= s.subrange(0, m));
        } else {
            assert(s.subrange(0, m) =~= s);
            lemma_digits_value_grows(s.drop_last(), 0);
        }
    } else {
        assert(s.subrange(0, m) =~= s);
    }
}

pub fn skip_blanks_at(b: &[u8], i: usize) -> (r: usize)
    requires
        i <= b@.len(),
    ensures
        r == skip_blanks(b@, i as int),
        i <= r <= b@.len(),
{
    proof {
        lemma_skip_blanks(b@, i as int);
    }
    let mut j: usize = i;
    while j < b.len() && (b[j] == 32u8 || b[j] == 9u8)
        invariant
            i <= j <= b@.len(),
            skip_blanks(b@, j as int) == skip_blanks(b@, i as int),
        decreases b@.len() - j,
    {
        j = j + 1;
    }
    j
}

pub fn digits_end_at(b: &[u8], i: usize) -> (r: usize)
    requires
        i <= b@.len(),
    ensures
        r == digits_end(b@, i as int),
        i <= r <= b@.len(),
{
    proof {
        lemma_digits_end(b@, i as int);
    }
    let mut j: usize = i;
    while j < b.len() && 48u8 <= b[j] && b[j] <= 57u8
        invariant
            i <= j <= b@.len(),
            digits_end(b@, j as int) == digits_end(b@, i as int),
        decreases b@.len() - j,
    {
        j = j + 1;
    }
    j
}

pub fn name_end_at(b: &[u8], i: usize) -> (r: usize)
    requires
        i <= b@.len(),
    ensures
        r == name_end(b@, i as int),
        i <= r <= b@.len(),
{
    proof {
        lemma_name_end(b@, i as int);
    }
    let mut j: usize = i;
    while j < b.len() && ((65u8 <= b[j] && b[j] <= 90u8) || (97u8 <= b[j] && b[j] <= 122u8)
        || b[j] == 95u8 || (48u8 <= b[j] && b[j] <= 57u8))
        invariant
            i <= j <= b@.len(),
            name_end(b@, j as int) == name_end(b@, i as int),
        decreases b@.len() - j,
    {
        j = j + 1;
    }
    j
}

/// The value of the digits `b[i..e]`, or `None` where it does not fit in an `i64`.
pub fn digits_to_i64(b: &[u8], i: usize, e: usize) -> (r: Option<i64>)
    requires
        i <= e <= b@.len(),
        forall|k: int| i <= k < e ==> is_digit(#[trigger] b@[k]),
    ensures
        match r {
            Some(v) => v == digits_value(b@.subrange(i as int, e as int)),
            None => digits_value(b@.subrange(i as int, e as int)) > i64::MAX,
        },
{
    let mut acc: i64 = 0;
    let mut j: usize = i;
    while j < e
        invariant
            i <= j <= e <= b@.len(),
            forall|k: int| i <= k < e ==> is_digit(#[trigger] b@[k]),
            acc == digits_value(b@.subrange(i as int, j as int)),
        decreases e - j,
    {
        let d: i64 = (b[j] - 48u8) as i64;
        proof {
            let s = b@.subrange(i as int, j as int + 1);
            assert(s.drop_last() =~= b@.subrange(i as int, j as int));
        }
        if acc > (i64::MAX - d) / 10 {
            proof {
                let s = b@.subrange(i as int, e as int);
                assert(s.subrange(0, j - i + 1) =~= b@.subrange(i as int, j as int + 1));
                lemma_digits_value_grows(s, j - i + 1);
            }
            return None;
        }
        proof {
            lemma_digits_value_grows(b@.subrange(i as int, j as int), 0);
            assert(0 <= acc * 10 + d <= i64::MAX) by (nonlinear_arith)
                requires
                    0 <= acc <= (i64::MAX - d) / 10,
                    0 <= d <= 9,
            ;
        }
        acc = acc * 10 + d;
        j = j + 1;
    }
    Some(acc)
}

/// A position just past an ASCII byte of a valid UTF-8 text is a character boundary.
pub proof fn lemma_boundary_after_ascii(bytes: Seq<u8>, i: int)
    requires
        valid_utf8(bytes),
        0 <= i < bytes.len(),
        bytes[i] < 0x80,
    ensures
        is_char_boundary(bytes, i),
        is_char_boundary(bytes, i + 1),
{
    is_char_boundary_iff_not_is_continuation_byte(bytes, i);
    lemma_step_ascii(bytes, i);
}

proof fn lemma_step_ascii(bytes: Seq<u8>, i: int)
    requires
        valid_utf8(bytes),
        0 <= i < bytes.len(),
        bytes[i] < 0x80,
        is_char_boundary(bytes, i),
    ensures
        is_char_boundary(bytes, i + 1),
    decreases bytes.len(),
{
    let tail = pop_first_scalar(bytes);
    let w = length_of_first_scalar(bytes);
    if i == 0 {
        assert(w == 1);
        assert(is_char_boundary(tail, 0));
    } else {
        assert(is_char_boundary(tail, i - w));
        assert(0 < w <= bytes.len());
        assert(tail.len() == bytes.len() - w);
        assert(tail[i - w] == bytes[i]);
        lemma_step_ascii(tail, i - w);
    }
}

/// The text of `s` from byte `i` up to byte `e`, where both ends sit next to ASCII bytes.
pub fn piece(s: &str, i: usize, e: usize) -> (r: String)
    requires
        i < e <= s.spec_bytes().len(),
        s.spec_bytes()[i as int] < 0x80,
        s.spec_bytes()[e - 1] < 0x80,
    ensures
        encode_utf8(r@) == s.spec_bytes().subrange(i as int, e as int),
{
    let ghost b = s.spec_bytes();
    proof {
        lemma_boundary_after_ascii(b, e - 1);
        valid_utf8_split(b, e as int);
        let h = b.subrange(0, e as int);
        assert(h[i as int] == b[i as int]);
        lemma_boundary_after_ascii(h, i as int);
    }
    let (head, _) = s.split_at(e);
    let (_, mid) = head.split_at(i);
    proof {
        assert(mid.spec_bytes() =~= b.subrange(i as int, e as int));
    }
    mid.to_owned()
}

} // verus!

use vstd::prelude::*;

verus! {

/// A decimal digit in ASCII.
pub open spec fn is_digit(c: char) -> bool {
    '0' <= c && c <= '9'
}

/// The value of a string of decimal digits, most significant first.
pub open spec fn digits_value(d: Seq<char>) -> int
    decreases d.len(),
{
    if d.len() == 0 {
        0
    } else {
        10 * digits_value(d.drop_last()) + (d.last() as int - '0' as int)
    }
}

/// `s` starts with a `+` or `-` sign.
pub open spec fn has_sign(s: Seq<char>) -> bool {
    s.len() > 0 && (s[0] == '+' || s[0] == '-')
}

/// `s` without its sign, if it has one.
pub open spec fn unsigned_part(s: Seq<char>) -> Seq<char> {
    if has_sign(s) {
        s.drop_first()
    } else {
        s
    }
}

pub open spec fn all_digits(d: Seq<char>) -> bool {
    forall|i: int| 0 <= i < d.len() ==> is_digit(#[trigger] d[i])
}

/// The number that a sign and a string of digits denote.
pub open spec fn signed_value(s: Seq<char>) -> int {
    if has_sign(s) && s[0] == '-' {
        -digits_value(unsigned_part(s))
    } else {
        digits_value(unsigned_part(s))
    }
}

/// `s` is an optional `+` or `-` followed by one or more decimal digits,
/// and the number it denotes fits in an `i64`.
pub open spec fn is_integer_text(s: Seq<char>) -> bool {
    &&& unsigned_part(s).len() > 0
    &&& all_digits(unsigned_part(s))
    &&& i64::MIN <= signed_value(s) <= i64::MAX
}

pub open spec fn is_open_paren(t: Seq<char>) -> bool {
    t == seq!['(']
}

pub open spec fn is_close_paren(t: Seq<char>) -> bool {
    t == seq![')']
}

/// A grouping token: `(` or `)`.
pub open spec fn is_grouping(t: Seq<char>) -> bool {
    is_open_paren(t) || is_close_paren(t)
}

/// An operand: a token that reads as a signed integer.
pub open spec fn is_operand_token(t: Seq<char>) -> bool {
    is_integer_text(t)
}

/// An operator: neither an operand nor a grouping token.
pub open spec fn is_operator_token(t: Seq<char>) -> bool {
    !is_operand_token(t) && !is_grouping(t)
}

/// The precedence level of an operator: `*` and `/` bind at 2, every other
/// operator at 1.
pub open spec fn level(t: Seq<char>) -> int {
    if t == seq!['*'] || t == seq!['/'] {
        2
    } else {
        1
    }
}

/// Relies on `str::parse::<i64>`: it succeeds exactly on an optional sign
/// followed by decimal digits whose value is in the range of `i64`.
#[verifier::external_body]
fn parses_as_i64(s: &str) -> (r: bool)
    ensures
        r == is_integer_text(s@),
{
    s.parse::<i64>().is_ok()
}

/// `t` is exactly the one character `c`.
fn is_single(t: &String, c: char) -> (r: bool)
    ensures
        r == (t@ == seq![c]),
{
    let s = t.as_str();
    if s.unicode_len() != 1 {
        return false;
    }
    let r = s.get_char(0) == c;
    proof {
        if r {
            assert(t@ =~= seq![c]);
        }
    }
    r
}

/// `t` is `(`.
pub fn is_open(t: &String) -> (r: bool)
    ensures
        r == is_open_paren(t@),
{
    is_single(t, '(')
}

/// `t` is `)`.
pub fn is_close(t: &String) -> (r: bool)
    ensures
        r == is_close_paren(t@),
{
    is_single(t, ')')
}

/// `token` reads as a signed integer.
pub fn is_operand(token: &String) -> (r: bool)
    ensures
        r == is_operand_token(token@),
{
    parses_as_i64(token.as_str())
}

/// `token` is neither an operand nor a grouping token.
pub fn is_operator(token: &String) -> (r: bool)
    ensures
        r == is_operator_token(token@),
{
    !is_operand(token) && !is_open(token) && !is_close(token)
}

/// The precedence level of an operator.
pub fn get_operator_level(token: &String) -> (r: i64)
    ensures
        r == level(token@),
{
    if is_single(token, '*') || is_single(token, '/') {
        2
    } else {
        1
    }
}

/// Whether the operator `left` (on the stack) is to be emitted before the
/// operator `right` is pushed: its level is at least that of `right`.
pub fn left_operator_has_greater_precedence(left_token: &String, right_token: &String) -> (r: bool)
    ensures
        r == (level(left_token@) >= level(right_token@)),
{
    get_operator_level(left_token) >= get_operator_level(right_token)
}

} // verus!

use vstd::prelude::*;

verus! {

/// The decimal digit character for `d` (below 10).
pub open spec fn digit_char(d: nat) -> char {
    (48 + d) as char
}

/// The decimal digits of `n`, without leading zeros ("0" for zero).
pub open spec fn digits_of(n: nat) -> Seq<char>
    decreases n,
{
    if n < 10 {
        seq![digit_char(n)]
    } else {
        digits_of(n / 10).push(digit_char(n % 10))
    }
}

/// The decimal text of `n`: a minus sign for a negative number, then the
/// digits of its magnitude.
pub open spec fn decimal_text(n: i32) -> Seq<char> {
    if n < 0 {
        seq!['-'] + digits_of((-n) as nat)
    } else {
        digits_of(n as nat)
    }
}

/// `ToString::to_string` on an `i32`, trusted: the decimal text of `n`.
#[verifier::external_body]
pub(crate) fn i32_to_string(n: i32) -> (r: String)
    ensures
        r@ == decimal_text(n),
{
    n.to_string()
}

/// The text that `Debug` gives for a string: the string between double
/// quotes, with quotes, backslashes and other characters escaped.
pub uninterp spec fn debug_quoted(s: Seq<char>) -> Seq<char>;

/// `Debug` on a `str`, through `format!`, trusted: its text is
/// `debug_quoted(s)`, which depends on `s` alone.
#[verifier::external_body]
pub(crate) fn str_debug(s: &str) -> (r: String)
    ensures
        r@ == debug_quoted(s@),
{
    format!("{:?}", s)
}

/// `name(` + `arg` + `)`.
pub open spec fn call_text(name: Seq<char>, arg: Seq<char>) -> Seq<char> {
    name + seq!['('] + arg + seq![')']
}

/// `name(` + `arg` + `)` as a `String`.
pub(crate) fn call_string(name: &str, arg: &str) -> (r: String)
    ensures
        r@ == call_text(name@, arg@),
{
    let mut r = String::from_str(name);
    r.push('(');
    r.append(arg);
    r.push(')');
    r
}

} // verus!

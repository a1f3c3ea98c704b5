use vstd::prelude::*;

verus! {

pub open spec fn is_decimal_digit(c: char) -> bool {
    '0' <= c <= '9'
}

/// The value of a string of decimal digits, most significant first.
pub open spec fn decimal_value(ds: Seq<char>) -> nat
    decreases ds.len(),
{
    if ds.len() == 0 {
        0
    } else {
        decimal_value(ds.drop_last()) * 10 + ((ds.last() as u32) - ('0' as u32)) as nat
    }
}

/// `s` without one leading `+`, if it has one.
pub open spec fn unsigned_digits(s: Seq<char>) -> Seq<char> {
    if s.len() > 0 && s[0] == '+' {
        s.skip(1)
    } else {
        s
    }
}

/// `s` is an optional `+` followed by one or more decimal digits whose value
/// fits in a `usize`.
pub open spec fn parses_as_usize(s: Seq<char>) -> bool {
    let ds = unsigned_digits(s);
    &&& ds.len() > 0
    &&& forall|i: int| 0 <= i < ds.len() ==> is_decimal_digit(#[trigger] ds[i])
    &&& decimal_value(ds) <= usize::MAX
}

/// The message with which decimal parsing of `s` into a `usize` fails.
pub uninterp spec fn parse_error_message(s: Seq<char>) -> Seq<char>;

/// Relies on `usize::from_str_radix` with radix 10: it accepts exactly an
/// optional `+` followed by decimal digits whose value fits, and returns that
/// value; otherwise its `ParseIntError`, rendered as text, which depends on the
/// input alone.
#[verifier::external_body]
fn parse_usize(s: &str) -> (r: Result<usize, String>)
    ensures
        r is Ok <==> parses_as_usize(s@),
        r matches Ok(x) ==> x == decimal_value(unsigned_digits(s@)),
        r matches Err(m) ==> m@ == parse_error_message(s@),
{
    match usize::from_str_radix(s, 10) {
        Ok(x) => Ok(x),
        Err(e) => Err(e.to_string()),
    }
}

/// Accepts a string that reads as a decimal `usize`; otherwise gives the
/// reason why it does not.
pub fn cli_validator_usize(v: String) -> (r: Result<(), String>)
    ensures
        r is Ok <==> parses_as_usize(v@),
        r matches Err(m) ==> m@ == parse_error_message(v@),
{
    match parse_usize(v.as_str()) {
        Ok(_) => Ok(()),
        Err(m) => Err(m),
    }
}

} // verus!

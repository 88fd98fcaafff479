use vstd::prelude::*;
use vstd::string::StringExecFns;
use crate::error::AppError;

verus! {

/// A hexadecimal digit, in either case.
pub open spec fn is_hex_digit(c: char) -> bool {
    ('0' <= c && c <= '9') || ('a' <= c && c <= 'f') || ('A' <= c && c <= 'F')
}

/// Exactly forty hexadecimal digits: the twenty bytes of an address.
pub open spec fn is_hex_body(s: Seq<char>) -> bool {
    s.len() == 40 && forall|i: int| 0 <= i < s.len() ==> is_hex_digit(#[trigger] s[i])
}

/// A well-formed chain address: an optional `0x` or `0X` prefix followed
/// by forty hexadecimal digits.
pub open spec fn is_address_text(s: Seq<char>) -> bool {
    if s.len() >= 2 && s[0] == '0' && (s[1] == 'x' || s[1] == 'X') {
        is_hex_body(s.subrange(2, s.len() as int))
    } else {
        is_hex_body(s)
    }
}

/// Relies on alloy's `Address` `FromStr`, which strips an optional `0x` or
/// `0X` prefix and decodes exactly twenty bytes of hex.
#[verifier::external_body]
fn parses_as_address(s: &str) -> (r: bool)
    ensures
        r == is_address_text(s@),
{
    s.parse::<alloy::primitives::Address>().is_ok()
}

/// Accepts a well-formed chain address and rejects anything else with a
/// `ParseError`, before any upstream call is made for it.
pub fn check_address(s: &str) -> (r: Result<(), AppError>)
    ensures
        r is Ok <==> is_address_text(s@),
        r is Err ==> r->Err_0 is ParseError,
{
    if parses_as_address(s) {
        Ok(())
    } else {
        Err(AppError::ParseError(String::from_str("invalid address")))
    }
}

} // verus!

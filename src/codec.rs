//! Percent-encoding of parameter values.
use vstd::prelude::*;
use vstd::string::StringExecFns;

verus! {

/// The percent-encoding of `s`.
pub uninterp spec fn percent_encoded(s: Seq<char>) -> Seq<char>;

/// The percent-decoding of `s`, when the decoded bytes are valid UTF-8.
pub uninterp spec fn percent_decoded(s: Seq<char>) -> Option<Seq<char>>;

/// A character that percent-encoding leaves as it is.
pub open spec fn is_unreserved(c: char) -> bool {
    ('0' <= c <= '9') || ('a' <= c <= 'z') || ('A' <= c <= 'Z') || c == '-' || c == '.' || c
        == '_' || c == '~'
}

/// Relies on urlencoding's `encode`: every byte is percent-encoded except ASCII
/// alphanumerics and `-`, `.`, `_`, `~`, so a string of those alone is unchanged.
#[verifier::external_body]
pub(crate) fn encode_value(value: &str) -> (r: String)
    ensures
        r@ == percent_encoded(value@),
        (forall|i: int| 0 <= i < value@.len() ==> is_unreserved(#[trigger] value@[i])) ==> r@
            == value@,
{
    urlencoding::encode(value).into_owned()
}

/// Relies on urlencoding's `decode`: fails only when the decoded bytes are not
/// UTF-8, and returns a string without `%` as it is.
#[verifier::external_body]
pub(crate) fn decode_value(value: &str) -> (r: Option<String>)
    ensures
        match r {
            Some(d) => percent_decoded(value@) == Some(d@),
            None => percent_decoded(value@) is None,
        },
        !value@.contains('%') ==> r is Some && r->Some_0@ == value@,
{
    urlencoding::decode(value).ok().map(|d| d.into_owned())
}

/// What a captured value decodes to: its percent-decoding, or the value itself
/// when that fails.
pub open spec fn decoded_or_raw(s: Seq<char>) -> Seq<char> {
    match percent_decoded(s) {
        Some(d) => d,
        None => s,
    }
}

/// Decodes a captured parameter value, keeping it as it is when it is malformed.
pub fn decode_parameter_value(value: &str) -> (r: String)
    ensures
        r@ == decoded_or_raw(value@),
{
    match decode_value(value) {
        Some(d) => d,
        None => String::from_str(value),
    }
}

} // verus!

//! The text collaborators: URL parsing and validation, percent-encoding of
//! aliases, and fresh identifier generation.

use vstd::prelude::*;

verus! {

/// What parsing a string as a URL yields: the canonical serialization of the
/// parsed URL when the string is a well-formed URL, and nothing otherwise.
/// The result is a function of the input characters alone.
pub uninterp spec fn parsed_url(s: Seq<char>) -> Option<Seq<char>>;

/// The percent-encoding of a string: every byte of its UTF-8 form except
/// ASCII alphanumerics and `-`, `.`, `_`, `~` escaped. A function of the
/// input characters alone.
pub uninterp spec fn percent_encoded(s: Seq<char>) -> Seq<char>;

/// Relies on url::Url::parse: it accepts exactly the well-formed URLs, is
/// deterministic in its input, and the parsed URL converts back to its
/// canonical string serialization.
#[verifier::external_body]
pub(crate) fn try_parse_url(s: &str) -> (r: Option<String>)
    ensures
        r is Some <==> parsed_url(s@) is Some,
        r is Some ==> r.unwrap()@ == parsed_url(s@).unwrap(),
{
    match url::Url::parse(s) {
        Ok(u) => Some(String::from(u)),
        Err(_) => None,
    }
}

/// Relies on urlencoding::encode: deterministic percent-encoding of the
/// input string.
#[verifier::external_body]
pub(crate) fn encode_alias(s: &str) -> (r: String)
    ensures
        r@ == percent_encoded(s@),
{
    urlencoding::encode(s).into_owned()
}

/// Relies on uuid::Uuid::new_v4: a fresh random 128-bit identifier, returned
/// as its high and low 64-bit halves. Nothing is assumed of its value.
#[verifier::external_body]
pub(crate) fn fresh_identifier() -> (r: (u64, u64)) {
    uuid::Uuid::new_v4().as_u64_pair()
}

} // verus!

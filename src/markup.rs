//! XML character and entity references in text, resolved by quick-xml.

use vstd::prelude::*;

use quick_xml::escape::EscapeError;

verus! {

#[verifier::external_type_specification]
#[verifier::external_body]
pub struct ExEscapeError(EscapeError);

/// Whether a text holds a reference, which starts with `&`.
pub open spec fn has_reference(s: Seq<char>) -> bool {
    s.contains('&')
}

/// What `quick_xml::escape::unescape` makes of a text: the text with its
/// references replaced, or nothing where a reference is malformed or unknown.
pub uninterp spec fn unescape_of(s: Seq<char>) -> Option<Seq<char>>;

/// Relies on `quick_xml::escape::unescape`: it replaces the character and
/// predefined entity references of a text, depends on the text alone, fails
/// on a malformed or unknown reference, and returns a text without `&`
/// unchanged.
#[verifier::external_body]
pub(crate) fn unescape_text(s: &str) -> (r: Result<String, EscapeError>)
    ensures
        r is Ok <==> unescape_of(s@) is Some,
        r matches Ok(t) ==> unescape_of(s@) == Some(t@) && (has_reference(s@) || t@ == s@),
        !has_reference(s@) ==> r is Ok,
{
    quick_xml::escape::unescape(s).map(|c| c.into_owned())
}

} // verus!

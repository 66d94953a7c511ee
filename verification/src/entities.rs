//! Decoding of HTML character references.

use vstd::prelude::*;

verus! {

/// `text` with each HTML character reference in it replaced by what it
/// stands for.
pub uninterp spec fn decoded_entities(text: Seq<char>) -> Seq<char>;

/// Decodes the HTML character references in `text`
/// (`html_escape::decode_html_entities`). The result is a function of the
/// text alone: the named and numeric references that end in a semicolon are
/// replaced, and the rest of the text is kept.
#[verifier::external_body]
pub(crate) fn decode_entities(text: &str) -> (r: String)
    ensures
        r@ == decoded_entities(text@),
{
    html_escape::decode_html_entities(text).into_owned()
}

} // verus!

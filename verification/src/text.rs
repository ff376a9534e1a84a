//! Operations on text that the standard library performs; each is stated, not proved.

use vstd::prelude::*;
use vstd::string::*;
use vstd::utf8::*;

verus! {

/// The text of an optional string.
pub open spec fn opt_text(s: Option<String>) -> Option<Seq<char>> {
    match s {
        Some(s) => Some(s@),
        None => None,
    }
}

/// The error of `std::str::from_utf8`; nothing is read from it.
#[verifier::external_type_specification]
#[verifier::external_body]
pub struct ExUtf8Error(std::str::Utf8Error);

/// Decodes bytes as UTF-8 with `std::str::from_utf8`: it succeeds exactly on
/// well-formed UTF-8, and the text it gives back has those very bytes.
#[verifier::external_body]
pub(crate) fn decode_utf8_bytes<'a>(bytes: &'a [u8]) -> (decoded: Result<
    &'a str,
    std::str::Utf8Error,
>)
    ensures
        decoded is Ok <==> valid_utf8(bytes@),
        decoded matches Ok(text) ==> text.spec_bytes() == bytes@,
{
    std::str::from_utf8(bytes)
}

/// Compares two texts with `==` of `str`: they are equal when they hold the same characters.
#[verifier::external_body]
pub(crate) fn str_eq(a: &str, b: &str) -> (equal: bool)
    ensures
        equal == (a@ == b@),
{
    a == b
}

/// Strips `prefix` from the front of `text` with `str::strip_prefix`: the rest
/// of the text where it starts with `prefix`, and nothing where it does not.
#[verifier::external_body]
pub(crate) fn strip_prefix<'a>(text: &'a str, prefix: &str) -> (rest: Option<&'a str>)
    ensures
        match rest {
            Some(rest) => prefix@.is_prefix_of(text@) && rest@ == text@.skip(prefix@.len() as int),
            None => !prefix@.is_prefix_of(text@),
        },
{
    text.strip_prefix(prefix)
}

/// Strips `suffix` from the end of `text` with `str::strip_suffix`: the text
/// before it where the text ends with `suffix`, and nothing where it does not.
#[verifier::external_body]
pub(crate) fn strip_suffix<'a>(text: &'a str, suffix: &str) -> (rest: Option<&'a str>)
    ensures
        match rest {
            Some(rest) => suffix@.is_suffix_of(text@) && rest@ == text@.take(
                text@.len() - suffix@.len(),
            ),
            None => !suffix@.is_suffix_of(text@),
        },
{
    text.strip_suffix(suffix)
}

/// Whether `c` is white space, as `char::is_whitespace` decides it.
pub uninterp spec fn whitespace(c: char) -> bool;

/// Asks `char::is_whitespace`. The answer depends on the character alone.
#[verifier::external_body]
pub(crate) fn is_whitespace(c: char) -> (white: bool)
    ensures
        white == whitespace(c),
{
    c.is_whitespace()
}

/// The text that `heck` makes of `text` in shouty snake case: words in upper
/// case, joined by underscores.
pub uninterp spec fn shouty_snake_case(text: Seq<char>) -> Seq<char>;

/// Turns `text` into shouty snake case with `heck::ToShoutySnakeCase`. The
/// result depends on the text alone.
#[verifier::external_body]
pub(crate) fn to_shouty_snake_case(text: &str) -> (key: String)
    ensures
        key@ == shouty_snake_case(text@),
{
    heck::ToShoutySnakeCase::to_shouty_snake_case(text)
}

/// `a` comes no later than `b` when the two are compared byte by byte.
pub open spec fn bytes_le(a: Seq<u8>, b: Seq<u8>) -> bool
    decreases a.len(),
{
    if a.len() == 0 {
        true
    } else if b.len() == 0 {
        false
    } else if a[0] != b[0] {
        a[0] < b[0]
    } else {
        bytes_le(a.drop_first(), b.drop_first())
    }
}

/// `a` comes no later than `b` in the order of strings: that of their bytes.
pub open spec fn text_le(a: Seq<char>, b: Seq<char>) -> bool {
    bytes_le(encode_utf8(a), encode_utf8(b))
}

} // verus!

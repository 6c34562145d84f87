//! The calls that leave this library. Nothing in this file is proved: each
//! contract is taken from the documentation or the source of what it calls.

use vstd::prelude::*;
use vstd::utf8::{decode_utf8, encode_utf8, valid_utf8};

verus! {

#[verifier::external_type_specification]
#[verifier::external_body]
pub struct ExUrl(url::Url);

#[verifier::external_type_specification]
#[verifier::external_body]
pub struct ExParseError(url::ParseError);

/// The SHA-1 digest of a byte sequence.
pub uninterp spec fn sha1_digest(data: Seq<u8>) -> Seq<u8>;

/// The text of a parsed URL: what `Url::as_str` gives.
pub uninterp spec fn url_text(url: url::Url) -> Seq<char>;

/// The text of the URL that `Url::parse` makes of `input`, or nothing where it
/// refuses `input`.
pub uninterp spec fn url_parse_text(input: Seq<char>) -> Option<Seq<char>>;

/// The text of a URL after `Url::set_query` has put `query` in place of the
/// query that the URL with the text `text` had.
pub uninterp spec fn url_text_with_query(text: Seq<char>, query: Seq<char>) -> Seq<char>;

/// The text that `String::from_utf8_lossy` makes of `bytes`.
pub uninterp spec fn lossy_text(bytes: Seq<u8>) -> Seq<char>;

/// A URL of this text takes this query without its text growing past what
/// the `url` crate can index: it counts positions in 32 bits, and writes at
/// most three bytes for each byte of a query.
pub open spec fn url_takes_query(text: Seq<char>, query: Seq<char>) -> bool {
    encode_utf8(text).len() + 1 + 3 * encode_utf8(query).len() <= u32::MAX
}

/// `Sha1::digest` of the `sha1` crate: the 20 bytes of the SHA-1 digest of
/// `data`. The digest depends on the bytes of `data` alone.
#[verifier::external_body]
pub(crate) fn sha1(data: &[u8]) -> (digest: [u8; 20])
    ensures
        digest@ == sha1_digest(data@),
{
    <sha1::Sha1 as sha1::Digest>::digest(data).into()
}

/// `Url::parse` of the `url` crate. Whether it accepts `input`, and the text
/// of the URL it then gives, depend on `input` alone.
#[verifier::external_body]
pub(crate) fn url_parse(input: &str) -> (r: Result<url::Url, url::ParseError>)
    ensures
        match r {
            Ok(url) => url_parse_text(input@) == Some(url_text(url)),
            Err(_) => url_parse_text(input@) is None,
        },
{
    url::Url::parse(input)
}

/// `Url::as_str` of the `url` crate: the URL's text.
#[verifier::external_body]
pub(crate) fn url_as_str(url: &url::Url) -> (text: &str)
    ensures
        text@ == url_text(*url),
{
    url.as_str()
}

/// `Url::set_query` of the `url` crate, with a query to set. The new text
/// depends on the old text and on `query` alone: a URL's parts are found
/// again from its text. The call panics where a position passes 32 bits,
/// which `requires` rules out.
#[verifier::external_body]
pub(crate) fn url_set_query(url: &mut url::Url, query: &str)
    requires
        url_takes_query(url_text(*old(url)), query@),
    ensures
        url_text(*final(url)) == url_text_with_query(url_text(*old(url)), query@),
{
    url.set_query(Some(query))
}

/// `String::from_utf8` of std: the text that `bytes` are the UTF-8 encoding
/// of, or nothing where they are not valid UTF-8.
#[verifier::external_body]
pub(crate) fn string_from_utf8(bytes: Vec<u8>) -> (r: Option<String>)
    ensures
        r is Some <==> valid_utf8(bytes@),
        r is Some ==> r->0@ == decode_utf8(bytes@),
{
    match String::from_utf8(bytes) {
        Ok(text) => Some(text),
        Err(_) => None,
    }
}

/// `String::from_utf8_lossy` of std: the text of `bytes`, with a replacement
/// character for each part that is not valid UTF-8. Valid UTF-8 comes out as
/// the text it encodes.
#[verifier::external_body]
pub(crate) fn string_from_utf8_lossy(bytes: &[u8]) -> (text: String)
    ensures
        text@ == lossy_text(bytes@),
        valid_utf8(bytes@) ==> text@ == decode_utf8(bytes@),
{
    String::from_utf8_lossy(bytes).into_owned()
}

} // verus!

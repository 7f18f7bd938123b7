//! The SHA-256 checksum header sent with every uploaded part.

use vstd::prelude::*;
use http::header::InvalidHeaderValue;
use http::HeaderValue;
use crate::text::digit_char;

verus! {

#[verifier::external_type_specification]
#[verifier::external_body]
pub struct ExHeaderValue(http::HeaderValue);

#[verifier::external_type_specification]
#[verifier::external_body]
pub struct ExInvalidHeaderValue(http::header::InvalidHeaderValue);

/// Name for the SHA-256 digest of `data`.
pub uninterp spec fn sha256_digest(data: Seq<u8>) -> Seq<u8>;

/// Calls `sha2::Sha256::digest`. Trusted: the result is the named
/// `sha256_digest` of the data, and is 32 bytes long.
#[verifier::external_body]
fn sha256(data: &[u8]) -> (r: Vec<u8>)
    ensures
        r@ == sha256_digest(data@),
        r@.len() == 32,
{
    <sha2::Sha256 as sha2::Digest>::digest(data).to_vec()
}

/// The lower-case hexadecimal character of a nibble.
pub open spec fn nibble_char(n: nat) -> char {
    if n < 10 {
        digit_char(n)
    } else if n == 10 {
        'a'
    } else if n == 11 {
        'b'
    } else if n == 12 {
        'c'
    } else if n == 13 {
        'd'
    } else if n == 14 {
        'e'
    } else {
        'f'
    }
}

/// Lower-case hexadecimal text of `data`: two characters per byte, high
/// nibble first.
pub open spec fn hex_lower(data: Seq<u8>) -> Seq<char>
    decreases data.len(),
{
    if data.len() == 0 {
        Seq::empty()
    } else {
        seq![nibble_char((data[0] / 16) as nat), nibble_char((data[0] % 16) as nat)] + hex_lower(
            data.drop_first(),
        )
    }
}

/// Calls `hex::encode`. Trusted: the crate documents lower-case hexadecimal
/// text, two characters per byte in order, which is `hex_lower`.
#[verifier::external_body]
fn hex_encode(data: &[u8]) -> (r: String)
    ensures
        r@ == hex_lower(data@),
{
    hex::encode(data)
}

/// A character that an HTTP header value may hold: a visible or non-ASCII
/// character, a space or a tab.
pub open spec fn header_char_ok(c: char) -> bool {
    (c as u32 >= 32 && c as u32 != 127) || c == '\t'
}

/// Text that an HTTP header value may hold.
pub open spec fn header_text_ok(s: Seq<char>) -> bool {
    forall|i: int| 0 <= i < s.len() ==> header_char_ok(#[trigger] s[i])
}

/// An HTTP header value together with the text it was made from: the view
/// is the text, and `spec_value` is the value made of it.
#[derive(Debug)]
pub struct HeaderText {
    text: String,
    value: HeaderValue,
}

impl View for HeaderText {
    type V = Seq<char>;

    /// The text the header value was made from.
    closed spec fn view(&self) -> Seq<char> {
        self.text@
    }
}

impl HeaderText {
    /// The header value.
    pub closed spec fn spec_value(self) -> HeaderValue {
        self.value
    }

    /// The text the header value was made from.
    pub fn text(&self) -> (r: &str)
        ensures
            r@ == self@,
    {
        self.text.as_str()
    }

    /// The header value, to be sent.
    pub fn into_value(self) -> (r: HeaderValue)
        ensures
            r == self.spec_value(),
    {
        self.value
    }
}

/// Name for the header value that `http::HeaderValue::from_str` makes of
/// `text`, where it accepts the text.
pub uninterp spec fn header_value_of(text: Seq<char>) -> HeaderValue;

/// Calls `http::HeaderValue::from_str` on `text` and keeps the text beside
/// the value. Trusted: the crate accepts exactly the text whose UTF-8 bytes
/// are all tab or at least 32 and not 127, which for characters is
/// `header_text_ok`; the value is the named `header_value_of` the text, and
/// the kept text is the argument.
#[verifier::external_body]
fn header_value(text: String) -> (r: Result<HeaderText, InvalidHeaderValue>)
    ensures
        r is Ok <==> header_text_ok(text@),
        r matches Ok(h) ==> h@ == text@ && h.spec_value() == header_value_of(text@),
{
    match HeaderValue::from_str(&text) {
        Ok(value) => Ok(HeaderText { text, value }),
        Err(e) => Err(e),
    }
}

proof fn lemma_hex_is_header_text(data: Seq<u8>)
    ensures
        header_text_ok(hex_lower(data)),
        hex_lower(data).len() == 2 * data.len(),
    decreases data.len(),
{
    if data.len() > 0 {
        lemma_hex_is_header_text(data.drop_first());
        let h = hex_lower(data);
        let t = hex_lower(data.drop_first());
        assert forall|i: int| 0 <= i < h.len() implies header_char_ok(#[trigger] h[i]) by {
            if i >= 2 {
                assert(h[i] == t[i - 2]);
            }
        }
    }
}

/// The checksum text of a part: the lower-case hexadecimal SHA-256 digest.
pub fn content_sha256_hex(data: &[u8]) -> (r: String)
    ensures
        r@ == hex_lower(sha256_digest(data@)),
        r@.len() == 64,
{
    let digest = sha256(data);
    proof { lemma_hex_is_header_text(digest@); }
    hex_encode(digest.as_slice())
}

/// The checksum header for a SHA-256 digest: made from its lower-case
/// hexadecimal text, which a header always accepts.
pub fn checksum_header_for_digest(digest: &[u8]) -> (r: Result<HeaderText, InvalidHeaderValue>)
    ensures
        r matches Ok(h) && h@ == hex_lower(digest@) && h.spec_value() == header_value_of(
            hex_lower(digest@),
        ),
{
    let text = hex_encode(digest);
    proof { lemma_hex_is_header_text(digest@); }
    header_value(text)
}

/// The checksum header of a part: made from the lower-case hexadecimal
/// SHA-256 digest of its data, which a header always accepts.
pub fn content_sha256_header(data: &[u8]) -> (r: Result<HeaderText, InvalidHeaderValue>)
    ensures
        r matches Ok(h) && h@ == hex_lower(sha256_digest(data@)) && h.spec_value()
            == header_value_of(hex_lower(sha256_digest(data@))),
{
    let digest = sha256(data);
    checksum_header_for_digest(digest.as_slice())
}

} // verus!

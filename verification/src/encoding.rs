//! Text resources: gzip members and UTF-8.

use std::io::Read;

use flate2::read::GzDecoder;
use vstd::prelude::*;
use vstd::utf8::*;

verus! {

/// Why the bytes of a text resource are refused.
#[derive(Clone, Copy, Debug, PartialEq, Eq, Structural)]
pub enum TextError {
    /// The bytes are not a gzip member.
    Compression,
    /// The content is not UTF-8.
    Encoding,
}

/// What the first gzip member of `bytes` decompresses to, or `None` where `bytes` does not begin
/// with an intact member.
pub uninterp spec fn gzip_member(bytes: Seq<u8>) -> Option<Seq<u8>>;

/// `flate2::read::GzDecoder::new` over the whole input, read to its end: the content of the
/// first gzip member, or an error where header, data or checksum are broken. The content depends
/// on the bytes alone; what it is for given bytes is left to the name.
#[verifier::external_body]
fn gunzip(bytes: &[u8]) -> (content: Option<Vec<u8>>)
    ensures
        match content {
            Some(content) => gzip_member(bytes@) == Some(content@),
            None => gzip_member(bytes@) is None,
        },
{
    let mut content: Vec<u8> = Vec::new();
    match GzDecoder::new(bytes).read_to_end(&mut content) {
        Ok(_) => Some(content),
        Err(_) => None,
    }
}

/// `String::from_utf8`: the string whose UTF-8 form the bytes are, or an error where they are not
/// valid UTF-8.
#[verifier::external_body]
pub(crate) fn utf8_text(bytes: Vec<u8>) -> (text: Option<String>)
    ensures
        match text {
            Some(text) => valid_utf8(bytes@) && text@ == decode_utf8(bytes@),
            None => !valid_utf8(bytes@),
        },
{
    String::from_utf8(bytes).ok()
}

/// The text that a resource holds, given what its decompression gave.
pub open spec fn content_text(content: Option<Seq<u8>>) -> Result<Seq<char>, TextError> {
    match content {
        None => Err(TextError::Compression),
        Some(bytes) => if valid_utf8(bytes) {
            Ok(decode_utf8(bytes))
        } else {
            Err(TextError::Encoding)
        },
    }
}

/// The view of a decoded text.
pub open spec fn text_result(result: Result<String, TextError>) -> Result<Seq<char>, TextError> {
    match result {
        Ok(text) => Ok(text@),
        Err(error) => Err(error),
    }
}

/// The view of optional bytes.
pub open spec fn bytes_view(bytes: Option<Vec<u8>>) -> Option<Seq<u8>> {
    match bytes {
        Some(bytes) => Some(bytes@),
        None => None,
    }
}

/// The text of a resource whose content is `content`; `None` stands for broken compression.
pub fn text_of(content: Option<Vec<u8>>) -> (result: Result<String, TextError>)
    ensures
        text_result(result) == content_text(bytes_view(content)),
{
    match content {
        None => Err(TextError::Compression),
        Some(bytes) => match utf8_text(bytes) {
            Some(text) => Ok(text),
            None => Err(TextError::Encoding),
        },
    }
}

/// What a resource's bytes hold: the bytes themselves, or the gzip member that they are.
pub open spec fn resource(bytes: Seq<u8>, compressed: bool) -> Option<Seq<u8>> {
    if compressed {
        gzip_member(bytes)
    } else {
        Some(bytes)
    }
}

/// The text of a resource file with the given bytes.
pub fn decode_text(bytes: &[u8], compressed: bool) -> (result: Result<String, TextError>)
    ensures
        text_result(result) == content_text(resource(bytes@, compressed)),
{
    if compressed {
        text_of(gunzip(bytes))
    } else {
        let mut content: Vec<u8> = Vec::new();
        for index in 0..bytes.len()
            invariant
                content@ == bytes@.take(index as int),
        {
            content.push(bytes[index]);
        }
        assert(bytes@.take(bytes@.len() as int) =~= bytes@);
        text_of(Some(content))
    }
}

/// Text that was encoded as UTF-8 and stored uncompressed is read back unchanged.
pub proof fn law_plain_text_reads_back(text: Seq<char>)
    ensures
        content_text(resource(encode_utf8(text), false)) == Ok::<
            Seq<char>,
            TextError,
        >(text),
{
    encode_utf8_decode_utf8(text);
    encode_utf8_valid_utf8(text);
}

}

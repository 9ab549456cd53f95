//! Decoding of provider content records into file bodies.
//!
//! The provider returns a file's post-change bytes as a JSON wrapper whose
//! payload is base64 text with injected line breaks; those breaks are not
//! part of the underlying bytes and are removed before decoding, while
//! line breaks inside the decoded payload survive.  A wrapper whose type
//! marks a submodule carries no payload: its reported identifier is the
//! content.  Fetching the wrapper and parsing the JSON are the caller's
//! work; this module turns the wrapper's fields into the body.

use crate::text;
use vstd::prelude::*;
use vstd::utf8::{decode_utf8, valid_utf8};

verus! {

/// Failure to decode a content record's payload.
#[derive(Debug, PartialEq, Eq, Structural)]
pub enum DecodeError {
    /// The payload is not valid base64.
    InvalidBase64,
    /// The decoded bytes are not valid text.
    InvalidText,
}

/// The fields of a provider content record that the decoding reads.
#[derive(Debug)]
pub struct ContentRecord {
    /// The record's reported type; `submodule` marks a nested repository.
    pub record_type: String,
    /// The reported identifier of the post-change blob.
    pub sha: String,
    /// The base64 payload, absent for submodules.
    pub content: Option<String>,
}

/// What the standard base64 alphabet with padding decodes `s` to, if
/// anything.
pub uninterp spec fn base64_standard_decode(s: Seq<char>) -> Option<Seq<u8>>;

/// Relies on `base64::engine::general_purpose::STANDARD.decode`: decodes
/// standard-alphabet base64 with padding; the result is a function of the
/// input characters alone, and an input it rejects yields nothing.
#[verifier::external_body]
fn b64_decode(s: &str) -> (r: Option<Vec<u8>>)
    ensures
        match base64_standard_decode(s@) {
            Some(bs) => r matches Some(v) && v@ == bs,
            None => r is None,
        },
{
    match base64::Engine::decode(&base64::engine::general_purpose::STANDARD, s) {
        Ok(v) => Some(v),
        Err(_) => None,
    }
}

/// Relies on `String::from_utf8`: succeeds exactly on valid UTF-8 and
/// decodes the bytes to their characters.
#[verifier::external_body]
fn utf8_string(v: Vec<u8>) -> (r: Option<String>)
    ensures
        r is Some <==> valid_utf8(v@),
        r matches Some(s) ==> s@ == decode_utf8(v@),
{
    String::from_utf8(v).ok()
}

/// `s` with every line feed removed.
pub open spec fn strip_nl(s: Seq<char>) -> Seq<char> {
    s.filter(|c: char| c != '\n')
}

/// Removes every line feed from `s`.
fn strip_newlines(s: &str) -> (r: String)
    ensures
        r@ == strip_nl(s@),
{
    let cs = text::chars_of(s);
    let mut out: Vec<char> = Vec::new();
    let n = cs.len();
    proof {
        reveal(Seq::filter);
        assert(s@.subrange(0, 0) =~= Seq::<char>::empty());
    }
    for i in 0..n
        invariant
            n == cs@.len(),
            cs@ == s@,
            out@ == s@.subrange(0, i as int).filter(|c: char| c != '\n'),
    {
        proof {
            reveal(Seq::filter);
            assert(s@.subrange(0, i + 1).drop_last() =~= s@.subrange(0, i as int));
            assert(s@.subrange(0, i + 1).last() == s@[i as int]);
        }
        let c = cs[i];
        if c != '\n' {
            out.push(c);
        }
    }
    proof {
        assert(s@.subrange(0, n as int) =~= s@);
    }
    text::string_of(&out)
}

/// The base64 payload of a record, before cleaning: empty when absent.
pub open spec fn raw_payload(rec: ContentRecord) -> Seq<char> {
    match rec.content {
        Some(c) => c@,
        None => Seq::empty(),
    }
}

/// The post-change body described by a content record.
///
/// A submodule record yields its reported identifier as-is.  Any other
/// record yields its payload with injected line breaks removed and then
/// base64-decoded; the bytes must be valid text.
pub fn file_contents_from_record(rec: &ContentRecord) -> (r: Result<String, DecodeError>)
    ensures
        rec.record_type@ == "submodule"@ ==> (r matches Ok(s) && s@ == rec.sha@),
        rec.record_type@ != "submodule"@ ==> match base64_standard_decode(
            strip_nl(raw_payload(*rec)),
        ) {
            None => r == Err::<String, DecodeError>(DecodeError::InvalidBase64),
            Some(bs) => {
                if valid_utf8(bs) {
                    r matches Ok(s) && s@ == decode_utf8(bs)
                } else {
                    r == Err::<String, DecodeError>(DecodeError::InvalidText)
                }
            },
        },
{
    if text::str_eq(rec.record_type.as_str(), "submodule") {
        return Ok(rec.sha.as_str().to_owned());
    }
    let payload: &str = match &rec.content {
        Some(c) => c.as_str(),
        None => "",
    };
    proof {
        reveal_strlit("");
        assert(payload@ == raw_payload(*rec));
    }
    let cleaned = strip_newlines(payload);
    let bytes = match b64_decode(cleaned.as_str()) {
        Some(v) => v,
        None => {
            return Err(DecodeError::InvalidBase64);
        },
    };
    match utf8_string(bytes) {
        Some(s) => Ok(s),
        None => Err(DecodeError::InvalidText),
    }
}

} // verus!

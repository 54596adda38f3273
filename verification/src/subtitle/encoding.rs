//! Turning the bytes of a subtitle file into text.
//!
//! A byte-order mark decides the encoding (UTF-8, UTF-16 LE or UTF-16 BE);
//! without one, the bytes are read as UTF-8 when they are valid UTF-8 and as
//! GBK otherwise.

use vstd::prelude::*;
use vstd::slice::slice_subrange;
use vstd::utf8::{decode_utf8, valid_utf8};

use crate::text::{utf16_decode, utf16_units};

verus! {

/// UTF-16 bytes decoded as `encoding_rs` decodes a whole stream: the units
/// are decoded with each unpaired surrogate replaced by U+FFFD, and an odd
/// last byte is one more U+FFFD, except after a high surrogate left
/// unpaired at the end, where the two make a single malformed sequence. The
/// flag tells whether anything was malformed.
pub open spec fn utf16_stream_decoding(bytes: Seq<u8>, big_endian: bool) -> (Seq<char>, bool) {
    let units = utf16_units(bytes, big_endian);
    let (text, errors) = utf16_decode(units);
    if bytes.len() % 2 == 0 {
        (text, errors)
    } else if units.len() > 0 && 0xD800 <= units.last() && units.last() < 0xDC00 {
        (text, true)
    } else {
        (text.push('\u{FFFD}'), true)
    }
}

/// What `UTF_16LE.decode_without_bom_handling` of `encoding_rs` gives.
pub open spec fn utf16le_decoding(bytes: Seq<u8>) -> (Seq<char>, bool) {
    utf16_stream_decoding(bytes, false)
}

/// What `UTF_16BE.decode_without_bom_handling` of `encoding_rs` gives.
pub open spec fn utf16be_decoding(bytes: Seq<u8>) -> (Seq<char>, bool) {
    utf16_stream_decoding(bytes, true)
}

/// The text that `GBK.decode` of `encoding_rs` gives for `bytes`.
pub uninterp spec fn gbk_decoding(bytes: Seq<u8>) -> Seq<char>;

/// `std::str::from_utf8`: the text of `bytes` when they are valid UTF-8.
#[verifier::external_body]
fn utf8_text(bytes: &[u8]) -> (r: Option<String>)
    ensures
        r is Some <==> valid_utf8(bytes@),
        r matches Some(s) ==> s@ == decode_utf8(bytes@),
{
    std::str::from_utf8(bytes).ok().map(|s| s.to_owned())
}

/// `encoding_rs::UTF_16LE.decode_without_bom_handling`: its source decodes
/// little-endian units, replacing each malformed sequence by U+FFFD and
/// reporting whether there was one (`utf16le_decoding`).
#[verifier::external_body]
fn decode_utf16le(bytes: &[u8]) -> (r: (String, bool))
    ensures
        (r.0@, r.1) == utf16le_decoding(bytes@),
{
    let (text, had_errors) = encoding_rs::UTF_16LE.decode_without_bom_handling(bytes);
    (text.into_owned(), had_errors)
}

/// `encoding_rs::UTF_16BE.decode_without_bom_handling`: as the little-endian
/// one, with big-endian units (`utf16be_decoding`).
#[verifier::external_body]
pub(crate) fn decode_utf16be(bytes: &[u8]) -> (r: (String, bool))
    ensures
        (r.0@, r.1) == utf16be_decoding(bytes@),
{
    let (text, had_errors) = encoding_rs::UTF_16BE.decode_without_bom_handling(bytes);
    (text.into_owned(), had_errors)
}

/// `encoding_rs::GBK.decode`, text only; the result is the function
/// `gbk_decoding` of the bytes, which nothing here spells out.
#[verifier::external_body]
fn decode_gbk(bytes: &[u8]) -> (r: String)
    ensures
        r@ == gbk_decoding(bytes@),
{
    let (text, _, _) = encoding_rs::GBK.decode(bytes);
    text.into_owned()
}

/// Why a subtitle file's bytes could not be read as text.
#[derive(Debug, Clone, Copy, PartialEq, Eq)]
pub enum SubtitleDecodeError {
    /// A UTF-8 byte-order mark followed by invalid UTF-8.
    Utf8,
    /// A UTF-16 LE byte-order mark followed by malformed UTF-16.
    Utf16Le,
    /// A UTF-16 BE byte-order mark followed by malformed UTF-16.
    Utf16Be,
}

impl SubtitleDecodeError {
    /// The encoding's name as error messages give it.
    pub fn encoding_name(&self) -> (r: &'static str)
        ensures
            r@ == encoding_name_of(*self),
    {
        match self {
            SubtitleDecodeError::Utf8 => "UTF-8",
            SubtitleDecodeError::Utf16Le => "UTF-16 LE",
            SubtitleDecodeError::Utf16Be => "UTF-16 BE",
        }
    }
}

pub open spec fn encoding_name_of(e: SubtitleDecodeError) -> Seq<char> {
    match e {
        SubtitleDecodeError::Utf8 => "UTF-8"@,
        SubtitleDecodeError::Utf16Le => "UTF-16 LE"@,
        SubtitleDecodeError::Utf16Be => "UTF-16 BE"@,
    }
}

/// Does `bytes` start with `prefix`?
pub open spec fn has_prefix(bytes: Seq<u8>, prefix: Seq<u8>) -> bool {
    prefix.len() <= bytes.len() && bytes.take(prefix.len() as int) == prefix
}

/// The text of a subtitle file's bytes.
pub open spec fn subtitle_text_of(bytes: Seq<u8>) -> Result<Seq<char>, SubtitleDecodeError> {
    if has_prefix(bytes, seq![0xEFu8, 0xBBu8, 0xBFu8]) {
        if valid_utf8(bytes.skip(3)) {
            Ok(decode_utf8(bytes.skip(3)))
        } else {
            Err(SubtitleDecodeError::Utf8)
        }
    } else if has_prefix(bytes, seq![0xFFu8, 0xFEu8]) {
        let (text, had_errors) = utf16le_decoding(bytes.skip(2));
        if had_errors {
            Err(SubtitleDecodeError::Utf16Le)
        } else {
            Ok(text)
        }
    } else if has_prefix(bytes, seq![0xFEu8, 0xFFu8]) {
        let (text, had_errors) = utf16be_decoding(bytes.skip(2));
        if had_errors {
            Err(SubtitleDecodeError::Utf16Be)
        } else {
            Ok(text)
        }
    } else if valid_utf8(bytes) {
        Ok(decode_utf8(bytes))
    } else {
        Ok(gbk_decoding(bytes))
    }
}

/// Reads a subtitle file's bytes as text, choosing the encoding by its
/// byte-order mark, else UTF-8 when valid, else GBK.
pub fn decode_subtitle_bytes(bytes: &[u8]) -> (r: Result<String, SubtitleDecodeError>)
    ensures
        match r {
            Ok(s) => subtitle_text_of(bytes@) == Ok::<Seq<char>, SubtitleDecodeError>(s@),
            Err(e) => subtitle_text_of(bytes@) == Err::<Seq<char>, SubtitleDecodeError>(e),
        },
{
    let n = bytes.len();
    if n >= 3 && bytes[0] == 0xEF && bytes[1] == 0xBB && bytes[2] == 0xBF {
        proof {
            assert(bytes@.take(3) =~= seq![0xEFu8, 0xBBu8, 0xBFu8]);
        }
        let rest = slice_subrange(bytes, 3, n);
        proof {
            assert(rest@ =~= bytes@.skip(3));
        }
        return match utf8_text(rest) {
            Some(s) => Ok(s),
            None => Err(SubtitleDecodeError::Utf8),
        };
    }
    proof {
        assert(!has_prefix(bytes@, seq![0xEFu8, 0xBBu8, 0xBFu8])) by {
            if has_prefix(bytes@, seq![0xEFu8, 0xBBu8, 0xBFu8]) {
                assert(bytes@.take(3)[0] == bytes@[0]);
                assert(bytes@.take(3)[1] == bytes@[1]);
                assert(bytes@.take(3)[2] == bytes@[2]);
            }
        }
    }
    if n >= 2 && bytes[0] == 0xFF && bytes[1] == 0xFE {
        proof {
            assert(bytes@.take(2) =~= seq![0xFFu8, 0xFEu8]);
        }
        let rest = slice_subrange(bytes, 2, n);
        proof {
            assert(rest@ =~= bytes@.skip(2));
        }
        let (text, had_errors) = decode_utf16le(rest);
        return if had_errors {
            Err(SubtitleDecodeError::Utf16Le)
        } else {
            Ok(text)
        };
    }
    proof {
        assert(!has_prefix(bytes@, seq![0xFFu8, 0xFEu8])) by {
            if has_prefix(bytes@, seq![0xFFu8, 0xFEu8]) {
                assert(bytes@.take(2)[0] == bytes@[0]);
                assert(bytes@.take(2)[1] == bytes@[1]);
            }
        }
    }
    if n >= 2 && bytes[0] == 0xFE && bytes[1] == 0xFF {
        proof {
            assert(bytes@.take(2) =~= seq![0xFEu8, 0xFFu8]);
        }
        let rest = slice_subrange(bytes, 2, n);
        proof {
            assert(rest@ =~= bytes@.skip(2));
        }
        let (text, had_errors) = decode_utf16be(rest);
        return if had_errors {
            Err(SubtitleDecodeError::Utf16Be)
        } else {
            Ok(text)
        };
    }
    proof {
        assert(!has_prefix(bytes@, seq![0xFEu8, 0xFFu8])) by {
            if has_prefix(bytes@, seq![0xFEu8, 0xFFu8]) {
                assert(bytes@.take(2)[0] == bytes@[0]);
                assert(bytes@.take(2)[1] == bytes@[1]);
            }
        }
    }
    match utf8_text(bytes) {
        Some(s) => Ok(s),
        None => Ok(decode_gbk(bytes)),
    }
}

} // verus!

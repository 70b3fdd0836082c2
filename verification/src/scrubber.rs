//! Lossy recovery of text from byte input: invalid or truncated UTF-8
//! subsequences become replacement characters, while well-formed sequences
//! pass through unchanged.

use vstd::prelude::*;
use vstd::utf8::encode_utf8;

use crate::err::CodecError;
use crate::hexcodec::{all_hex_digits, clean_hex, cleaned_hex, hex_pairs_bytes, parse_hex_pairs};
use crate::text::{chars_of, string_from_chars};
use crate::utf8core::{decode_lossy, lemma_lossy_decode_of_text, lossy_decode};

verus! {

/// How the input of a scrub is to be read: as the raw data bytes, or as hex
/// text naming the data bytes.
#[derive(Debug, Clone, Copy, PartialEq, Eq, Structural)]
pub enum InputFormat {
    Binary,
    Hex,
}

/// Decodes the input bytes as UTF-8, replacing each maximal invalid subpart
/// with one replacement character (U+FFFD).
///
/// With the `Binary` format the input's own bytes are the data, which are
/// valid UTF-8 already, so the input comes back unchanged. With the `Hex`
/// format the input is hex text: it is cleaned and decoded to bytes exactly
/// as in [`crate::hexcodec::hex2bin`] — failing with `OddLength` or
/// `InvalidHexDigit` under the same conditions — but the decoded bytes are
/// then scrubbed rather than strictly validated, so malformed UTF-8 never
/// produces an error, only replacement characters.
pub fn scrub_invalid_utf8(input: &str, format: InputFormat) -> (r: Result<String, CodecError>)
    ensures
        format is Binary ==> r is Ok && r->Ok_0@ == lossy_decode(encode_utf8(input@))
            && r->Ok_0@ == input@,
        format is Hex ==> ({
            let cleaned = cleaned_hex(input@);
            &&& cleaned.len() % 2 == 1 ==> r == Err::<String, CodecError>(CodecError::OddLength)
            &&& cleaned.len() % 2 == 0 && !all_hex_digits(cleaned) ==> r == Err::<
                String,
                CodecError,
            >(CodecError::InvalidHexDigit)
            &&& cleaned.len() % 2 == 0 && all_hex_digits(cleaned) ==> r is Ok && r->Ok_0@
                == lossy_decode(hex_pairs_bytes(cleaned))
        }),
{
    match format {
        InputFormat::Binary => {
            proof {
                lemma_lossy_decode_of_text(input@);
            }
            Ok(input.to_owned())
        },
        InputFormat::Hex => {
            let chars = chars_of(input);
            let cleaned = clean_hex(chars);
            let bytes = match parse_hex_pairs(&cleaned) {
                Ok(bytes) => bytes,
                Err(e) => {
                    return Err(e);
                },
            };
            let out = decode_lossy(&bytes);
            Ok(string_from_chars(&out))
        },
    }
}

/// Scrubbing is idempotent: a scrub always returns text whose bytes are
/// well-formed UTF-8, so scrubbing that text's bytes again gives it back
/// unchanged.
pub proof fn lemma_scrub_idempotent(bytes: Seq<u8>)
    ensures
        lossy_decode(encode_utf8(lossy_decode(bytes))) == lossy_decode(bytes),
{
    lemma_lossy_decode_of_text(lossy_decode(bytes));
}

} // verus!

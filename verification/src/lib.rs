//! Conversions between Unicode text and several textual and binary surface
//! forms: hexadecimal byte dumps, backslash escape notations (including the
//! UTF-16 surrogate-pair form), lossy recovery of invalid UTF-8, per-character
//! codepoint listings, and grapheme-cluster reports.

pub mod codepoints;
pub mod dump;
pub mod err;
pub mod escape;
pub mod hexcodec;
pub mod scrubber;
pub mod text;
pub mod units;
pub mod utf8core;

pub use codepoints::{chr_from_codepoints, ord_characters};
pub use dump::{dump_graphemes, get_unicode_name, ClusterInfo, CodepointInfo, DumpFormat};
pub use err::CodecError;
pub use escape::{escape_unicode, escape_unicode_with_format, unescape_unicode, EscapeFormat};
pub use hexcodec::{bin2hex, hex2bin, HexFormat};
pub use scrubber::{scrub_invalid_utf8, InputFormat};
pub use units::{
    count_units, drop_units, iter_byte, iter_codepoint, iter_grapheme_icu4x, take_units,
    ProcessingMode,
};

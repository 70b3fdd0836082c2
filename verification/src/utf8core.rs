//! Verified UTF-8 decoding: a strict decoder that accepts exactly the
//! well-formed byte sequences, and a lossy decoder that substitutes one
//! replacement character for each maximal invalid subpart, following the
//! standard UTF-8 error recovery policy.

use vstd::prelude::*;
use vstd::utf8::{
    codepoint_width_2, codepoint_width_3, codepoint_width_4, decode_first_scalar, decode_utf8,
    encode_utf8, is_continuation_byte, is_leading_byte_width_1, is_leading_byte_width_2,
    is_leading_byte_width_3, is_leading_byte_width_4, is_scalar, length_of_first_scalar,
    partial_valid_utf8, partial_valid_partial_invalid_utf8, pop_first_scalar, valid_first_scalar,
    valid_utf8,
};

use crate::text::char_from_u32;

verus! {

broadcast use vstd::utf8::group_utf8_lib;

/// The character substituted for undecodable input, U+FFFD.
pub open spec fn replacement() -> char {
    '\u{FFFD}'
}

/// True when `b1` may follow the leading byte `b0` as the second byte of a
/// well-formed encoding: the plain continuation range, narrowed for the four
/// leading bytes whose full range would reach overlong encodings (0xE0, 0xF0),
/// surrogates (0xED), or values above 0x10FFFF (0xF4).
pub open spec fn second_byte_ok(b0: u8, b1: u8) -> bool {
    if 0xC2 <= b0 && b0 <= 0xDF {
        is_continuation_byte(b1)
    } else if b0 == 0xE0 {
        0xA0 <= b1 && b1 <= 0xBF
    } else if b0 == 0xED {
        0x80 <= b1 && b1 <= 0x9F
    } else if 0xE1 <= b0 && b0 <= 0xEF {
        is_continuation_byte(b1)
    } else if b0 == 0xF0 {
        0x90 <= b1 && b1 <= 0xBF
    } else if b0 == 0xF4 {
        0x80 <= b1 && b1 <= 0x8F
    } else if 0xF1 <= b0 && b0 <= 0xF3 {
        is_continuation_byte(b1)
    } else {
        false
    }
}

/// The length of the maximal invalid subpart at the head of `b`: the leading
/// byte together with the continuation bytes that are still in range for it.
/// One replacement character stands for this many bytes.
pub open spec fn subpart_len(b: Seq<u8>) -> int
    recommends
        b.len() > 0,
        !valid_first_scalar(b),
{
    if !(0xC2 <= b[0] && b[0] <= 0xF4) {
        1
    } else if b.len() < 2 || !second_byte_ok(b[0], b[1]) {
        1
    } else if b.len() < 3 || !is_continuation_byte(b[2]) {
        2
    } else {
        3
    }
}

/// The lossy decoding of a byte sequence: each well-formed scalar encoding
/// becomes its character, and each maximal invalid subpart becomes one
/// replacement character.
pub open spec fn lossy_decode(b: Seq<u8>) -> Seq<char>
    decreases b.len(),
{
    if b.len() == 0 {
        Seq::empty()
    } else if valid_first_scalar(b) {
        seq![decode_first_scalar(b) as char] + lossy_decode(
            b.skip(length_of_first_scalar(b)),
        )
    } else {
        seq![replacement()] + lossy_decode(b.skip(subpart_len(b)))
    }
}

proof fn lemma_width2_range(b0: u8, b1: u8)
    by (bit_vector)
    requires
        is_leading_byte_width_2(b0),
        is_continuation_byte(b1),
    ensures
        (codepoint_width_2(b0, b1) >= 0x80 <==> b0 >= 0xC2),
        codepoint_width_2(b0, b1) <= 0x7FF,
{
}

proof fn lemma_width3_range(b0: u8, b1: u8, b2: u8)
    by (bit_vector)
    requires
        is_leading_byte_width_3(b0),
        is_continuation_byte(b1),
        is_continuation_byte(b2),
    ensures
        (codepoint_width_3(b0, b1, b2) >= 0x800 <==> (b0 != 0xE0 || b1 >= 0xA0)),
        ((0xD800 <= codepoint_width_3(b0, b1, b2) && codepoint_width_3(b0, b1, b2) <= 0xDFFF)
            <==> (b0 == 0xED && b1 >= 0xA0)),
        codepoint_width_3(b0, b1, b2) <= 0xFFFF,
{
}

proof fn lemma_width4_range(b0: u8, b1: u8, b2: u8, b3: u8)
    by (bit_vector)
    requires
        is_leading_byte_width_4(b0),
        is_continuation_byte(b1),
        is_continuation_byte(b2),
        is_continuation_byte(b3),
    ensures
        (codepoint_width_4(b0, b1, b2, b3) >= 0x10000 <==> (b0 != 0xF0 || b1 >= 0x90)),
        (codepoint_width_4(b0, b1, b2, b3) <= 0x10FFFF <==> (b0 < 0xF4 || (b0 == 0xF4 && b1
            <= 0x8F))),
{
}

/// True when `b1` may follow `b0`, as executable code.
fn second_byte_ok_exec(b0: u8, b1: u8) -> (r: bool)
    ensures
        r == second_byte_ok(b0, b1),
{
    if 0xC2 <= b0 && b0 <= 0xDF {
        0x80 <= b1 && b1 <= 0xBF
    } else if b0 == 0xE0 {
        0xA0 <= b1 && b1 <= 0xBF
    } else if b0 == 0xED {
        0x80 <= b1 && b1 <= 0x9F
    } else if 0xE1 <= b0 && b0 <= 0xEF {
        0x80 <= b1 && b1 <= 0xBF
    } else if b0 == 0xF0 {
        0x90 <= b1 && b1 <= 0xBF
    } else if b0 == 0xF4 {
        0x80 <= b1 && b1 <= 0x8F
    } else if 0xF1 <= b0 && b0 <= 0xF3 {
        0x80 <= b1 && b1 <= 0xBF
    } else {
        false
    }
}

/// Classifies the bytes at position `i`: either the head of a well-formed
/// scalar encoding (its width and character), or a maximal invalid subpart
/// (its length, with the replacement character).
pub(crate) fn next_scalar(bytes: &Vec<u8>, i: usize) -> (r: (bool, usize, char))
    requires
        i < bytes@.len(),
    ensures
        ({
            let tail = bytes@.skip(i as int);
            &&& r.0 ==> valid_first_scalar(tail) && r.1 == length_of_first_scalar(tail) && r.2
                as u32 == decode_first_scalar(tail) && r.2 == decode_first_scalar(tail) as char
            &&& !r.0 ==> !valid_first_scalar(tail) && r.1 == subpart_len(tail) && r.2
                == replacement()
            &&& 1 <= r.1 <= bytes@.len() - i
        }),
{
    let ghost tail = bytes@.skip(i as int);
    let n = bytes.len();
    let rem = n - i;
    let b0 = bytes[i];
    proof {
        assert(tail.len() == n - i);
        assert(tail[0] == b0);
    }
    if b0 < 0x80 {
        proof {
            assert(b0 & 0x7F == b0) by (bit_vector)
                requires
                    b0 < 0x80,
            ;
        }
        let c = match char_from_u32(b0 as u32) {
            Some(c) => c,
            None => {
                proof {
                    assert(false);
                }
                replacement_char()
            },
        };
        proof {
            vstd::utf8::char_u32_cast(c, b0 as u32);
            assert(decode_first_scalar(tail) == b0 as u32);
        }
        (true, 1, c)
    } else if b0 < 0xC2 {
        proof {
            if 0xC0 <= b0 && rem >= 2 && is_continuation_byte(tail[1]) {
                lemma_width2_range(b0, bytes[i + 1]);
            }
            assert(!valid_first_scalar(tail));
        }
        (false, 1, replacement_char())
    } else if b0 <= 0xDF {
        if rem >= 2 && second_byte_ok_exec(b0, bytes[i + 1]) {
            let b1 = bytes[i + 1];
            let cp: u32 = (((b0 & 0x1F) as u32) << 6u32) | ((b1 & 0x3F) as u32);
            proof {
                assert(tail[1] == b1);
                lemma_width2_range(b0, b1);
                assert(cp == codepoint_width_2(b0, b1));
                assert(valid_first_scalar(tail));
                assert(decode_first_scalar(tail) == cp);
                assert(is_scalar(cp));
            }
            let c = match char_from_u32(cp) {
                Some(c) => c,
                None => {
                    proof {
                        assert(false);
                    }
                    replacement_char()
                },
            };
            proof {
                vstd::utf8::char_u32_cast(c, cp);
            }
            (true, 2, c)
        } else {
            proof {
                assert(!valid_first_scalar(tail));
            }
            (false, 1, replacement_char())
        }
    } else if b0 <= 0xEF {
        if !(rem >= 2 && second_byte_ok_exec(b0, bytes[i + 1])) {
            proof {
                if rem >= 3 && is_continuation_byte(tail[1]) && is_continuation_byte(tail[2]) {
                    lemma_width3_range(b0, bytes[i + 1], bytes[i + 2]);
                }
                assert(!valid_first_scalar(tail));
            }
            (false, 1, replacement_char())
        } else if !(rem >= 3 && {
            let b2 = bytes[i + 2];
            0x80 <= b2 && b2 <= 0xBF
        }) {
            proof {
                assert(!valid_first_scalar(tail));
            }
            (false, 2, replacement_char())
        } else {
            let b1 = bytes[i + 1];
            let b2 = bytes[i + 2];
            let cp: u32 = (((b0 & 0x0F) as u32) << 12u32) | (((b1 & 0x3F) as u32) << 6u32) | ((b2
                & 0x3F) as u32);
            proof {
                assert(tail[1] == b1 && tail[2] == b2);
                lemma_width3_range(b0, b1, b2);
                assert(cp == codepoint_width_3(b0, b1, b2));
                assert(valid_first_scalar(tail));
                assert(decode_first_scalar(tail) == cp);
                assert(is_scalar(cp));
            }
            let c = match char_from_u32(cp) {
                Some(c) => c,
                None => {
                    proof {
                        assert(false);
                    }
                    replacement_char()
                },
            };
            proof {
                vstd::utf8::char_u32_cast(c, cp);
            }
            (true, 3, c)
        }
    } else if b0 <= 0xF4 {
        if !(rem >= 2 && second_byte_ok_exec(b0, bytes[i + 1])) {
            proof {
                if rem >= 4 && is_continuation_byte(tail[1]) && is_continuation_byte(tail[2])
                    && is_continuation_byte(tail[3]) {
                    lemma_width4_range(b0, bytes[i + 1], bytes[i + 2], bytes[i + 3]);
                }
                assert(!valid_first_scalar(tail));
            }
            (false, 1, replacement_char())
        } else if !(rem >= 3 && {
            let b2 = bytes[i + 2];
            0x80 <= b2 && b2 <= 0xBF
        }) {
            proof {
                assert(!valid_first_scalar(tail));
            }
            (false, 2, replacement_char())
        } else if !(rem >= 4 && {
            let b3 = bytes[i + 3];
            0x80 <= b3 && b3 <= 0xBF
        }) {
            proof {
                assert(!valid_first_scalar(tail));
            }
            (false, 3, replacement_char())
        } else {
            let b1 = bytes[i + 1];
            let b2 = bytes[i + 2];
            let b3 = bytes[i + 3];
            let cp: u32 = (((b0 & 0x07) as u32) << 18u32) | (((b1 & 0x3F) as u32) << 12u32) | (((
            b2 & 0x3F) as u32) << 6u32) | ((b3 & 0x3F) as u32);
            proof {
                assert(tail[1] == b1 && tail[2] == b2 && tail[3] == b3);
                lemma_width4_range(b0, b1, b2, b3);
                assert(cp == codepoint_width_4(b0, b1, b2, b3));
                assert(valid_first_scalar(tail));
                assert(decode_first_scalar(tail) == cp);
                assert(is_scalar(cp));
            }
            let c = match char_from_u32(cp) {
                Some(c) => c,
                None => {
                    proof {
                        assert(false);
                    }
                    replacement_char()
                },
            };
            proof {
                vstd::utf8::char_u32_cast(c, cp);
            }
            (true, 4, c)
        }
    } else {
        proof {
            if rem >= 4 && is_continuation_byte(tail[1]) && is_continuation_byte(tail[2])
                && is_continuation_byte(tail[3]) && b0 <= 0xF7 {
                lemma_width4_range(b0, bytes[i + 1], bytes[i + 2], bytes[i + 3]);
            }
            assert(!valid_first_scalar(tail));
        }
        (false, 1, replacement_char())
    }
}

/// The replacement character, as executable code.
pub fn replacement_char() -> (c: char)
    ensures
        c == replacement(),
{
    '\u{FFFD}'
}

/// Decodes a byte sequence strictly: the characters it encodes when it is
/// well-formed UTF-8, and nothing otherwise.
pub fn decode_strict(bytes: &Vec<u8>) -> (r: Option<Vec<char>>)
    ensures
        r is Some <==> valid_utf8(bytes@),
        r is Some ==> r->0@ == decode_utf8(bytes@),
{
    let n = bytes.len();
    let mut out: Vec<char> = Vec::new();
    let mut i: usize = 0;
    proof {
        assert(bytes@.skip(0) =~= bytes@);
    }
    while i < n
        invariant
            n == bytes@.len(),
            i <= n,
            partial_valid_utf8(bytes@, i as int),
            valid_utf8(bytes@.skip(i as int)) ==> valid_utf8(bytes@) && decode_utf8(bytes@)
                == out@ + decode_utf8(bytes@.skip(i as int)),
        decreases n - i,
    {
        let ghost tail = bytes@.skip(i as int);
        let (ok, w, c) = next_scalar(bytes, i);
        if !ok {
            proof {
                assert(!valid_utf8(tail));
                partial_valid_partial_invalid_utf8(bytes@, i as int);
            }
            return None;
        }
        out.push(c);
        proof {
            assert(pop_first_scalar(tail) =~= bytes@.skip(i + w));
            assert(valid_utf8(bytes@.skip(i + w)) ==> valid_utf8(tail));
            if valid_utf8(bytes@.skip(i + w)) {
                assert(decode_utf8(tail) == seq![decode_first_scalar(tail) as char] + decode_utf8(
                    bytes@.skip(i + w),
                ));
                assert(out@ + decode_utf8(bytes@.skip(i + w)) =~= out@.drop_last() + decode_utf8(
                    tail,
                ));
            }
            assert(tail.subrange(i + w - i, tail.len() as int) =~= bytes@.skip(i + w));
        }
        i = i + w;
    }
    proof {
        assert(bytes@.skip(n as int) =~= Seq::<u8>::empty());
        assert(valid_utf8(bytes@.skip(n as int)));
        assert(decode_utf8(bytes@.skip(n as int)) =~= Seq::<char>::empty());
        assert(out@ =~= out@ + decode_utf8(bytes@.skip(n as int)));
    }
    Some(out)
}

/// Decodes a byte sequence lossily, per [`lossy_decode`]: well-formed scalar
/// encodings become their characters, and each maximal invalid subpart
/// becomes one replacement character. Never fails.
pub fn decode_lossy(bytes: &Vec<u8>) -> (r: Vec<char>)
    ensures
        r@ == lossy_decode(bytes@),
{
    let n = bytes.len();
    let mut out: Vec<char> = Vec::new();
    let mut i: usize = 0;
    proof {
        assert(bytes@.skip(0) =~= bytes@);
    }
    while i < n
        invariant
            n == bytes@.len(),
            i <= n,
            lossy_decode(bytes@) == out@ + lossy_decode(bytes@.skip(i as int)),
        decreases n - i,
    {
        let ghost tail = bytes@.skip(i as int);
        let (ok, w, c) = next_scalar(bytes, i);
        out.push(c);
        proof {
            assert(tail.len() > 0);
            if ok {
                assert(lossy_decode(tail) == seq![decode_first_scalar(tail) as char]
                    + lossy_decode(tail.skip(length_of_first_scalar(tail))));
            } else {
                assert(lossy_decode(tail) == seq![replacement()] + lossy_decode(
                    tail.skip(subpart_len(tail)),
                ));
            }
            assert(tail.skip(w as int) =~= bytes@.skip(i + w));
            assert(out@ + lossy_decode(bytes@.skip(i + w)) =~= out@.drop_last() + lossy_decode(
                tail,
            ));
        }
        i = i + w;
    }
    proof {
        assert(bytes@.skip(n as int) =~= Seq::<u8>::empty());
        assert(out@ =~= out@ + lossy_decode(bytes@.skip(n as int)));
    }
    out
}

/// On well-formed UTF-8, the lossy decoding agrees with the strict one.
pub proof fn lemma_lossy_decode_valid(b: Seq<u8>)
    requires
        valid_utf8(b),
    ensures
        lossy_decode(b) == decode_utf8(b),
    decreases b.len(),
{
    if b.len() > 0 {
        assert(pop_first_scalar(b) =~= b.skip(length_of_first_scalar(b)));
        lemma_lossy_decode_valid(b.skip(length_of_first_scalar(b)));
    }
}

/// Lossily decoding the UTF-8 encoding of any text gives back that text.
pub proof fn lemma_lossy_decode_of_text(s: Seq<char>)
    ensures
        lossy_decode(encode_utf8(s)) == s,
{
    lemma_lossy_decode_valid(encode_utf8(s));
}

} // verus!

//! Byte sequence to hexadecimal text and back, in three surface formats:
//! contiguous digit pairs, space-separated pairs, and `\x`-prefixed pairs.

use vstd::prelude::*;
use vstd::utf8::{decode_utf8, encode_utf8, valid_utf8};

use crate::err::CodecError;
use crate::text::{chars_of, string_from_chars};
use crate::utf8core::decode_strict;

verus! {

/// The three concrete hex renderings: `F09F8DA3`, `F0 9F 8D A3`,
/// and `\xF0\x9F\x8D\xA3`.
#[derive(Debug, Clone, Copy, PartialEq, Eq, Structural)]
pub enum HexFormat {
    Default,
    Spaced,
    Escaped,
}

/// True for the ASCII hex digits, either case.
pub open spec fn is_hex_digit(c: char) -> bool {
    ('0' <= c && c <= '9') || ('a' <= c && c <= 'f') || ('A' <= c && c <= 'F')
}

/// The numeric value of an ASCII hex digit.
pub open spec fn hex_digit_val(c: char) -> int
    recommends
        is_hex_digit(c),
{
    if '0' <= c && c <= '9' {
        c as int - '0' as int
    } else if 'a' <= c && c <= 'f' {
        c as int - 'a' as int + 10
    } else {
        c as int - 'A' as int + 10
    }
}

/// The hex digit for a value below 16, in the requested case.
pub open spec fn hex_digit_char(v: int, lower: bool) -> char
    recommends
        0 <= v < 16,
{
    if v == 0 { '0' }
    else if v == 1 { '1' }
    else if v == 2 { '2' }
    else if v == 3 { '3' }
    else if v == 4 { '4' }
    else if v == 5 { '5' }
    else if v == 6 { '6' }
    else if v == 7 { '7' }
    else if v == 8 { '8' }
    else if v == 9 { '9' }
    else if v == 10 { if lower { 'a' } else { 'A' } }
    else if v == 11 { if lower { 'b' } else { 'B' } }
    else if v == 12 { if lower { 'c' } else { 'C' } }
    else if v == 13 { if lower { 'd' } else { 'D' } }
    else if v == 14 { if lower { 'e' } else { 'E' } }
    else { if lower { 'f' } else { 'F' } }
}

/// The two hex digits of one byte, high digit first.
pub open spec fn byte_hex(b: u8, lower: bool) -> Seq<char> {
    seq![hex_digit_char(b as int / 16, lower), hex_digit_char(b as int % 16, lower)]
}

/// Contiguous rendering: the digit pairs of all bytes, concatenated.
pub open spec fn hex_plain(bs: Seq<u8>, lower: bool) -> Seq<char>
    decreases bs.len(),
{
    if bs.len() == 0 {
        Seq::empty()
    } else {
        hex_plain(bs.drop_last(), lower) + byte_hex(bs.last(), lower)
    }
}

/// Spaced rendering: digit pairs joined by single spaces.
pub open spec fn hex_spaced(bs: Seq<u8>, lower: bool) -> Seq<char>
    decreases bs.len(),
{
    if bs.len() == 0 {
        Seq::empty()
    } else if bs.len() == 1 {
        byte_hex(bs[0], lower)
    } else {
        hex_spaced(bs.drop_last(), lower) + seq![' '] + byte_hex(bs.last(), lower)
    }
}

/// Escaped rendering: each digit pair preceded by a backslash and `x`.
pub open spec fn hex_escaped(bs: Seq<u8>, lower: bool) -> Seq<char>
    decreases bs.len(),
{
    if bs.len() == 0 {
        Seq::empty()
    } else {
        hex_escaped(bs.drop_last(), lower) + seq!['\\', 'x'] + byte_hex(bs.last(), lower)
    }
}

/// The hex text for a byte sequence under the chosen case and format.
pub open spec fn hex_render(bs: Seq<u8>, lower: bool, format: HexFormat) -> Seq<char> {
    match format {
        HexFormat::Default => hex_plain(bs, lower),
        HexFormat::Spaced => hex_spaced(bs, lower),
        HexFormat::Escaped => hex_escaped(bs, lower),
    }
}

/// The hex digit for a value below 16, as executable code.
fn hex_digit_char_exec(v: u8, lower: bool) -> (c: char)
    requires
        v < 16,
    ensures
        c == hex_digit_char(v as int, lower),
{
    if v == 0 { '0' }
    else if v == 1 { '1' }
    else if v == 2 { '2' }
    else if v == 3 { '3' }
    else if v == 4 { '4' }
    else if v == 5 { '5' }
    else if v == 6 { '6' }
    else if v == 7 { '7' }
    else if v == 8 { '8' }
    else if v == 9 { '9' }
    else if v == 10 { if lower { 'a' } else { 'A' } }
    else if v == 11 { if lower { 'b' } else { 'B' } }
    else if v == 12 { if lower { 'c' } else { 'C' } }
    else if v == 13 { if lower { 'd' } else { 'D' } }
    else if v == 14 { if lower { 'e' } else { 'E' } }
    else { if lower { 'f' } else { 'F' } }
}

/// Renders every byte of `input`'s UTF-8 form as two hex digits, joined
/// according to `format`. Never fails; empty input yields empty output.
pub fn bin2hex(input: &str, lowercase: bool, format: HexFormat) -> (r: Result<
    String,
    CodecError,
>)
    ensures
        r is Ok,
        r->Ok_0@ == hex_render(encode_utf8(input@), lowercase, format),
{
    let bytes = input.as_bytes_vec();
    let n = bytes.len();
    let mut out: Vec<char> = Vec::new();
    let mut i: usize = 0;
    while i < n
        invariant
            n == bytes@.len(),
            i <= n,
            out@ == hex_render(bytes@.take(i as int), lowercase, format),
        decreases n - i,
    {
        match format {
            HexFormat::Default => {},
            HexFormat::Spaced => {
                if i > 0 {
                    out.push(' ');
                }
            },
            HexFormat::Escaped => {
                out.push('\\');
                out.push('x');
            },
        }
        let b = bytes[i];
        out.push(hex_digit_char_exec(b / 16, lowercase));
        out.push(hex_digit_char_exec(b % 16, lowercase));
        i = i + 1;
        proof {
            let pre = bytes@.take(i - 1);
            let cur = bytes@.take(i as int);
            assert(cur.drop_last() =~= pre);
            assert(cur.last() == bytes@[i - 1]);
            assert(out@ =~= hex_render(cur, lowercase, format));
        }
    }
    proof {
        assert(bytes@.take(n as int) =~= bytes@);
    }
    Ok(string_from_chars(&out))
}

/// The text with every two-character `\x` marker removed, scanning left to
/// right.
pub open spec fn strip_bsx(s: Seq<char>) -> Seq<char>
    decreases s.len(),
{
    if s.len() >= 2 && s[0] == '\\' && s[1] == 'x' {
        strip_bsx(s.skip(2))
    } else if s.len() >= 1 {
        seq![s[0]] + strip_bsx(s.skip(1))
    } else {
        Seq::empty()
    }
}

/// The text with every space removed.
pub open spec fn strip_spaces(s: Seq<char>) -> Seq<char>
    decreases s.len(),
{
    if s.len() == 0 {
        Seq::empty()
    } else if s.last() == ' ' {
        strip_spaces(s.drop_last())
    } else {
        strip_spaces(s.drop_last()).push(s.last())
    }
}

/// True when the text holds a space anywhere.
pub open spec fn has_space(s: Seq<char>) -> bool {
    exists|i: int| 0 <= i < s.len() && s[i] == ' '
}

/// The format-sniffing cleanup applied before hex digits are decoded: text
/// that starts with a `\x` marker has all such markers removed, otherwise
/// text with a space has all spaces removed, otherwise the text stands.
pub open spec fn cleaned_hex(s: Seq<char>) -> Seq<char> {
    if s.len() >= 2 && s[0] == '\\' && s[1] == 'x' {
        strip_bsx(s)
    } else if has_space(s) {
        strip_spaces(s)
    } else {
        s
    }
}

/// True when every character is an ASCII hex digit.
pub open spec fn all_hex_digits(s: Seq<char>) -> bool {
    forall|i: int| 0 <= i < s.len() ==> is_hex_digit(#[trigger] s[i])
}

/// The bytes named by successive pairs of hex digits.
pub open spec fn hex_pairs_bytes(s: Seq<char>) -> Seq<u8>
    recommends
        s.len() % 2 == 0,
        all_hex_digits(s),
    decreases s.len(),
{
    if s.len() < 2 {
        Seq::empty()
    } else {
        seq![(hex_digit_val(s[0]) * 16 + hex_digit_val(s[1])) as u8] + hex_pairs_bytes(s.skip(2))
    }
}

/// The hex digits of a nonnegative number, most significant first, with no
/// leading zeros (zero itself is the single digit `0`).
pub open spec fn hex_num(v: int, lower: bool) -> Seq<char>
    recommends
        v >= 0,
    decreases v,
{
    if v < 16 {
        seq![hex_digit_char(v, lower)]
    } else {
        hex_num(v / 16, lower).push(hex_digit_char(v % 16, lower))
    }
}

/// The four fixed hex digits of a number below 0x10000, in the requested
/// case.
pub open spec fn hex_num4(v: int, lower: bool) -> Seq<char>
    recommends
        0 <= v < 0x10000,
{
    seq![
        hex_digit_char(v / 4096, lower),
        hex_digit_char(v / 256 % 16, lower),
        hex_digit_char(v / 16 % 16, lower),
        hex_digit_char(v % 16, lower),
    ]
}

/// The numeric value of a string of hex digits, most significant first.
pub open spec fn hex_val_seq(s: Seq<char>) -> int
    recommends
        all_hex_digits(s),
    decreases s.len(),
{
    if s.len() == 0 {
        0
    } else {
        hex_val_seq(s.drop_last()) * 16 + hex_digit_val(s.last())
    }
}

/// The digits of [`hex_num`] are hex digits, at least one, and parse back to
/// the rendered value.
pub proof fn lemma_hex_num_props(v: int, lower: bool)
    requires
        v >= 0,
    ensures
        all_hex_digits(hex_num(v, lower)),
        hex_num(v, lower).len() >= 1,
        hex_val_seq(hex_num(v, lower)) == v,
    decreases v,
{
    if v < 16 {
        lemma_hex_digit_char_props(v, lower);
        let s = hex_num(v, lower);
        assert(hex_val_seq(Seq::<char>::empty()) == 0);
        assert(s.drop_last() =~= Seq::<char>::empty());
        assert(s.last() == hex_digit_char(v, lower));
        assert(hex_val_seq(s) == hex_val_seq(Seq::<char>::empty()) * 16 + hex_digit_val(s.last()));
    } else {
        lemma_hex_num_props(v / 16, lower);
        lemma_hex_digit_char_props(v % 16, lower);
        let s = hex_num(v, lower);
        assert(s.drop_last() =~= hex_num(v / 16, lower));
        assert(s.last() == hex_digit_char(v % 16, lower));
        assert(hex_val_seq(s) == hex_val_seq(hex_num(v / 16, lower)) * 16 + hex_digit_val(
            s.last(),
        ));
        assert(v / 16 * 16 + v % 16 == v) by {
            vstd::arithmetic::div_mod::lemma_fundamental_div_mod(v, 16);
        }
        assert(forall|i: int| 0 <= i < s.len() ==> is_hex_digit(#[trigger] s[i]));
    }
}

/// The digits of [`hex_num4`] are hex digits, four of them, and parse back
/// to the rendered value.
pub proof fn lemma_hex_num4_props(v: int, lower: bool)
    requires
        0 <= v < 0x10000,
    ensures
        all_hex_digits(hex_num4(v, lower)),
        hex_num4(v, lower).len() == 4,
        hex_val_seq(hex_num4(v, lower)) == v,
{
    lemma_hex_digit_char_props(v / 4096, lower);
    lemma_hex_digit_char_props(v / 256 % 16, lower);
    lemma_hex_digit_char_props(v / 16 % 16, lower);
    lemma_hex_digit_char_props(v % 16, lower);
    let s = hex_num4(v, lower);
    assert(s.drop_last() =~= seq![s[0], s[1], s[2]]);
    assert(seq![s[0], s[1], s[2]].drop_last() =~= seq![s[0], s[1]]);
    assert(seq![s[0], s[1]].drop_last() =~= seq![s[0]]);
    assert(seq![s[0]].drop_last() =~= Seq::<char>::empty());
    assert(hex_val_seq(Seq::<char>::empty()) == 0);
    assert(hex_val_seq(seq![s[0]]) == hex_digit_val(s[0]));
    assert(hex_val_seq(seq![s[0], s[1]]) == hex_val_seq(seq![s[0]]) * 16 + hex_digit_val(s[1]));
    assert(hex_val_seq(seq![s[0], s[1], s[2]]) == hex_val_seq(seq![s[0], s[1]]) * 16
        + hex_digit_val(s[2]));
    assert(hex_val_seq(s) == hex_val_seq(seq![s[0], s[1], s[2]]) * 16 + hex_digit_val(s[3]));
    assert(hex_val_seq(s) == ((v / 4096 * 16 + v / 256 % 16) * 16 + v / 16 % 16) * 16 + v % 16);
    assert(((v / 4096 * 16 + v / 256 % 16) * 16 + v / 16 % 16) * 16 + v % 16 == v) by {
        vstd::arithmetic::div_mod::lemma_fundamental_div_mod(v, 16);
        vstd::arithmetic::div_mod::lemma_fundamental_div_mod(v / 16, 16);
        vstd::arithmetic::div_mod::lemma_fundamental_div_mod(v / 256, 16);
        assert(v / 16 / 16 == v / 256) by (nonlinear_arith);
        assert(v / 256 / 16 == v / 4096) by (nonlinear_arith);
        assert(v / 4096 < 16);
    }
}

/// Appends the hex digits of `v`, most significant first, no leading zeros.
pub(crate) fn push_hex_num(out: &mut Vec<char>, v: u32, lower: bool)
    ensures
        final(out)@ == old(out)@ + hex_num(v as int, lower),
    decreases v,
{
    if v < 16 {
        out.push(hex_digit_char_exec(v as u8, lower));
        proof {
            assert(out@ =~= old(out)@ + hex_num(v as int, lower));
        }
    } else {
        push_hex_num(out, v / 16, lower);
        out.push(hex_digit_char_exec((v % 16) as u8, lower));
        proof {
            assert(out@ =~= old(out)@ + hex_num(v as int, lower));
        }
    }
}

/// Appends the four fixed hex digits of a value below 0x10000.
pub(crate) fn push_hex_num4(out: &mut Vec<char>, v: u32, lower: bool)
    requires
        v < 0x10000,
    ensures
        final(out)@ == old(out)@ + hex_num4(v as int, lower),
{
    out.push(hex_digit_char_exec((v / 4096) as u8, lower));
    out.push(hex_digit_char_exec((v / 256 % 16) as u8, lower));
    out.push(hex_digit_char_exec((v / 16 % 16) as u8, lower));
    out.push(hex_digit_char_exec((v % 16) as u8, lower));
    proof {
        assert(out@ =~= old(out)@ + hex_num4(v as int, lower));
    }
}

/// True for ASCII hex digits, as executable code.
pub(crate) fn is_hex_digit_exec(c: char) -> (r: bool)
    ensures
        r == is_hex_digit(c),
{
    ('0' <= c && c <= '9') || ('a' <= c && c <= 'f') || ('A' <= c && c <= 'F')
}

/// The numeric value of an ASCII hex digit, as executable code.
pub(crate) fn hex_digit_val_exec(c: char) -> (r: u8)
    requires
        is_hex_digit(c),
    ensures
        r as int == hex_digit_val(c),
        r < 16,
{
    let v = c as u32;
    if '0' <= c && c <= '9' {
        (v - 48) as u8
    } else if 'a' <= c && c <= 'f' {
        (v - 87) as u8
    } else {
        (v - 55) as u8
    }
}

/// Applies the format-sniffing cleanup of [`cleaned_hex`] to a character
/// vector.
pub(crate) fn clean_hex(chars: Vec<char>) -> (r: Vec<char>)
    ensures
        r@ == cleaned_hex(chars@),
{
    let n = chars.len();
    if n >= 2 && chars[0] == '\\' && chars[1] == 'x' {
        let mut out: Vec<char> = Vec::new();
        let mut i: usize = 0;
        proof {
            assert(chars@.skip(0) =~= chars@);
        }
        while i < n
            invariant
                n == chars@.len(),
                i <= n,
                strip_bsx(chars@) == out@ + strip_bsx(chars@.skip(i as int)),
            decreases n - i,
        {
            let ghost tail = chars@.skip(i as int);
            proof {
                assert(tail[0] == chars@[i as int]);
            }
            if i + 1 < n && chars[i] == '\\' && chars[i + 1] == 'x' {
                proof {
                    assert(tail[1] == chars@[i + 1]);
                    assert(tail.skip(2) =~= chars@.skip(i + 2));
                }
                i = i + 2;
            } else {
                out.push(chars[i]);
                proof {
                    assert(tail.skip(1) =~= chars@.skip(i + 1));
                    assert(strip_bsx(tail) == seq![tail[0]] + strip_bsx(chars@.skip(i + 1)));
                    assert(out@ + strip_bsx(chars@.skip(i + 1)) =~= out@.drop_last() + strip_bsx(
                        tail,
                    ));
                }
                i = i + 1;
            }
        }
        proof {
            assert(chars@.skip(n as int) =~= Seq::<char>::empty());
            assert(out@ =~= out@ + strip_bsx(chars@.skip(n as int)));
        }
        out
    } else {
        let mut found: bool = false;
        let mut i: usize = 0;
        while i < n
            invariant
                n == chars@.len(),
                i <= n,
                !found ==> forall|j: int| 0 <= j < i ==> chars@[j] != ' ',
                found ==> has_space(chars@),
            decreases n - i,
        {
            if chars[i] == ' ' {
                found = true;
            }
            i = i + 1;
        }
        if found {
            let mut out: Vec<char> = Vec::new();
            let mut k: usize = 0;
            while k < n
                invariant
                    n == chars@.len(),
                    k <= n,
                    out@ == strip_spaces(chars@.take(k as int)),
                decreases n - k,
            {
                let c = chars[k];
                if c != ' ' {
                    out.push(c);
                }
                k = k + 1;
                proof {
                    let cur = chars@.take(k as int);
                    assert(cur.drop_last() =~= chars@.take(k - 1));
                    assert(cur.last() == chars@[k - 1]);
                }
            }
            proof {
                assert(chars@.take(n as int) =~= chars@);
            }
            out
        } else {
            proof {
                assert(!has_space(chars@));
            }
            chars
        }
    }
}

/// Sniffs the hex format by shape, strips its markers, decodes digit pairs
/// to bytes, and interprets the bytes strictly as UTF-8 text.
///
/// Fails with `OddLength` when the cleaned digit string has odd length, with
/// `InvalidHexDigit` when it holds a character that is not an ASCII hex
/// digit, and with `InvalidUtf8` when the decoded bytes are not well-formed
/// UTF-8; otherwise returns exactly the text the bytes encode.
pub fn hex2bin(hex_input: &str) -> (r: Result<String, CodecError>)
    ensures
        ({
            let cleaned = cleaned_hex(hex_input@);
            &&& cleaned.len() % 2 == 1 ==> r == Err::<String, CodecError>(CodecError::OddLength)
            &&& cleaned.len() % 2 == 0 && !all_hex_digits(cleaned) ==> r == Err::<
                String,
                CodecError,
            >(CodecError::InvalidHexDigit)
            &&& cleaned.len() % 2 == 0 && all_hex_digits(cleaned) && !valid_utf8(
                hex_pairs_bytes(cleaned),
            ) ==> r == Err::<String, CodecError>(CodecError::InvalidUtf8)
            &&& cleaned.len() % 2 == 0 && all_hex_digits(cleaned) && valid_utf8(
                hex_pairs_bytes(cleaned),
            ) ==> r is Ok && r->Ok_0@ == decode_utf8(hex_pairs_bytes(cleaned))
        }),
{
    let chars = chars_of(hex_input);
    let cleaned = clean_hex(chars);
    let bytes = match parse_hex_pairs(&cleaned) {
        Ok(bytes) => bytes,
        Err(e) => {
            return Err(e);
        },
    };
    match decode_strict(&bytes) {
        Some(out) => Ok(string_from_chars(&out)),
        None => Err(CodecError::InvalidUtf8),
    }
}

/// Decodes a cleaned digit string into bytes, two hex digits per byte,
/// failing fast on an odd length or a character that is not a hex digit.
pub(crate) fn parse_hex_pairs(cleaned: &Vec<char>) -> (r: Result<Vec<u8>, CodecError>)
    ensures
        cleaned@.len() % 2 == 1 ==> r == Err::<Vec<u8>, CodecError>(CodecError::OddLength),
        cleaned@.len() % 2 == 0 && !all_hex_digits(cleaned@) ==> r == Err::<Vec<u8>, CodecError>(
            CodecError::InvalidHexDigit,
        ),
        cleaned@.len() % 2 == 0 && all_hex_digits(cleaned@) ==> r is Ok && r->Ok_0@
            == hex_pairs_bytes(cleaned@),
{
    let n = cleaned.len();
    if n % 2 != 0 {
        return Err(CodecError::OddLength);
    }
    let mut bytes: Vec<u8> = Vec::new();
    let mut i: usize = 0;
    proof {
        assert(cleaned@.skip(0) =~= cleaned@);
    }
    while i < n
        invariant
            n == cleaned@.len(),
            n % 2 == 0,
            i <= n,
            i % 2 == 0,
            forall|j: int| 0 <= j < i ==> is_hex_digit(#[trigger] cleaned@[j]),
            hex_pairs_bytes(cleaned@) == bytes@ + hex_pairs_bytes(cleaned@.skip(i as int)),
        decreases n - i,
    {
        let c0 = cleaned[i];
        let c1 = cleaned[i + 1];
        if !is_hex_digit_exec(c0) || !is_hex_digit_exec(c1) {
            proof {
                assert(!all_hex_digits(cleaned@));
            }
            return Err(CodecError::InvalidHexDigit);
        }
        let hi = hex_digit_val_exec(c0);
        let lo = hex_digit_val_exec(c1);
        bytes.push(hi * 16 + lo);
        proof {
            let tail = cleaned@.skip(i as int);
            assert(tail[0] == cleaned@[i as int] && tail[1] == cleaned@[i + 1]);
            assert(tail.skip(2) =~= cleaned@.skip(i + 2));
            assert(hex_pairs_bytes(tail) == seq![
                (hex_digit_val(tail[0]) * 16 + hex_digit_val(tail[1])) as u8,
            ] + hex_pairs_bytes(cleaned@.skip(i + 2)));
            assert(bytes@ + hex_pairs_bytes(cleaned@.skip(i + 2)) =~= bytes@.drop_last()
                + hex_pairs_bytes(tail));
        }
        i = i + 2;
    }
    proof {
        assert(cleaned@.skip(n as int) =~= Seq::<char>::empty());
        assert(bytes@ =~= bytes@ + hex_pairs_bytes(cleaned@.skip(n as int)));
        assert(all_hex_digits(cleaned@));
    }
    Ok(bytes)
}

proof fn lemma_hex_digit_char_props(v: int, lower: bool)
    requires
        0 <= v < 16,
    ensures
        is_hex_digit(hex_digit_char(v, lower)),
        hex_digit_val(hex_digit_char(v, lower)) == v,
        hex_digit_char(v, lower) != '\\',
        hex_digit_char(v, lower) != 'x',
        hex_digit_char(v, lower) != ' ',
{
}

proof fn lemma_hex_plain_props(bs: Seq<u8>, lower: bool)
    ensures
        all_hex_digits(hex_plain(bs, lower)),
        hex_plain(bs, lower).len() == 2 * bs.len(),
        !has_space(hex_plain(bs, lower)),
        forall|i: int|
            0 <= i < hex_plain(bs, lower).len() ==> #[trigger] hex_plain(bs, lower)[i] != '\\',
    decreases bs.len(),
{
    if bs.len() > 0 {
        lemma_hex_plain_props(bs.drop_last(), lower);
        lemma_hex_digit_char_props(bs.last() as int / 16, lower);
        lemma_hex_digit_char_props(bs.last() as int % 16, lower);
    }
}

proof fn lemma_hex_plain_front(bs: Seq<u8>, lower: bool)
    requires
        bs.len() > 0,
    ensures
        hex_plain(bs, lower) == byte_hex(bs[0], lower) + hex_plain(bs.skip(1), lower),
    decreases bs.len(),
{
    if bs.len() == 1 {
        assert(bs.drop_last() =~= Seq::<u8>::empty());
        assert(bs.skip(1) =~= Seq::<u8>::empty());
        assert(hex_plain(bs, lower) =~= byte_hex(bs[0], lower) + hex_plain(bs.skip(1), lower));
    } else {
        lemma_hex_plain_front(bs.drop_last(), lower);
        assert(bs.drop_last().skip(1) =~= bs.skip(1).drop_last());
        assert(bs.skip(1).last() == bs.last());
        assert(hex_plain(bs, lower) =~= byte_hex(bs[0], lower) + hex_plain(bs.skip(1), lower));
    }
}

proof fn lemma_hex_pairs_of_plain(bs: Seq<u8>, lower: bool)
    ensures
        hex_pairs_bytes(hex_plain(bs, lower)) == bs,
    decreases bs.len(),
{
    if bs.len() == 0 {
        assert(hex_pairs_bytes(hex_plain(bs, lower)) =~= bs);
    } else {
        let s = hex_plain(bs, lower);
        lemma_hex_plain_front(bs, lower);
        lemma_hex_plain_props(bs, lower);
        let b = bs[0];
        lemma_hex_digit_char_props(b as int / 16, lower);
        lemma_hex_digit_char_props(b as int % 16, lower);
        assert(s[0] == hex_digit_char(b as int / 16, lower));
        assert(s[1] == hex_digit_char(b as int % 16, lower));
        assert(hex_digit_val(s[0]) * 16 + hex_digit_val(s[1]) == b);
        assert(s.skip(2) =~= hex_plain(bs.skip(1), lower));
        lemma_hex_pairs_of_plain(bs.skip(1), lower);
        assert(hex_pairs_bytes(s) =~= bs);
    }
}

proof fn lemma_strip_spaces_id(s: Seq<char>)
    requires
        !has_space(s),
    ensures
        strip_spaces(s) == s,
    decreases s.len(),
{
    if s.len() > 0 {
        assert(s.last() != ' ');
        assert(!has_space(s.drop_last()));
        lemma_strip_spaces_id(s.drop_last());
        assert(strip_spaces(s) =~= s);
    } else {
        assert(strip_spaces(s) =~= s);
    }
}

proof fn lemma_strip_spaces_append(a: Seq<char>, b: Seq<char>)
    ensures
        strip_spaces(a + b) == strip_spaces(a) + strip_spaces(b),
    decreases b.len(),
{
    if b.len() == 0 {
        assert(a + b =~= a);
        assert(strip_spaces(a) + strip_spaces(b) =~= strip_spaces(a));
    } else {
        assert((a + b).drop_last() =~= a + b.drop_last());
        assert((a + b).last() == b.last());
        lemma_strip_spaces_append(a, b.drop_last());
        if b.last() == ' ' {
        } else {
            assert(strip_spaces(a) + strip_spaces(b) =~= (strip_spaces(a) + strip_spaces(
                b.drop_last(),
            )).push(b.last()));
        }
    }
}

proof fn lemma_hex_spaced_strip(bs: Seq<u8>, lower: bool)
    ensures
        strip_spaces(hex_spaced(bs, lower)) == hex_plain(bs, lower),
        bs.len() > 0 ==> is_hex_digit(hex_spaced(bs, lower)[0]),
        bs.len() >= 2 ==> has_space(hex_spaced(bs, lower)),
    decreases bs.len(),
{
    if bs.len() == 0 {
        assert(strip_spaces(hex_spaced(bs, lower)) =~= hex_plain(bs, lower));
    } else if bs.len() == 1 {
        lemma_hex_plain_props(bs, lower);
        assert(hex_spaced(bs, lower) =~= hex_plain(bs, lower));
        lemma_strip_spaces_id(hex_plain(bs, lower));
        lemma_hex_digit_char_props(bs[0] as int / 16, lower);
    } else {
        let pre = hex_spaced(bs.drop_last(), lower);
        lemma_hex_spaced_strip(bs.drop_last(), lower);
        lemma_strip_spaces_append(pre, seq![' '] + byte_hex(bs.last(), lower));
        lemma_strip_spaces_append(seq![' '], byte_hex(bs.last(), lower));
        assert(hex_spaced(bs, lower) =~= pre + (seq![' '] + byte_hex(bs.last(), lower)));
        assert(strip_spaces(Seq::<char>::empty()) =~= Seq::<char>::empty());
        assert(seq![' '].last() == ' ');
        assert(seq![' '].drop_last() =~= Seq::<char>::empty());
        assert(strip_spaces(seq![' ']) == strip_spaces(Seq::<char>::empty()));
        lemma_hex_digit_char_props(bs.last() as int / 16, lower);
        lemma_hex_digit_char_props(bs.last() as int % 16, lower);
        assert(!has_space(byte_hex(bs.last(), lower)));
        lemma_strip_spaces_id(byte_hex(bs.last(), lower));
        assert(strip_spaces(hex_spaced(bs, lower)) =~= hex_plain(bs, lower));
        assert(hex_spaced(bs, lower)[0] == pre[0]);
        assert(hex_spaced(bs, lower)[pre.len() as int] == ' ');
    }
}

proof fn lemma_hex_escaped_front(bs: Seq<u8>, lower: bool)
    requires
        bs.len() > 0,
    ensures
        hex_escaped(bs, lower) == seq!['\\', 'x'] + byte_hex(bs[0], lower) + hex_escaped(
            bs.skip(1),
            lower,
        ),
    decreases bs.len(),
{
    if bs.len() == 1 {
        assert(bs.drop_last() =~= Seq::<u8>::empty());
        assert(bs.skip(1) =~= Seq::<u8>::empty());
        assert(hex_escaped(bs, lower) =~= seq!['\\', 'x'] + byte_hex(bs[0], lower) + hex_escaped(
            bs.skip(1),
            lower,
        ));
    } else {
        lemma_hex_escaped_front(bs.drop_last(), lower);
        assert(bs.drop_last().skip(1) =~= bs.skip(1).drop_last());
        assert(bs.skip(1).last() == bs.last());
        assert(hex_escaped(bs, lower) =~= seq!['\\', 'x'] + byte_hex(bs[0], lower) + hex_escaped(
            bs.skip(1),
            lower,
        ));
    }
}

proof fn lemma_strip_bsx_escaped(bs: Seq<u8>, lower: bool)
    ensures
        strip_bsx(hex_escaped(bs, lower)) == hex_plain(bs, lower),
    decreases bs.len(),
{
    if bs.len() == 0 {
        assert(strip_bsx(hex_escaped(bs, lower)) =~= hex_plain(bs, lower));
    } else {
        let s = hex_escaped(bs, lower);
        let rest = hex_escaped(bs.skip(1), lower);
        let pair = byte_hex(bs[0], lower);
        lemma_hex_escaped_front(bs, lower);
        lemma_hex_digit_char_props(bs[0] as int / 16, lower);
        lemma_hex_digit_char_props(bs[0] as int % 16, lower);
        assert(s[0] == '\\' && s[1] == 'x');
        assert(strip_bsx(s) == strip_bsx(s.skip(2)));
        assert(s.skip(2) =~= pair + rest);
        assert((pair + rest)[0] == pair[0] && pair[0] != '\\');
        assert(strip_bsx(pair + rest) == seq![pair[0]] + strip_bsx((pair + rest).skip(1)));
        assert((pair + rest).skip(1) =~= seq![pair[1]] + rest);
        assert((seq![pair[1]] + rest)[0] == pair[1] && pair[1] != '\\');
        assert(strip_bsx(seq![pair[1]] + rest) == seq![pair[1]] + strip_bsx(
            (seq![pair[1]] + rest).skip(1),
        ));
        assert((seq![pair[1]] + rest).skip(1) =~= rest);
        lemma_strip_bsx_escaped(bs.skip(1), lower);
        lemma_hex_plain_front(bs, lower);
        assert(strip_bsx(s) =~= hex_plain(bs, lower));
    }
}

proof fn lemma_cleaned_hex_render(bs: Seq<u8>, lower: bool, format: HexFormat)
    ensures
        cleaned_hex(hex_render(bs, lower, format)) == hex_plain(bs, lower),
{
    lemma_hex_plain_props(bs, lower);
    match format {
        HexFormat::Default => {
            let s = hex_plain(bs, lower);
            if s.len() >= 2 {
                assert(s[0] != '\\');
            }
        },
        HexFormat::Spaced => {
            lemma_hex_spaced_strip(bs, lower);
            let s = hex_spaced(bs, lower);
            if bs.len() == 0 {
                assert(s =~= hex_plain(bs, lower));
                assert(!has_space(s));
            } else if bs.len() == 1 {
                assert(s =~= hex_plain(bs, lower));
                assert(!has_space(s));
                if s.len() >= 2 {
                    assert(s[0] != '\\');
                }
            } else {
                assert(s[0] != '\\');
                assert(has_space(s));
            }
        },
        HexFormat::Escaped => {
            lemma_strip_bsx_escaped(bs, lower);
            if bs.len() == 0 {
                assert(hex_escaped(bs, lower) =~= hex_plain(bs, lower));
            } else {
                lemma_hex_escaped_front(bs, lower);
                let s = hex_escaped(bs, lower);
                assert(s[0] == '\\' && s[1] == 'x');
            }
        },
    }
}

/// Decoding any hex rendering of a text's UTF-8 bytes — in either digit case
/// and any of the three formats — passes every check of [`hex2bin`] and gives
/// back exactly that text.
pub proof fn lemma_hex_round_trip(text: Seq<char>, lower: bool, format: HexFormat)
    ensures
        ({
            let cleaned = cleaned_hex(hex_render(encode_utf8(text), lower, format));
            &&& cleaned.len() % 2 == 0
            &&& all_hex_digits(cleaned)
            &&& hex_pairs_bytes(cleaned) == encode_utf8(text)
            &&& valid_utf8(hex_pairs_bytes(cleaned))
            &&& decode_utf8(hex_pairs_bytes(cleaned)) == text
        }),
{
    let bs = encode_utf8(text);
    lemma_cleaned_hex_render(bs, lower, format);
    lemma_hex_plain_props(bs, lower);
    lemma_hex_pairs_of_plain(bs, lower);
    vstd::utf8::encode_utf8_valid_utf8(text);
    vstd::utf8::encode_utf8_decode_utf8(text);
}

/// Hex decoding is insensitive to the digit case and the format an encoder
/// chose: any rendering of the same bytes cleans and parses back to those
/// same bytes.
pub proof fn lemma_hex_decode_insensitive(
    bs: Seq<u8>,
    lower1: bool,
    format1: HexFormat,
    lower2: bool,
    format2: HexFormat,
)
    ensures
        hex_pairs_bytes(cleaned_hex(hex_render(bs, lower1, format1))) == bs,
        hex_pairs_bytes(cleaned_hex(hex_render(bs, lower1, format1))) == hex_pairs_bytes(
            cleaned_hex(hex_render(bs, lower2, format2)),
        ),
{
    lemma_cleaned_hex_render(bs, lower1, format1);
    lemma_cleaned_hex_render(bs, lower2, format2);
    lemma_hex_pairs_of_plain(bs, lower1);
    lemma_hex_pairs_of_plain(bs, lower2);
}

} // verus!

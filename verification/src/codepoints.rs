//! Per-character hex codepoint listings and their inverse: hex tokens, with
//! or without a `0x` prefix, to and from text.

use vstd::prelude::*;

use crate::err::CodecError;
use crate::hexcodec::{
    all_hex_digits, hex_num, hex_val_seq, is_hex_digit, lemma_hex_num_props, push_hex_num,
};
use crate::escape::parse_braced_value;
use crate::text::{char_from_u32, chars_of, string_from_chars};

verus! {

/// The hex token listing one character's codepoint: an optional `0x` prefix,
/// then the hex digits in the requested case, no leading zeros.
pub open spec fn ord_token(c: char, lower: bool, no_prefix: bool) -> Seq<char> {
    if no_prefix {
        hex_num((c as u32) as int, lower)
    } else {
        seq!['0', 'x'] + hex_num((c as u32) as int, lower)
    }
}

/// A codepoint token with one optional leading `0x` or `0X` marker removed.
pub open spec fn strip_0x(t: Seq<char>) -> Seq<char> {
    if t.len() >= 2 && t[0] == '0' && (t[1] == 'x' || t[1] == 'X') {
        t.skip(2)
    } else {
        t
    }
}

/// The character a codepoint token names: after the optional prefix, the
/// remainder must be one or more hex digits (`InvalidHex` otherwise) naming
/// a value at most 0x10FFFF outside the surrogate range (`InvalidCodepoint`
/// otherwise).
pub open spec fn chr_token(t: Seq<char>) -> Result<char, CodecError> {
    let h = strip_0x(t);
    if h.len() == 0 || !all_hex_digits(h) {
        Err(CodecError::InvalidHex)
    } else {
        let v = hex_val_seq(h);
        if v > 0x10FFFF || (0xD800 <= v && v <= 0xDFFF) {
            Err(CodecError::InvalidCodepoint)
        } else {
            Ok((v as u32) as char)
        }
    }
}

/// The text named by a sequence of codepoint tokens: each token's character
/// in order, or the first failing token's error, with no partial result.
pub open spec fn chr_text(tokens: Seq<Seq<char>>) -> Result<Seq<char>, CodecError>
    decreases tokens.len(),
{
    if tokens.len() == 0 {
        Ok(Seq::empty())
    } else {
        match chr_token(tokens[0]) {
            Err(e) => Err(e),
            Ok(c) => match chr_text(tokens.skip(1)) {
                Err(e) => Err(e),
                Ok(s) => Ok(seq![c] + s),
            },
        }
    }
}

/// Lists every codepoint of the input as a hex token in the requested case,
/// with or without the `0x` prefix. Never fails; empty input yields an empty
/// listing.
pub fn ord_characters(input: &str, lowercase: bool, no_prefix: bool) -> (r: Vec<String>)
    ensures
        r@.len() == input@.len(),
        forall|j: int| 0 <= j < r@.len() ==> #[trigger] r@[j]@ == ord_token(
            input@[j],
            lowercase,
            no_prefix,
        ),
{
    let chars = chars_of(input);
    let n = chars.len();
    let mut r: Vec<String> = Vec::new();
    let mut i: usize = 0;
    while i < n
        invariant
            n == chars@.len(),
            chars@ == input@,
            i <= n,
            r@.len() == i,
            forall|j: int| 0 <= j < i ==> #[trigger] r@[j]@ == ord_token(
                input@[j],
                lowercase,
                no_prefix,
            ),
        decreases n - i,
    {
        let c = chars[i];
        let mut tok: Vec<char> = Vec::new();
        if !no_prefix {
            tok.push('0');
            tok.push('x');
        }
        push_hex_num(&mut tok, c as u32, lowercase);
        proof {
            assert(tok@ =~= ord_token(c, lowercase, no_prefix));
        }
        r.push(string_from_chars(&tok));
        i = i + 1;
    }
    r
}

/// Joins a decoded prefix onto the outcome for the remaining tokens.
pub open spec fn chr_join(pre: Seq<char>, r: Result<Seq<char>, CodecError>) -> Result<
    Seq<char>,
    CodecError,
> {
    match r {
        Ok(s) => Ok(pre + s),
        Err(e) => Err(e),
    }
}

/// Decodes a sequence of codepoint tokens into text, per [`chr_text`]:
/// processing stops at the first failing token and no partial result is
/// returned. An empty token list yields empty text.
pub fn chr_from_codepoints(codepoints: &[String]) -> (r: Result<String, CodecError>)
    ensures
        r is Ok <==> chr_text(codepoints.deep_view()) is Ok,
        r is Ok ==> Ok::<Seq<char>, CodecError>(r->Ok_0@) == chr_text(codepoints.deep_view()),
        r is Err ==> Err::<Seq<char>, CodecError>(r->Err_0) == chr_text(codepoints.deep_view()),
{
    let ghost toks = codepoints.deep_view();
    let n = codepoints.len();
    let mut out: Vec<char> = Vec::new();
    let mut i: usize = 0;
    proof {
        assert(toks.skip(0) =~= toks);
        assert(chr_text(toks) == chr_join(out@, chr_text(toks.skip(0))));
    }
    while i < n
        invariant
            toks == codepoints.deep_view(),
            n == toks.len(),
            n == codepoints@.len(),
            i <= n,
            chr_text(toks) == chr_join(out@, chr_text(toks.skip(i as int))),
        decreases n - i,
    {
        let ghost pre = out@;
        let token = &codepoints[i];
        let tchars = chars_of(token.as_str());
        proof {
            assert(toks[i as int] == codepoints@[i as int]@);
            assert(tchars@ == toks[i as int]);
        }
        let m = tchars.len();
        let start: usize = if m >= 2 && tchars[0] == '0' && (tchars[1] == 'x' || tchars[1]
            == 'X') {
            2
        } else {
            0
        };
        let ghost h = strip_0x(toks[i as int]);
        proof {
            assert(h =~= tchars@.subrange(start as int, m as int));
        }
        if start == m {
            proof {
                assert(h.len() == 0);
            }
            return Err(CodecError::InvalidHex);
        }
        let v = match parse_braced_value(&tchars, start, m) {
            None => {
                return Err(CodecError::InvalidHex);
            },
            Some(v) => v,
        };
        if v > 0x10FFFF || (0xD800 <= v && v <= 0xDFFF) {
            proof {
                assert(hex_val_seq(h) > 0x10FFFF || (0xD800 <= hex_val_seq(h) && hex_val_seq(h)
                    <= 0xDFFF));
            }
            return Err(CodecError::InvalidCodepoint);
        }
        let c = match char_from_u32(v) {
            Some(c) => c,
            None => {
                proof {
                    assert(false);
                }
                return Err(CodecError::InvalidCodepoint);
            },
        };
        out.push(c);
        proof {
            vstd::utf8::char_u32_cast(c, v);
            assert(chr_token(toks[i as int]) == Ok::<char, CodecError>(c));
            assert(toks.skip(i as int)[0] == toks[i as int]);
            assert(toks.skip(i as int).skip(1) =~= toks.skip(i + 1));
            assert(chr_text(toks.skip(i as int)) == chr_join(
                seq![c],
                chr_text(toks.skip(i + 1)),
            ));
            assert(out@ =~= pre + seq![c]);
            match chr_text(toks.skip(i + 1)) {
                Ok(s) => {
                    assert(pre + (seq![c] + s) =~= out@ + s);
                },
                Err(_) => {},
            }
        }
        i = i + 1;
    }
    proof {
        assert(toks.skip(n as int) =~= Seq::<Seq<char>>::empty());
        assert(chr_text(toks.skip(n as int)) == Ok::<Seq<char>, CodecError>(Seq::empty()));
        assert(out@ + Seq::<char>::empty() =~= out@);
    }
    Ok(string_from_chars(&out))
}

proof fn lemma_chr_of_ord_token(c: char, lower: bool, no_prefix: bool)
    ensures
        chr_token(ord_token(c, lower, no_prefix)) == Ok::<char, CodecError>(c),
{
    let cp = (c as u32) as int;
    let hx = hex_num(cp, lower);
    lemma_hex_num_props(cp, lower);
    vstd::utf8::char_is_scalar(c);
    let t = ord_token(c, lower, no_prefix);
    if no_prefix {
        if t.len() >= 2 {
            assert(is_hex_digit(t[1]));
            assert(t[1] != 'x' && t[1] != 'X');
        }
        assert(strip_0x(t) == hx);
    } else {
        assert(t[0] == '0' && t[1] == 'x');
        assert(strip_0x(t) =~= hx);
    }
    assert(hex_val_seq(hx) == cp);
    vstd::utf8::char_u32_cast(c, c as u32);
}

/// The codepoint listing of a text: one token per character.
pub open spec fn ord_tokens(s: Seq<char>, lower: bool, no_prefix: bool) -> Seq<Seq<char>> {
    s.map(|j: int, c: char| ord_token(c, lower, no_prefix))
}

/// Decoding the codepoint listing of any text — in either case, with or
/// without the prefix — gives back exactly that text.
pub proof fn lemma_chr_of_ord(s: Seq<char>, lower: bool, no_prefix: bool)
    ensures
        chr_text(ord_tokens(s, lower, no_prefix)) == Ok::<Seq<char>, CodecError>(s),
    decreases s.len(),
{
    let toks = ord_tokens(s, lower, no_prefix);
    if s.len() == 0 {
        assert(toks.len() == 0);
        assert(chr_text(toks) == Ok::<Seq<char>, CodecError>(Seq::empty()));
        assert(s =~= Seq::<char>::empty());
    } else {
        lemma_chr_of_ord_token(s[0], lower, no_prefix);
        assert(toks[0] == ord_token(s[0], lower, no_prefix));
        assert(chr_token(toks[0]) == Ok::<char, CodecError>(s[0]));
        assert(toks.skip(1) =~= ord_tokens(s.skip(1), lower, no_prefix));
        lemma_chr_of_ord(s.skip(1), lower, no_prefix);
        assert(chr_text(toks.skip(1)) == Ok::<Seq<char>, CodecError>(s.skip(1)));
        assert(toks.len() > 0);
        assert(chr_text(toks) == Ok::<Seq<char>, CodecError>(seq![s[0]] + s.skip(1)));
        assert(seq![s[0]] + s.skip(1) =~= s);
    }
}

} // verus!

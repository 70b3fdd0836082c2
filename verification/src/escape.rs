//! Text to backslash-escape notation and back: a variable-width brace form
//! with one `\u{HEX}` token per codepoint, and a fixed-width form with one or
//! two `\uHHHH` UTF-16 tokens per codepoint, surrogate pairs included.

use vstd::prelude::*;

use crate::hexcodec::{
    all_hex_digits, hex_digit_val, hex_digit_val_exec, hex_num, hex_num4, hex_val_seq, is_hex_digit,
    is_hex_digit_exec, lemma_hex_num4_props, lemma_hex_num_props, push_hex_num, push_hex_num4,
};
use crate::text::{char_from_u32, chars_of, string_from_chars};
use crate::utf8core::{replacement, replacement_char};

verus! {

/// The two escape notations: one variable-width uppercase `\u{HEX}` token per
/// codepoint, or fixed four-digit `\uHHHH` tokens with UTF-16 surrogate pairs
/// for codepoints above 0xFFFF.
#[derive(Debug, Clone, Copy, PartialEq, Eq, Structural)]
pub enum EscapeFormat {
    Default,
    Json,
}

/// The high UTF-16 surrogate of a codepoint above 0xFFFF.
pub open spec fn high_surrogate(cp: int) -> int
    recommends
        0x10000 <= cp <= 0x10FFFF,
{
    0xD800 + (cp - 0x10000) / 0x400
}

/// The low UTF-16 surrogate of a codepoint above 0xFFFF.
pub open spec fn low_surrogate(cp: int) -> int
    recommends
        0x10000 <= cp <= 0x10FFFF,
{
    0xDC00 + (cp - 0x10000) % 0x400
}

/// The brace-form escape token of one character: `\u{`, its uppercase hex
/// codepoint with no leading zeros, and `}`.
pub open spec fn escape_default_char(c: char) -> Seq<char> {
    seq!['\\', 'u', '{'] + hex_num((c as u32) as int, false) + seq!['}']
}

/// The brace-form escape of a text: one token per character, concatenated.
pub open spec fn escape_default_text(s: Seq<char>) -> Seq<char>
    decreases s.len(),
{
    if s.len() == 0 {
        Seq::empty()
    } else {
        escape_default_char(s[0]) + escape_default_text(s.skip(1))
    }
}

/// The fixed-width escape of one character: a single `\uHHHH` token for a
/// codepoint at most 0xFFFF, else the high then the low surrogate token.
pub open spec fn escape_json_char(c: char) -> Seq<char> {
    if (c as u32) <= 0xFFFF {
        seq!['\\', 'u'] + hex_num4((c as u32) as int, false)
    } else {
        seq!['\\', 'u'] + hex_num4(high_surrogate((c as u32) as int), false) + seq!['\\', 'u']
            + hex_num4(low_surrogate((c as u32) as int), false)
    }
}

/// The fixed-width escape of a text: tokens per character, concatenated.
pub open spec fn escape_json_text(s: Seq<char>) -> Seq<char>
    decreases s.len(),
{
    if s.len() == 0 {
        Seq::empty()
    } else {
        escape_json_char(s[0]) + escape_json_text(s.skip(1))
    }
}

/// The escape of a text under the chosen format.
pub open spec fn escape_render(s: Seq<char>, format: EscapeFormat) -> Seq<char> {
    match format {
        EscapeFormat::Default => escape_default_text(s),
        EscapeFormat::Json => escape_json_text(s),
    }
}

proof fn lemma_shift10_div(a: u32)
    by (bit_vector)
    requires
        a < 0x100000,
    ensures
        a >> 10 == a / 0x400,
        a & 0x3FF == a % 0x400,
{
}

/// Escapes every codepoint of the input in the chosen format. Never fails;
/// empty input yields empty output.
pub fn escape_unicode_with_format(input: &str, format: EscapeFormat) -> (r: String)
    ensures
        r@ == escape_render(input@, format),
{
    let chars = chars_of(input);
    let n = chars.len();
    let mut out: Vec<char> = Vec::new();
    let mut i: usize = 0;
    proof {
        assert(chars@.skip(0) =~= chars@);
    }
    while i < n
        invariant
            n == chars@.len(),
            i <= n,
            escape_render(chars@, format) == out@ + escape_render(chars@.skip(i as int), format),
        decreases n - i,
    {
        let ghost tail = chars@.skip(i as int);
        let ghost pre = out@;
        let c = chars[i];
        let cp = c as u32;
        proof {
            assert(tail[0] == c);
            assert(tail.skip(1) =~= chars@.skip(i + 1));
        }
        match format {
            EscapeFormat::Default => {
                out.push('\\');
                out.push('u');
                out.push('{');
                push_hex_num(&mut out, cp, false);
                out.push('}');
                proof {
                    assert(out@ =~= pre + escape_default_char(c));
                    assert(escape_default_text(tail) == escape_default_char(c)
                        + escape_default_text(chars@.skip(i + 1)));
                    assert(out@ + escape_default_text(chars@.skip(i + 1)) =~= pre
                        + escape_default_text(tail));
                }
            },
            EscapeFormat::Json => {
                if cp <= 0xFFFF {
                    out.push('\\');
                    out.push('u');
                    push_hex_num4(&mut out, cp, false);
                    proof {
                        assert(out@ =~= pre + escape_json_char(c));
                    }
                } else {
                    proof {
                        vstd::utf8::char_is_scalar(c);
                        assert(cp <= 0x10FFFF);
                        lemma_shift10_div((cp - 0x10000) as u32);
                    }
                    let adjusted = cp - 0x10000;
                    let high = 0xD800 + (adjusted >> 10u32);
                    let low = 0xDC00 + (adjusted & 0x3FF);
                    proof {
                        assert(high == high_surrogate((c as u32) as int));
                        assert(low == low_surrogate((c as u32) as int));
                        assert(high < 0x10000 && low < 0x10000);
                    }
                    out.push('\\');
                    out.push('u');
                    push_hex_num4(&mut out, high, false);
                    out.push('\\');
                    out.push('u');
                    push_hex_num4(&mut out, low, false);
                    proof {
                        assert(out@ =~= pre + escape_json_char(c));
                    }
                }
                proof {
                    assert(escape_json_text(tail) == escape_json_char(c) + escape_json_text(
                        chars@.skip(i + 1),
                    ));
                    assert(out@ + escape_json_text(chars@.skip(i + 1)) =~= pre + escape_json_text(
                        tail,
                    ));
                }
            },
        }
        i = i + 1;
    }
    proof {
        assert(chars@.skip(n as int) =~= Seq::<char>::empty());
        assert(out@ =~= out@ + escape_render(chars@.skip(n as int), format));
    }
    string_from_chars(&out)
}

/// Escapes every codepoint of the input in the brace form, `\u{HEX}`.
pub fn escape_unicode(input: &str) -> (r: String)
    ensures
        r@ == escape_default_text(input@),
{
    escape_unicode_with_format(input, EscapeFormat::Default)
}

/// The index of the first closing brace, or the length when there is none.
pub open spec fn find_close(s: Seq<char>) -> int
    decreases s.len(),
{
    if s.len() == 0 {
        0
    } else if s[0] == '}' {
        0
    } else {
        1 + find_close(s.skip(1))
    }
}

proof fn lemma_find_close_props(s: Seq<char>)
    ensures
        0 <= find_close(s) <= s.len(),
        find_close(s) < s.len() ==> s[find_close(s)] == '}',
        forall|m: int| 0 <= m < find_close(s) ==> s[m] != '}',
    decreases s.len(),
{
    if s.len() > 0 && s[0] != '}' {
        lemma_find_close_props(s.skip(1));
        assert forall|m: int| 0 <= m < find_close(s) implies s[m] != '}' by {
            if m > 0 {
                assert(s.skip(1)[m - 1] == s[m]);
            }
        }
        if find_close(s) < s.len() {
            assert(s.skip(1)[find_close(s) - 1] == s[find_close(s)]);
        }
    }
}

proof fn lemma_find_close_unique(s: Seq<char>, j: int)
    requires
        0 <= j <= s.len(),
        forall|m: int| 0 <= m < j ==> s[m] != '}',
        j < s.len() ==> s[j] == '}',
    ensures
        find_close(s) == j,
    decreases s.len(),
{
    if s.len() == 0 {
    } else if s[0] == '}' {
        assert(j == 0);
    } else {
        assert(j >= 1);
        let t = s.skip(1);
        assert forall|m: int| 0 <= m < j - 1 implies t[m] != '}' by {
            assert(t[m] == s[m + 1]);
        }
        assert(j - 1 < t.len() ==> t[j - 1] == '}');
        lemma_find_close_unique(t, j - 1);
    }
}

/// The codepoint a well-formed UTF-16 surrogate pair encodes.
pub open spec fn combine_surrogates(hi: int, lo: int) -> int
    recommends
        0xD800 <= hi <= 0xDBFF,
        0xDC00 <= lo <= 0xDFFF,
{
    0x10000 + (hi - 0xD800) * 0x400 + (lo - 0xDC00)
}

/// One step of the left-to-right unescape scan on a nonempty text: how many
/// characters the step consumes, and what it emits.
///
/// A `\u{...}` token decodes its braced hex value, or one replacement
/// character when the brace never closes (consuming the whole rest), when the
/// braces are empty or hold a non-hex character, or when the value is above
/// 0x10FFFF or a surrogate. A `\u` with four hex digits is a UTF-16 unit: a
/// high surrogate looks ahead for one more `\u` token, combining with a valid
/// low surrogate and degrading to replacement characters otherwise; a lone
/// low surrogate becomes one replacement character; any other unit is itself.
/// A `\u` with fewer than four hex digits becomes one replacement character,
/// consuming just the marker. Anything else is copied verbatim.
pub open spec fn unescape_step(s: Seq<char>) -> (int, Seq<char>)
    recommends
        s.len() > 0,
{
    if s.len() >= 3 && s[0] == '\\' && s[1] == 'u' && s[2] == '{' {
        let rest = s.skip(3);
        let k = find_close(rest);
        if k >= rest.len() {
            (s.len() as int, seq![replacement()])
        } else {
            let content = rest.take(k);
            if content.len() == 0 || !all_hex_digits(content) {
                (4 + k, seq![replacement()])
            } else {
                let v = hex_val_seq(content);
                if v > 0x10FFFF || (0xD800 <= v && v <= 0xDFFF) {
                    (4 + k, seq![replacement()])
                } else {
                    (4 + k, seq![(v as u32) as char])
                }
            }
        }
    } else if s.len() >= 2 && s[0] == '\\' && s[1] == 'u' {
        let rest = s.skip(2);
        if rest.len() >= 4 && all_hex_digits(rest.take(4)) {
            let unit = hex_val_seq(rest.take(4));
            if 0xD800 <= unit && unit <= 0xDBFF {
                let after = rest.skip(4);
                if after.len() >= 6 && after[0] == '\\' && after[1] == 'u' && all_hex_digits(
                    after.subrange(2, 6),
                ) {
                    let unit2 = hex_val_seq(after.subrange(2, 6));
                    if 0xDC00 <= unit2 && unit2 <= 0xDFFF {
                        (12, seq![(combine_surrogates(unit, unit2) as u32) as char])
                    } else {
                        (12, seq![replacement(), replacement()])
                    }
                } else {
                    (6, seq![replacement()])
                }
            } else if 0xDC00 <= unit && unit <= 0xDFFF {
                (6, seq![replacement()])
            } else {
                (6, seq![(unit as u32) as char])
            }
        } else {
            (2, seq![replacement()])
        }
    } else {
        (1, seq![s[0]])
    }
}

proof fn lemma_step_bounds(s: Seq<char>)
    requires
        s.len() > 0,
    ensures
        1 <= unescape_step(s).0 <= s.len(),
{
    if s.len() >= 3 && s[0] == '\\' && s[1] == 'u' && s[2] == '{' {
        lemma_find_close_props(s.skip(3));
    }
}

/// The unescaped form of a text: the emissions of the left-to-right scan of
/// [`unescape_step`], concatenated. Total: every text unescapes to a text.
pub open spec fn unescape_text(s: Seq<char>) -> Seq<char>
    decreases s.len(),
    via unescape_text_decreases
{
    if s.len() == 0 {
        Seq::empty()
    } else {
        unescape_step(s).1 + unescape_text(s.skip(unescape_step(s).0))
    }
}

#[via_fn]
proof fn unescape_text_decreases(s: Seq<char>) {
    if s.len() > 0 {
        lemma_step_bounds(s);
    }
}

/// Parses four hex digits starting at `start`, when all four are hex digits.
fn parse_hex4(chars: &Vec<char>, start: usize) -> (r: Option<u32>)
    requires
        start + 4 <= chars@.len(),
    ensures
        ({
            let quad = chars@.subrange(start as int, start + 4);
            &&& r is Some <==> all_hex_digits(quad)
            &&& r is Some ==> r->0 as int == hex_val_seq(quad) && r->0 <= 0xFFFF
        }),
{
    let ghost quad = chars@.subrange(start as int, start + 4);
    let n = chars.len();
    proof {
        assert(start + 4 <= n);
    }
    let c0 = chars[start];
    let c1 = chars[start + 1];
    let c2 = chars[start + 2];
    let c3 = chars[start + 3];
    proof {
        assert(quad[0] == c0 && quad[1] == c1 && quad[2] == c2 && quad[3] == c3);
    }
    if !(is_hex_digit_exec(c0) && is_hex_digit_exec(c1) && is_hex_digit_exec(c2)
        && is_hex_digit_exec(c3)) {
        proof {
            assert(!all_hex_digits(quad));
        }
        return None;
    }
    let d0 = hex_digit_val_exec(c0) as u32;
    let d1 = hex_digit_val_exec(c1) as u32;
    let d2 = hex_digit_val_exec(c2) as u32;
    let d3 = hex_digit_val_exec(c3) as u32;
    let v = ((d0 * 16 + d1) * 16 + d2) * 16 + d3;
    proof {
        assert(forall|m: int| 0 <= m < 4 ==> is_hex_digit(#[trigger] quad[m]));
        assert(quad.drop_last() =~= seq![c0, c1, c2]);
        assert(seq![c0, c1, c2].drop_last() =~= seq![c0, c1]);
        assert(seq![c0, c1].drop_last() =~= seq![c0]);
        assert(seq![c0].drop_last() =~= Seq::<char>::empty());
        assert(hex_val_seq(Seq::<char>::empty()) == 0);
        assert(hex_val_seq(seq![c0]) == hex_digit_val(c0));
        assert(hex_val_seq(seq![c0, c1]) == hex_val_seq(seq![c0]) * 16 + hex_digit_val(c1));
        assert(hex_val_seq(seq![c0, c1, c2]) == hex_val_seq(seq![c0, c1]) * 16 + hex_digit_val(
            c2,
        ));
        assert(hex_val_seq(quad) == hex_val_seq(seq![c0, c1, c2]) * 16 + hex_digit_val(c3));
    }
    Some(v)
}

/// Parses the hex digits in `[start, end)` with the value clamped just above
/// the greatest codepoint, so that an oversized value is still recognized.
pub(crate) fn parse_braced_value(chars: &Vec<char>, start: usize, end: usize) -> (r: Option<u32>)
    requires
        start <= end <= chars@.len(),
    ensures
        ({
            let content = chars@.subrange(start as int, end as int);
            &&& r is None <==> !all_hex_digits(content)
            &&& r is Some ==> (r->0 <= 0x10FFFF && r->0 as int == hex_val_seq(content)) || (r->0
                == 0x110000 && hex_val_seq(content) > 0x10FFFF)
        }),
{
    let ghost content = chars@.subrange(start as int, end as int);
    let mut acc: u32 = 0;
    let mut k: usize = start;
    proof {
        assert(content.take(0) =~= Seq::<char>::empty());
    }
    while k < end
        invariant
            start <= k <= end <= chars@.len(),
            content == chars@.subrange(start as int, end as int),
            forall|m: int| 0 <= m < k - start ==> is_hex_digit(#[trigger] content[m]),
            (acc <= 0x10FFFF && acc as int == hex_val_seq(content.take(k - start))) || (acc
                == 0x110000 && hex_val_seq(content.take(k - start)) > 0x10FFFF),
        decreases end - k,
    {
        let c = chars[k];
        proof {
            assert(content[k - start] == c);
        }
        if !is_hex_digit_exec(c) {
            proof {
                assert(!all_hex_digits(content));
            }
            return None;
        }
        let d = hex_digit_val_exec(c) as u32;
        let ghost pre = content.take(k - start);
        let ghost cur = content.take(k + 1 - start);
        proof {
            assert(cur.drop_last() =~= pre);
            assert(cur.last() == content[k - start]);
            assert(hex_val_seq(cur) == hex_val_seq(pre) * 16 + hex_digit_val(c));
        }
        if acc > 0x10FFFF {
        } else {
            let t = acc * 16 + d;
            if t > 0x10FFFF {
                acc = 0x110000;
            } else {
                acc = t;
            }
        }
        k = k + 1;
    }
    proof {
        assert(content.take(end - start) =~= content);
        assert(all_hex_digits(content));
    }
    Some(acc)
}

/// Performs one unescape step at position `i`, appending what it emits and
/// returning how many characters it consumed.
fn unescape_step_exec(chars: &Vec<char>, i: usize, out: &mut Vec<char>) -> (consumed: usize)
    requires
        i < chars@.len(),
    ensures
        ({
            let st = unescape_step(chars@.skip(i as int));
            &&& consumed == st.0
            &&& final(out)@ == old(out)@ + st.1
            &&& 1 <= consumed <= chars@.len() - i
        }),
{
    let ghost tail = chars@.skip(i as int);
    let n = chars.len();
    proof {
        assert(tail.len() == n - i);
        assert(forall|m: int| 0 <= m < tail.len() ==> tail[m] == chars@[i + m]);
    }
    if n - i >= 3 && chars[i] == '\\' && chars[i + 1] == 'u' && chars[i + 2] == '{' {
        let ghost rest = tail.skip(3);
        proof {
            assert(forall|m: int| 0 <= m < rest.len() ==> rest[m] == chars@[i + 3 + m]);
        }
        let mut j = i + 3;
        while j < n && chars[j] != '}'
            invariant
                i + 3 <= j <= n,
                n == chars@.len(),
                forall|m: int| i + 3 <= m < j ==> chars@[m] != '}',
            decreases n - j,
        {
            j = j + 1;
        }
        proof {
            assert forall|m: int| 0 <= m < j - i - 3 implies rest[m] != '}' by {
                assert(rest[m] == chars@[i + 3 + m]);
            }
            if j < n {
                assert(rest[j - i - 3] == chars@[j as int]);
            }
            lemma_find_close_unique(rest, j - i - 3);
        }
        if j == n {
            out.push(replacement_char());
            return n - i;
        }
        let ghost content = rest.take(j - i - 3);
        proof {
            assert(content =~= chars@.subrange(i + 3, j as int));
        }
        if j == i + 3 {
            out.push(replacement_char());
            return j + 1 - i;
        }
        match parse_braced_value(chars, i + 3, j) {
            None => {
                out.push(replacement_char());
                j + 1 - i
            },
            Some(v) => {
                if v > 0x10FFFF || (0xD800 <= v && v <= 0xDFFF) {
                    out.push(replacement_char());
                    j + 1 - i
                } else {
                    let c = match char_from_u32(v) {
                        Some(c) => c,
                        None => {
                            proof {
                                assert(false);
                            }
                            replacement_char()
                        },
                    };
                    proof {
                        vstd::utf8::char_u32_cast(c, v);
                    }
                    out.push(c);
                    j + 1 - i
                }
            },
        }
    } else if n - i >= 2 && chars[i] == '\\' && chars[i + 1] == 'u' {
        let ghost rest = tail.skip(2);
        proof {
            assert(forall|m: int| 0 <= m < rest.len() ==> rest[m] == chars@[i + 2 + m]);
        }
        if n - i >= 6 {
            proof {
                assert(rest.take(4) =~= chars@.subrange(i + 2, i + 6));
            }
            match parse_hex4(chars, i + 2) {
                None => {
                    out.push(replacement_char());
                    2
                },
                Some(unit) => {
                    if 0xD800 <= unit && unit <= 0xDBFF {
                        let ghost after = rest.skip(4);
                        proof {
                            assert(forall|m: int|
                                0 <= m < after.len() ==> after[m] == chars@[i + 6 + m]);
                        }
                        if n - i >= 12 && chars[i + 6] == '\\' && chars[i + 7] == 'u' {
                            proof {
                                assert(after.subrange(2, 6) =~= chars@.subrange(i + 8, i + 12));
                            }
                            match parse_hex4(chars, i + 8) {
                                None => {
                                    out.push(replacement_char());
                                    6
                                },
                                Some(unit2) => {
                                    if 0xDC00 <= unit2 && unit2 <= 0xDFFF {
                                        let cp = 0x10000 + (unit - 0xD800) * 0x400 + (unit2
                                            - 0xDC00);
                                        let c = match char_from_u32(cp) {
                                            Some(c) => c,
                                            None => {
                                                proof {
                                                    assert(false);
                                                }
                                                replacement_char()
                                            },
                                        };
                                        proof {
                                            vstd::utf8::char_u32_cast(c, cp);
                                        }
                                        out.push(c);
                                        12
                                    } else {
                                        out.push(replacement_char());
                                        out.push(replacement_char());
                                        proof {
                                            assert(out@ =~= old(out)@ + seq![
                                                replacement(),
                                                replacement(),
                                            ]);
                                        }
                                        12
                                    }
                                },
                            }
                        } else {
                            out.push(replacement_char());
                            6
                        }
                    } else if 0xDC00 <= unit && unit <= 0xDFFF {
                        out.push(replacement_char());
                        6
                    } else {
                        let c = match char_from_u32(unit) {
                            Some(c) => c,
                            None => {
                                proof {
                                    assert(false);
                                }
                                replacement_char()
                            },
                        };
                        proof {
                            vstd::utf8::char_u32_cast(c, unit);
                        }
                        out.push(c);
                        6
                    }
                },
            }
        } else {
            out.push(replacement_char());
            2
        }
    } else {
        out.push(chars[i]);
        proof {
            assert(tail[0] == chars@[i as int]);
        }
        1
    }
}

/// Decodes backslash escapes in a single left-to-right scan, per
/// [`unescape_text`]: recognized escape tokens become their characters,
/// malformed ones degrade to replacement characters, and everything else is
/// copied unchanged. Never fails.
pub fn unescape_unicode(input: &str) -> (r: String)
    ensures
        r@ == unescape_text(input@),
{
    let chars = chars_of(input);
    let n = chars.len();
    let mut out: Vec<char> = Vec::new();
    let mut i: usize = 0;
    proof {
        assert(chars@.skip(0) =~= chars@);
    }
    while i < n
        invariant
            n == chars@.len(),
            i <= n,
            unescape_text(chars@) == out@ + unescape_text(chars@.skip(i as int)),
        decreases n - i,
    {
        let ghost tail = chars@.skip(i as int);
        let ghost pre = out@;
        let consumed = unescape_step_exec(&chars, i, &mut out);
        proof {
            assert(unescape_text(tail) == unescape_step(tail).1 + unescape_text(
                tail.skip(unescape_step(tail).0),
            ));
            assert(tail.skip(consumed as int) =~= chars@.skip(i + consumed));
            assert(out@ + unescape_text(chars@.skip(i + consumed)) =~= pre + unescape_text(tail));
        }
        i = i + consumed;
    }
    proof {
        assert(chars@.skip(n as int) =~= Seq::<char>::empty());
        assert(out@ =~= out@ + unescape_text(chars@.skip(n as int)));
    }
    string_from_chars(&out)
}

proof fn lemma_step_on_default_token(c: char, rest: Seq<char>)
    ensures
        unescape_step(escape_default_char(c) + rest) == (
            escape_default_char(c).len() as int,
            seq![c],
        ),
{
    let cp = (c as u32) as int;
    let hx = hex_num(cp, false);
    lemma_hex_num_props(cp, false);
    vstd::utf8::char_is_scalar(c);
    let tok = escape_default_char(c);
    let t = tok + rest;
    assert(t[0] == '\\' && t[1] == 'u' && t[2] == '{');
    let rest_a = t.skip(3);
    assert(rest_a =~= hx + seq!['}'] + rest);
    assert forall|m: int| 0 <= m < hx.len() implies rest_a[m] != '}' by {
        assert(rest_a[m] == hx[m]);
        assert(is_hex_digit(hx[m]));
    }
    assert(rest_a[hx.len() as int] == '}');
    lemma_find_close_unique(rest_a, hx.len() as int);
    let content = rest_a.take(hx.len() as int);
    assert(content =~= hx);
    assert(hex_val_seq(content) == cp);
    assert(!(cp > 0x10FFFF || (0xD800 <= cp && cp <= 0xDFFF)));
    vstd::utf8::char_u32_cast(c, c as u32);
    assert(unescape_step(t).1 =~= seq![c]);
    assert(unescape_step(t).0 == 4 + hx.len());
    assert(tok.len() == 4 + hx.len());
}

/// Unescaping the brace-form escape of any text gives back that text.
pub proof fn lemma_unescape_escape_default(s: Seq<char>)
    ensures
        unescape_text(escape_default_text(s)) == s,
    decreases s.len(),
{
    if s.len() == 0 {
        assert(unescape_text(escape_default_text(s)) =~= s);
    } else {
        let tok = escape_default_char(s[0]);
        let rest = escape_default_text(s.skip(1));
        let t = escape_default_text(s);
        assert(t == tok + rest);
        lemma_step_on_default_token(s[0], rest);
        assert(t.len() > 0);
        assert(t.skip(tok.len() as int) =~= rest);
        lemma_unescape_escape_default(s.skip(1));
        assert(unescape_text(t) == seq![s[0]] + s.skip(1));
        assert(seq![s[0]] + s.skip(1) =~= s);
    }
}

proof fn lemma_step_on_json_bmp(c: char, rest: Seq<char>)
    requires
        c as u32 <= 0xFFFF,
    ensures
        unescape_step(escape_json_char(c) + rest) == (6int, seq![c]),
{
    let cp = (c as u32) as int;
    let hx = hex_num4(cp, false);
    lemma_hex_num4_props(cp, false);
    vstd::utf8::char_is_scalar(c);
    let tok = escape_json_char(c);
    let t = tok + rest;
    assert(t[0] == '\\' && t[1] == 'u');
    assert(t[2] == hx[0]);
    assert(is_hex_digit(hx[0]));
    assert(t[2] != '{');
    let rest_b = t.skip(2);
    assert(rest_b =~= hx + rest);
    assert(rest_b.take(4) =~= hx);
    let unit = hex_val_seq(rest_b.take(4));
    assert(unit == cp);
    assert(!(0xD800 <= unit && unit <= 0xDFFF));
    vstd::utf8::char_u32_cast(c, c as u32);
    assert(unescape_step(t).1 =~= seq![c]);
}

proof fn lemma_step_on_json_supp(c: char, rest: Seq<char>)
    requires
        c as u32 > 0xFFFF,
    ensures
        unescape_step(escape_json_char(c) + rest) == (12int, seq![c]),
{
    let cp = (c as u32) as int;
    vstd::utf8::char_is_scalar(c);
    assert(0x10000 <= cp <= 0x10FFFF);
    let hi = high_surrogate(cp);
    let lo = low_surrogate(cp);
    assert(0 <= (cp - 0x10000) / 0x400 <= 0x3FF) by {
        vstd::arithmetic::div_mod::lemma_div_nonincreasing(cp - 0x10000, 0x400);
        vstd::arithmetic::div_mod::lemma_div_pos_is_pos(cp - 0x10000, 0x400);
        assert((cp - 0x10000) / 0x400 <= 0x3FF) by (nonlinear_arith)
            requires
                0 <= cp - 0x10000 <= 0xFFFFF,
        ;
    }
    assert(0 <= (cp - 0x10000) % 0x400 <= 0x3FF) by {
        vstd::arithmetic::div_mod::lemma_mod_bound(cp - 0x10000, 0x400);
    }
    assert(0xD800 <= hi <= 0xDBFF);
    assert(0xDC00 <= lo <= 0xDFFF);
    let hxh = hex_num4(hi, false);
    let hxl = hex_num4(lo, false);
    lemma_hex_num4_props(hi, false);
    lemma_hex_num4_props(lo, false);
    let tok = escape_json_char(c);
    let t = tok + rest;
    assert(t[0] == '\\' && t[1] == 'u');
    assert(t[2] == hxh[0]);
    assert(is_hex_digit(hxh[0]));
    assert(t[2] != '{');
    let rest_b = t.skip(2);
    assert(rest_b =~= hxh + (seq!['\\', 'u'] + hxl) + rest);
    assert(rest_b.take(4) =~= hxh);
    let unit = hex_val_seq(rest_b.take(4));
    assert(unit == hi);
    assert(0xD800 <= unit && unit <= 0xDBFF);
    let after = rest_b.skip(4);
    assert(after =~= seq!['\\', 'u'] + hxl + rest);
    assert(after.len() >= 6);
    assert(after[0] == '\\' && after[1] == 'u');
    assert(after.subrange(2, 6) =~= hxl);
    let unit2 = hex_val_seq(after.subrange(2, 6));
    assert(unit2 == lo);
    assert(0xDC00 <= unit2 && unit2 <= 0xDFFF);
    assert(combine_surrogates(hi, lo) == cp) by {
        vstd::arithmetic::div_mod::lemma_fundamental_div_mod(cp - 0x10000, 0x400);
    }
    vstd::utf8::char_u32_cast(c, c as u32);
    assert(unescape_step(t).1 =~= seq![c]);
    assert(tok.len() == 12);
}

/// Unescaping the fixed-width UTF-16 escape of any text gives back that
/// text: a surrogate pair recombines into the codepoint it was split from.
pub proof fn lemma_unescape_escape_json(s: Seq<char>)
    ensures
        unescape_text(escape_json_text(s)) == s,
    decreases s.len(),
{
    if s.len() == 0 {
        assert(unescape_text(escape_json_text(s)) =~= s);
    } else {
        let tok = escape_json_char(s[0]);
        let rest = escape_json_text(s.skip(1));
        let t = escape_json_text(s);
        assert(t == tok + rest);
        if s[0] as u32 <= 0xFFFF {
            lemma_step_on_json_bmp(s[0], rest);
            assert(tok.len() == 6);
        } else {
            lemma_step_on_json_supp(s[0], rest);
            assert(tok.len() == 12);
        }
        assert(t.len() > 0);
        assert(t.skip(tok.len() as int) =~= rest);
        lemma_unescape_escape_json(s.skip(1));
        assert(unescape_text(t) == seq![s[0]] + s.skip(1));
        assert(seq![s[0]] + s.skip(1) =~= s);
    }
}

/// Unescaping the escape of any text, in either format, gives back exactly
/// that text.
pub proof fn lemma_escape_round_trip(text: Seq<char>, format: EscapeFormat)
    ensures
        unescape_text(escape_render(text, format)) == text,
{
    match format {
        EscapeFormat::Default => lemma_unescape_escape_default(text),
        EscapeFormat::Json => lemma_unescape_escape_json(text),
    }
}

} // verus!

//! Splitting text into units — grapheme clusters, codepoints, or bytes — and
//! counting, taking, or dropping them. Cluster boundaries come from an
//! external segmentation engine; everything from the boundaries onward is
//! verified: the clusters are nonempty and concatenate back to the input.

use vstd::prelude::*;
use vstd::string::StringSliceAdditionalSpecFns;
use vstd::utf8::{decode_utf8, encode_scalar, encode_utf8, is_char_boundary};

use crate::err::CodecError;
use crate::text::{chars_of, string_from_chars};

verus! {

/// How a text is split into units: grapheme clusters, codepoints, or bytes.
#[derive(Debug, Clone, Copy, PartialEq, Eq, Structural)]
pub enum ProcessingMode {
    Grapheme,
    Codepoint,
    Byte,
}

/// What the grapheme segmentation engine returns for a text: its cluster
/// boundaries, as byte offsets into the text's UTF-8 form.
pub uninterp spec fn grapheme_breaks_of(s: Seq<char>) -> Seq<usize>;

/// The text's grapheme clusters: the characters between each pair of
/// successive cluster boundaries.
pub open spec fn graphemes_of(s: Seq<char>) -> Seq<Seq<char>> {
    let bs = encode_utf8(s);
    let br = grapheme_breaks_of(s);
    Seq::new((br.len() - 1) as nat, |k: int| decode_utf8(bs.subrange(br[k] as int, br[k + 1] as int)))
}

/// The concatenation of a sequence of texts.
pub open spec fn concat_texts(ss: Seq<Seq<char>>) -> Seq<char>
    decreases ss.len(),
{
    if ss.len() == 0 {
        Seq::empty()
    } else {
        ss[0] + concat_texts(ss.skip(1))
    }
}

/// Relies on icu_segmenter's `GraphemeClusterSegmenter::segment_str`: the
/// breakpoints depend on the text alone (UAX #29, compiled data). Its
/// documentation states that the first breakpoint is always 0 and the last is
/// the byte length of the text (only 0 for the empty text), with successive
/// breakpoints delimiting the clusters; the iterator walks the text's
/// `char_indices`, so every breakpoint falls on a character boundary.
#[verifier::external_body]
fn segment_breaks(s: &str) -> (r: Vec<usize>)
    ensures
        r@ == grapheme_breaks_of(s@),
        r@.len() >= 1,
        r@[0] == 0,
        r@[r@.len() - 1] == s.spec_bytes().len(),
        forall|m: int| 0 <= m < r@.len() - 1 ==> #[trigger] r@[m] < r@[m + 1],
        forall|m: int|
            0 <= m < r@.len() ==> is_char_boundary(s.spec_bytes(), #[trigger] r@[m] as int),
{
    icu_segmenter::GraphemeClusterSegmenter::new().segment_str(s).collect()
}

/// The byte width of one character's UTF-8 encoding.
fn char_byte_len(c: char) -> (w: usize)
    ensures
        w == encode_scalar(c as u32).len(),
        1 <= w <= 4,
{
    let cp = c as u32;
    if cp < 0x80 {
        1
    } else if cp < 0x800 {
        2
    } else if cp < 0x10000 {
        3
    } else {
        4
    }
}

proof fn lemma_encode_push(s: Seq<char>, c: char)
    ensures
        encode_utf8(s.push(c)) == encode_utf8(s) + encode_scalar(c as u32),
    decreases s.len(),
{
    if s.len() == 0 {
        assert(encode_utf8(Seq::<char>::empty()) =~= Seq::<u8>::empty());
        assert(s =~= Seq::<char>::empty());
        assert(s.push(c).drop_first() =~= Seq::<char>::empty());
        assert(s.push(c)[0] == c);
        assert(encode_utf8(s.push(c)) == encode_scalar(c as u32) + encode_utf8(
            Seq::<char>::empty(),
        ));
        assert(encode_utf8(s.push(c)) =~= encode_utf8(s) + encode_scalar(c as u32));
    } else {
        assert(s.push(c).drop_first() =~= s.drop_first().push(c));
        assert(s.push(c)[0] == s[0]);
        lemma_encode_push(s.drop_first(), c);
        assert(encode_utf8(s.push(c)) =~= encode_utf8(s) + encode_scalar(c as u32));
    }
}

proof fn lemma_encode_concat(a: Seq<char>, b: Seq<char>)
    ensures
        encode_utf8(a + b) == encode_utf8(a) + encode_utf8(b),
    decreases a.len(),
{
    if a.len() == 0 {
        assert(a + b =~= b);
        assert(encode_utf8(a) + encode_utf8(b) =~= encode_utf8(b));
    } else {
        assert((a + b).drop_first() =~= a.drop_first() + b);
        assert((a + b)[0] == a[0]);
        lemma_encode_concat(a.drop_first(), b);
        assert(encode_utf8(a + b) =~= encode_utf8(a) + encode_utf8(b));
    }
}

/// The byte offset of character position `k` within the text's UTF-8 form.
pub open spec fn byte_offset(s: Seq<char>, k: int) -> int {
    encode_utf8(s.take(k)).len() as int
}

proof fn lemma_offset_step(s: Seq<char>, k: int)
    requires
        0 <= k < s.len(),
    ensures
        byte_offset(s, k + 1) == byte_offset(s, k) + encode_scalar(s[k] as u32).len(),
        encode_scalar(s[k] as u32).len() >= 1,
{
    assert(s.take(k + 1) =~= s.take(k).push(s[k]));
    lemma_encode_push(s.take(k), s[k]);
}

proof fn lemma_offset_mono(s: Seq<char>, k1: int, k2: int)
    requires
        0 <= k1 <= k2 <= s.len(),
    ensures
        byte_offset(s, k1) <= byte_offset(s, k2),
        k1 < k2 ==> byte_offset(s, k1) < byte_offset(s, k2),
    decreases k2 - k1,
{
    if k1 < k2 {
        lemma_offset_mono(s, k1, k2 - 1);
        lemma_offset_step(s, k2 - 1);
    }
}

proof fn lemma_boundary_is_offset(s: Seq<char>, t: int)
    requires
        is_char_boundary(encode_utf8(s), t),
    ensures
        exists|k: int| 0 <= k <= s.len() && #[trigger] byte_offset(s, k) == t,
    decreases s.len(),
{
    broadcast use vstd::utf8::encode_utf8_valid_utf8;

    let bs = encode_utf8(s);
    if t == 0 {
        assert(s.take(0) =~= Seq::<char>::empty());
        assert(byte_offset(s, 0) == 0);
    } else {
        assert(s.len() > 0);
        vstd::utf8::encode_utf8_first_scalar(s);
        let w0 = encode_scalar(s[0] as u32).len() as int;
        assert(vstd::utf8::pop_first_scalar(bs) =~= encode_utf8(s.drop_first()));
        assert(is_char_boundary(encode_utf8(s.drop_first()), t - w0));
        lemma_boundary_is_offset(s.drop_first(), t - w0);
        let k = choose|k: int|
            0 <= k <= s.drop_first().len() && byte_offset(s.drop_first(), k) == t - w0;
        assert(s.take(k + 1) =~= seq![s[0]] + s.drop_first().take(k));
        lemma_encode_concat(seq![s[0]], s.drop_first().take(k));
        assert(encode_utf8(seq![s[0]]) =~= encode_scalar(s[0] as u32)) by {
            assert(encode_utf8(Seq::<char>::empty()) =~= Seq::<u8>::empty());
            assert(seq![s[0]].drop_first() =~= Seq::<char>::empty());
            assert(encode_utf8(seq![s[0]]) == encode_scalar(s[0] as u32) + encode_utf8(
                Seq::<char>::empty(),
            ));
        }
        assert(byte_offset(s, k + 1) == t);
    }
}

proof fn lemma_boundary_step(s: Seq<char>, j: int, t: int)
    requires
        0 <= j < s.len(),
        is_char_boundary(encode_utf8(s), t),
        byte_offset(s, j) < t,
    ensures
        byte_offset(s, j + 1) <= t,
{
    lemma_boundary_is_offset(s, t);
    let k = choose|k: int| 0 <= k <= s.len() && #[trigger] byte_offset(s, k) == t;
    if k <= j {
        lemma_offset_mono(s, k, j);
        assert(false);
    }
    lemma_offset_mono(s, j + 1, k);
}

pub(crate) proof fn lemma_concat_texts_push(ss: Seq<Seq<char>>, x: Seq<char>)
    ensures
        concat_texts(ss.push(x)) == concat_texts(ss) + x,
    decreases ss.len(),
{
    if ss.len() == 0 {
        assert(concat_texts(Seq::<Seq<char>>::empty()) =~= Seq::<char>::empty());
        assert(ss =~= Seq::<Seq<char>>::empty());
        assert(ss.push(x).skip(1) =~= Seq::<Seq<char>>::empty());
        assert(ss.push(x)[0] == x);
        assert(concat_texts(ss.push(x)) == x + concat_texts(Seq::<Seq<char>>::empty()));
        assert(concat_texts(ss.push(x)) =~= concat_texts(ss) + x);
    } else {
        assert(ss.push(x).skip(1) =~= ss.skip(1).push(x));
        assert(ss.push(x)[0] == ss[0]);
        lemma_concat_texts_push(ss.skip(1), x);
        assert(concat_texts(ss.push(x)) =~= concat_texts(ss) + x);
    }
}

/// Splits the input into its grapheme clusters, in order. The clusters are
/// those the segmentation engine's boundaries delimit; each is nonempty, and
/// together they concatenate back to exactly the input. Never fails; empty
/// input yields no clusters.
pub fn iter_grapheme_icu4x(input: &str) -> (r: Result<Vec<String>, CodecError>)
    ensures
        r is Ok,
        r->Ok_0.deep_view() == graphemes_of(input@),
        concat_texts(r->Ok_0.deep_view()) == input@,
        forall|m: int| 0 <= m < r->Ok_0@.len() ==> #[trigger] r->Ok_0@[m]@.len() >= 1,
{
    let breaks = segment_breaks(input);
    let chars = chars_of(input);
    let total_chars = chars.len();
    let ghost s = input@;
    let ghost bs = encode_utf8(s);
    let nb = breaks.len();
    let mut segs: Vec<String> = Vec::new();
    let mut k: usize = 1;
    let mut j: usize = 0;
    let mut off: usize = 0;
    proof {
        assert(s.take(0) =~= Seq::<char>::empty());
        assert(byte_offset(s, 0) == 0);
        assert(chars@.subrange(0, 0) =~= Seq::<char>::empty());
        assert(segs.deep_view() =~= Seq::<Seq<char>>::empty());
    }
    while k < nb
        invariant
            breaks@ == grapheme_breaks_of(s),
            chars@ == s,
            bs == encode_utf8(s),
            total_chars == s.len(),
            nb == breaks@.len(),
            nb >= 1,
            breaks@[0] == 0,
            breaks@[nb - 1] == bs.len(),
            forall|m: int| 0 <= m < nb - 1 ==> #[trigger] breaks@[m] < breaks@[m + 1],
            forall|m: int| 0 <= m < nb ==> is_char_boundary(bs, #[trigger] breaks@[m] as int),
            1 <= k <= nb,
            j <= total_chars,
            off == byte_offset(s, j as int),
            off == breaks@[k - 1],
            segs@.len() == k - 1,
            forall|m: int| 0 <= m < k - 1 ==> #[trigger] segs.deep_view()[m] == graphemes_of(s)[m],
            forall|m: int| 0 <= m < k - 1 ==> #[trigger] segs@[m]@.len() >= 1,
            concat_texts(segs.deep_view()) == s.take(j as int),
        decreases nb - k,
    {
        let target = breaks[k];
        let ghost j0 = j;
        let ghost off0 = off;
        let mut seg: Vec<char> = Vec::new();
        proof {
            assert(off <= target) by {
                assert(breaks@[k - 1] < breaks@[k as int]);
            }
            assert(chars@.subrange(j0 as int, j as int) =~= Seq::<char>::empty());
            assert(target <= bs.len()) by {
                if k < nb - 1 {
                    lemma_breaks_mono(breaks@, k as int, nb - 1);
                }
            }
        }
        while off < target
            invariant
                chars@ == s,
                bs == encode_utf8(s),
                total_chars == s.len(),
                j0 <= j <= total_chars,
                off == byte_offset(s, j as int),
                off <= target,
                target <= bs.len(),
                is_char_boundary(bs, target as int),
                seg@ == chars@.subrange(j0 as int, j as int),
            decreases target - off,
        {
            proof {
                if j == total_chars {
                    assert(s.take(j as int) =~= s);
                    assert(off == bs.len());
                    assert(false);
                }
                lemma_boundary_step(s, j as int, target as int);
                lemma_offset_step(s, j as int);
            }
            let c = chars[j];
            let w = char_byte_len(c);
            seg.push(c);
            off = off + w;
            j = j + 1;
            proof {
                assert(chars@.subrange(j0 as int, j as int) =~= chars@.subrange(
                    j0 as int,
                    j - 1,
                ).push(s[j - 1]));
            }
        }
        let ghost prev = segs.deep_view();
        segs.push(string_from_chars(&seg));
        proof {
            assert(segs.deep_view() =~= prev.push(seg@));
            assert(seg@ == s.subrange(j0 as int, j as int));
            lemma_segment_decodes(s, j0 as int, j as int, off0 as int, off as int);
            assert(graphemes_of(s)[k - 1] == decode_utf8(
                bs.subrange(breaks@[k - 1] as int, breaks@[k as int] as int),
            ));
            assert(segs.deep_view()[k - 1] == seg@);
            assert(off0 < off);
            if j0 == j {
                assert(off0 == off);
                assert(false);
            }
            assert(seg@.len() >= 1);
            lemma_concat_texts_push(prev, seg@);
            assert(s.take(j0 as int) + s.subrange(j0 as int, j as int) =~= s.take(j as int));
            assert(concat_texts(segs.deep_view()) == s.take(j as int));
        }
        k = k + 1;
    }
    proof {
        assert(off == bs.len());
        if j < total_chars {
            lemma_offset_mono(s, j as int, s.len() as int);
            assert(s.take(s.len() as int) =~= s);
            assert(false);
        }
        assert(s.take(j as int) =~= s);
        assert(segs.deep_view() =~= graphemes_of(s));
    }
    Ok(segs)
}

proof fn lemma_breaks_mono(br: Seq<usize>, a: int, b: int)
    requires
        forall|m: int| 0 <= m < br.len() - 1 ==> #[trigger] br[m] < br[m + 1],
        0 <= a <= b < br.len(),
    ensures
        br[a] <= br[b],
    decreases b - a,
{
    if a < b {
        lemma_breaks_mono(br, a, b - 1);
    }
}

/// The character standing for one byte read in isolation: the codepoint with
/// that byte's value.
pub open spec fn byte_char(b: u8) -> char {
    (b as u32) as char
}

/// The units a text splits into under a mode: its grapheme clusters, its
/// characters one by one, or one character per byte of its UTF-8 form.
pub open spec fn units_of(s: Seq<char>, mode: ProcessingMode) -> Seq<Seq<char>> {
    match mode {
        ProcessingMode::Grapheme => graphemes_of(s),
        ProcessingMode::Codepoint => s.map(|j: int, c: char| seq![c]),
        ProcessingMode::Byte => encode_utf8(s).map(|j: int, b: u8| seq![byte_char(b)]),
    }
}

/// The first `n` elements, or all of them when fewer.
pub open spec fn take_clamped(ss: Seq<Seq<char>>, n: int) -> Seq<Seq<char>> {
    if n < ss.len() {
        ss.take(n)
    } else {
        ss
    }
}

/// Everything after the first `n` elements: empty when there are fewer.
pub open spec fn skip_clamped(ss: Seq<Seq<char>>, n: int) -> Seq<Seq<char>> {
    if n < ss.len() {
        ss.skip(n)
    } else {
        Seq::empty()
    }
}

/// Splits the input into its codepoints, each as its own one-character text.
/// Never fails; empty input yields an empty list.
pub fn iter_codepoint(input: &str) -> (r: Vec<String>)
    ensures
        r@.len() == input@.len(),
        forall|j: int| 0 <= j < r@.len() ==> #[trigger] r@[j]@ == seq![input@[j]],
{
    let chars = chars_of(input);
    let n = chars.len();
    let mut r: Vec<String> = Vec::new();
    let mut i: usize = 0;
    while i < n
        invariant
            n == chars@.len(),
            chars@ == input@,
            i <= n,
            r@.len() == i,
            forall|j: int| 0 <= j < i ==> #[trigger] r@[j]@ == seq![input@[j]],
        decreases n - i,
    {
        let mut one: Vec<char> = Vec::new();
        one.push(chars[i]);
        proof {
            assert(one@ =~= seq![input@[i as int]]);
        }
        r.push(string_from_chars(&one));
        i = i + 1;
    }
    r
}

/// Splits the input into its UTF-8 bytes, each read in isolation as the
/// character with that byte's value. Never fails; empty input yields an
/// empty list.
pub fn iter_byte(input: &str) -> (r: Vec<String>)
    ensures
        r@.len() == encode_utf8(input@).len(),
        forall|j: int| 0 <= j < r@.len() ==> #[trigger] r@[j]@ == seq![
            byte_char(encode_utf8(input@)[j]),
        ],
{
    let bytes = input.as_bytes_vec();
    let n = bytes.len();
    let mut r: Vec<String> = Vec::new();
    let mut i: usize = 0;
    while i < n
        invariant
            n == bytes@.len(),
            bytes@ == encode_utf8(input@),
            i <= n,
            r@.len() == i,
            forall|j: int| 0 <= j < i ==> #[trigger] r@[j]@ == seq![
                byte_char(encode_utf8(input@)[j]),
            ],
        decreases n - i,
    {
        let b = bytes[i];
        let c = match crate::text::char_from_u32(b as u32) {
            Some(c) => c,
            None => {
                proof {
                    assert(false);
                }
                ' '
            },
        };
        proof {
            vstd::utf8::char_u32_cast(c, b as u32);
            assert(c == byte_char(b));
        }
        let mut one: Vec<char> = Vec::new();
        one.push(c);
        proof {
            assert(one@ =~= seq![byte_char(encode_utf8(input@)[i as int])]);
        }
        r.push(string_from_chars(&one));
        i = i + 1;
    }
    r
}

/// The full unit list of the input under a mode.
fn units_list(input: &str, mode: ProcessingMode) -> (r: Result<Vec<String>, CodecError>)
    ensures
        r is Ok,
        r->Ok_0.deep_view() == units_of(input@, mode),
{
    match mode {
        ProcessingMode::Grapheme => iter_grapheme_icu4x(input),
        ProcessingMode::Codepoint => {
            let r = iter_codepoint(input);
            proof {
                assert(r.deep_view() =~= units_of(input@, mode));
            }
            Ok(r)
        },
        ProcessingMode::Byte => {
            let r = iter_byte(input);
            proof {
                assert(r.deep_view() =~= units_of(input@, mode));
            }
            Ok(r)
        },
    }
}

/// Counts the input's units under a mode: its grapheme clusters, its
/// codepoints, or its bytes. Never fails; empty input counts zero.
pub fn count_units(input: &str, mode: ProcessingMode) -> (r: Result<usize, CodecError>)
    ensures
        r is Ok,
        r->Ok_0 == units_of(input@, mode).len(),
{
    let units = match units_list(input, mode) {
        Ok(units) => units,
        Err(e) => {
            return Err(e);
        },
    };
    Ok(units.len())
}

/// The first `n` units of the input under a mode, or all of them when the
/// input has fewer. Never fails.
pub fn take_units(input: &str, mode: ProcessingMode, n: usize) -> (r: Result<
    Vec<String>,
    CodecError,
>)
    ensures
        r is Ok,
        r->Ok_0.deep_view() == take_clamped(units_of(input@, mode), n as int),
{
    let units = match units_list(input, mode) {
        Ok(units) => units,
        Err(e) => {
            return Err(e);
        },
    };
    let total = units.len();
    let m = if n < total {
        n
    } else {
        total
    };
    let mut out: Vec<String> = Vec::new();
    let mut i: usize = 0;
    while i < m
        invariant
            m <= total,
            total == units@.len(),
            i <= m,
            out@.len() == i,
            forall|j: int| 0 <= j < i ==> #[trigger] out@[j] == units@[j],
        decreases m - i,
    {
        out.push(units[i].clone());
        i = i + 1;
    }
    proof {
        assert(out.deep_view() =~= take_clamped(units.deep_view(), n as int));
    }
    Ok(out)
}

/// The input's units under a mode with the first `n` removed: empty when the
/// input has no more than `n`. Never fails.
pub fn drop_units(input: &str, mode: ProcessingMode, n: usize) -> (r: Result<
    Vec<String>,
    CodecError,
>)
    ensures
        r is Ok,
        r->Ok_0.deep_view() == skip_clamped(units_of(input@, mode), n as int),
{
    let units = match units_list(input, mode) {
        Ok(units) => units,
        Err(e) => {
            return Err(e);
        },
    };
    let total = units.len();
    let m = if n < total {
        n
    } else {
        total
    };
    let mut out: Vec<String> = Vec::new();
    let mut i: usize = m;
    while i < total
        invariant
            m <= i <= total,
            total == units@.len(),
            out@.len() == i - m,
            forall|j: int| 0 <= j < i - m ==> #[trigger] out@[j] == units@[m + j],
        decreases total - i,
    {
        out.push(units[i].clone());
        i = i + 1;
    }
    proof {
        assert(out.deep_view() =~= skip_clamped(units.deep_view(), n as int));
    }
    Ok(out)
}

proof fn lemma_segment_decodes(s: Seq<char>, j0: int, j1: int, off0: int, off1: int)
    requires
        0 <= j0 <= j1 <= s.len(),
        off0 == byte_offset(s, j0),
        off1 == byte_offset(s, j1),
    ensures
        encode_utf8(s).subrange(off0, off1) == encode_utf8(s.subrange(j0, j1)),
        decode_utf8(encode_utf8(s).subrange(off0, off1)) == s.subrange(j0, j1),
{
    broadcast use vstd::utf8::encode_utf8_decode_utf8;

    let mid = s.subrange(j0, j1);
    assert(s.take(j1) =~= s.take(j0) + mid);
    lemma_encode_concat(s.take(j0), mid);
    assert(s =~= s.take(j1) + s.skip(j1));
    lemma_encode_concat(s.take(j1), s.skip(j1));
    assert(encode_utf8(s).subrange(off0, off1) =~= encode_utf8(mid));
}

} // verus!

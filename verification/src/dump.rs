//! Per-cluster codepoint reports: for each grapheme cluster of a text, the
//! characters it holds with their codepoint labels and Unicode names,
//! rendered as plain text, as JSON, or as JSON lines.

use vstd::prelude::*;

use crate::err::CodecError;
use crate::hexcodec::{hex_num, hex_num4, push_hex_num, push_hex_num4};
use crate::text::chars_of;
use crate::text::string_from_chars;
use crate::units::{concat_texts, graphemes_of, iter_grapheme_icu4x};

verus! {

/// One codepoint of a cluster: its position within the cluster, a printable
/// rendering of the character, its `U+` label, and its Unicode name.
#[derive(Debug, Clone)]
pub struct CodepointInfo {
    pub index: usize,
    pub char: String,
    pub codepoint: String,
    pub name: String,
}

/// One grapheme cluster of a text: its position, its text, and its
/// codepoints.
#[derive(Debug, Clone)]
pub struct ClusterInfo {
    pub cluster_index: usize,
    pub display: String,
    pub codepoints: Vec<CodepointInfo>,
}

/// The three renderings of a cluster report: human-readable text, one JSON
/// document, or one JSON object per line.
#[derive(Debug, Clone, Copy, PartialEq, Eq, Structural)]
pub enum DumpFormat {
    Text,
    Json,
    Jsonl,
}

/// What the character-name dictionary returns for a character, or `None`
/// when it has no name there.
pub uninterp spec fn unicode_name_of(c: char) -> Option<Seq<char>>;

/// Relies on unicode_names2::name: the character's Unicode name, a static
/// table lookup determined by the character alone; `None` for a character
/// the table does not name.
#[verifier::external_body]
fn lookup_name(c: char) -> (r: Option<String>)
    ensures
        r is Some <==> unicode_name_of(c) is Some,
        r is Some ==> r->0@ == unicode_name_of(c)->0,
{
    unicode_names2::name(c).map(|n| n.to_string())
}

/// The displayed name of a character: its Unicode name, or a fixed marker
/// when the dictionary has none.
pub open spec fn display_name(c: char) -> Seq<char> {
    match unicode_name_of(c) {
        Some(n) => n,
        None => "UNKNOWN CHARACTER"@,
    }
}

/// The Unicode name of a character, or `UNKNOWN CHARACTER` when it has none.
pub fn get_unicode_name(ch: char) -> (r: String)
    ensures
        r@ == display_name(ch),
{
    match lookup_name(ch) {
        Some(n) => n,
        None => "UNKNOWN CHARACTER".to_owned(),
    }
}

/// The decimal digit for a value below 10.
pub open spec fn dec_digit_char(v: int) -> char
    recommends
        0 <= v < 10,
{
    if v == 0 { '0' }
    else if v == 1 { '1' }
    else if v == 2 { '2' }
    else if v == 3 { '3' }
    else if v == 4 { '4' }
    else if v == 5 { '5' }
    else if v == 6 { '6' }
    else if v == 7 { '7' }
    else if v == 8 { '8' }
    else { '9' }
}

/// The decimal digits of a nonnegative number, most significant first.
pub open spec fn dec_num(v: int) -> Seq<char>
    recommends
        v >= 0,
    decreases v,
{
    if v < 10 {
        seq![dec_digit_char(v)]
    } else {
        dec_num(v / 10).push(dec_digit_char(v % 10))
    }
}

fn dec_digit_char_exec(v: u8) -> (c: char)
    requires
        v < 10,
    ensures
        c == dec_digit_char(v as int),
{
    if v == 0 { '0' }
    else if v == 1 { '1' }
    else if v == 2 { '2' }
    else if v == 3 { '3' }
    else if v == 4 { '4' }
    else if v == 5 { '5' }
    else if v == 6 { '6' }
    else if v == 7 { '7' }
    else if v == 8 { '8' }
    else { '9' }
}

/// Appends the decimal digits of `v`, most significant first.
fn push_dec_num(out: &mut Vec<char>, v: usize)
    ensures
        final(out)@ == old(out)@ + dec_num(v as int),
    decreases v,
{
    if v < 10 {
        out.push(dec_digit_char_exec(v as u8));
        proof {
            assert(out@ =~= old(out)@ + dec_num(v as int));
        }
    } else {
        push_dec_num(out, v / 10);
        out.push(dec_digit_char_exec((v % 10) as u8));
        proof {
            assert(out@ =~= old(out)@ + dec_num(v as int));
        }
    }
}

/// Appends the characters of a string slice.
fn append_str(out: &mut Vec<char>, s: &str)
    ensures
        final(out)@ == old(out)@ + s@,
{
    let cs = chars_of(s);
    let n = cs.len();
    let mut i: usize = 0;
    while i < n
        invariant
            n == cs@.len(),
            cs@ == s@,
            i <= n,
            out@ == old(out)@ + s@.take(i as int),
        decreases n - i,
    {
        out.push(cs[i]);
        i = i + 1;
        proof {
            assert(old(out)@ + s@.take(i as int) =~= (old(out)@ + s@.take(i - 1)).push(
                s@[i - 1],
            ));
        }
    }
    proof {
        assert(old(out)@ + s@.take(n as int) =~= old(out)@ + s@);
    }
}

/// True for the characters the report does not print verbatim: the control
/// codes (U+0000 to U+001F and U+007F to U+009F) and the zero-width joiner.
pub open spec fn is_control_like(c: char) -> bool {
    (c as u32) <= 0x1F || (0x7F <= (c as u32) && (c as u32) <= 0x9F) || c == '\u{200D}'
}

/// The printable rendering of one character: itself, or a lowercase
/// four-digit `\u` escape for a control code or the zero-width joiner.
pub open spec fn char_repr(c: char) -> Seq<char> {
    if is_control_like(c) {
        seq!['\\', 'u'] + hex_num4((c as u32) as int, true)
    } else {
        seq![c]
    }
}

/// The `U+` label of a character: uppercase hex, at least four digits.
pub open spec fn codepoint_label(c: char) -> Seq<char> {
    if (c as u32) < 0x10000 {
        seq!['U', '+'] + hex_num4((c as u32) as int, false)
    } else {
        seq!['U', '+'] + hex_num((c as u32) as int, false)
    }
}

/// Appends [`char_repr`] of a character.
fn push_char_repr(out: &mut Vec<char>, c: char)
    ensures
        final(out)@ == old(out)@ + char_repr(c),
{
    let cp = c as u32;
    if cp <= 0x1F || (0x7F <= cp && cp <= 0x9F) || c == '\u{200D}' {
        out.push('\\');
        out.push('u');
        proof {
            if c == '\u{200D}' {
                assert(cp == 0x200D);
            }
        }
        push_hex_num4(out, cp, true);
        proof {
            assert(out@ =~= old(out)@ + char_repr(c));
        }
    } else {
        out.push(c);
        proof {
            assert(out@ =~= old(out)@ + char_repr(c));
        }
    }
}

/// Appends [`codepoint_label`] of a character.
fn push_codepoint_label(out: &mut Vec<char>, c: char)
    ensures
        final(out)@ == old(out)@ + codepoint_label(c),
{
    out.push('U');
    out.push('+');
    let cp = c as u32;
    if cp < 0x10000 {
        push_hex_num4(out, cp, false);
    } else {
        push_hex_num(out, cp, false);
    }
    proof {
        assert(out@ =~= old(out)@ + codepoint_label(c));
    }
}

/// The report's model of one codepoint entry.
pub open spec fn cp_info_wf(info: CodepointInfo, j: int, c: char) -> bool {
    &&& info.index == j
    &&& info.char@ == char_repr(c)
    &&& info.codepoint@ == codepoint_label(c)
    &&& info.name@ == display_name(c)
}

/// The report's model of one cluster entry.
pub open spec fn cluster_wf(cl: ClusterInfo, k: int, g: Seq<char>) -> bool {
    &&& cl.cluster_index == k
    &&& cl.display@ == g
    &&& cl.codepoints@.len() == g.len()
    &&& forall|j: int| 0 <= j < g.len() ==> cp_info_wf(#[trigger] cl.codepoints@[j], j, g[j])
}

/// The report's model of the whole cluster list.
pub open spec fn clusters_wf(cs: Seq<ClusterInfo>, gs: Seq<Seq<char>>) -> bool {
    &&& cs.len() == gs.len()
    &&& forall|k: int| 0 <= k < gs.len() ==> cluster_wf(#[trigger] cs[k], k, gs[k])
}

/// Builds the cluster entries for a list of grapheme cluster texts.
fn build_clusters(segments: &Vec<String>) -> (r: Vec<ClusterInfo>)
    ensures
        clusters_wf(r@, segments.deep_view()),
{
    let n = segments.len();
    let mut r: Vec<ClusterInfo> = Vec::new();
    let mut k: usize = 0;
    while k < n
        invariant
            n == segments@.len(),
            k <= n,
            r@.len() == k,
            forall|m: int| 0 <= m < k ==> cluster_wf(#[trigger] r@[m], m, segments.deep_view()[m]),
        decreases n - k,
    {
        let seg = &segments[k];
        let cs = chars_of(seg.as_str());
        let m = cs.len();
        let mut cps: Vec<CodepointInfo> = Vec::new();
        let mut j: usize = 0;
        while j < m
            invariant
                m == cs@.len(),
                cs@ == segments@[k as int]@,
                k < n == segments@.len(),
                j <= m,
                cps@.len() == j,
                forall|p: int| 0 <= p < j ==> cp_info_wf(#[trigger] cps@[p], p, cs@[p]),
            decreases m - j,
        {
            let c = cs[j];
            let mut repr: Vec<char> = Vec::new();
            push_char_repr(&mut repr, c);
            let mut label: Vec<char> = Vec::new();
            push_codepoint_label(&mut label, c);
            let info = CodepointInfo {
                index: j,
                char: string_from_chars(&repr),
                codepoint: string_from_chars(&label),
                name: get_unicode_name(c),
            };
            proof {
                assert(repr@ =~= char_repr(c));
                assert(label@ =~= codepoint_label(c));
            }
            cps.push(info);
            j = j + 1;
        }
        let cl = ClusterInfo { cluster_index: k, display: seg.clone(), codepoints: cps };
        proof {
            assert(cluster_wf(cl, k as int, segments.deep_view()[k as int]));
        }
        r.push(cl);
        k = k + 1;
    }
    r
}

/// One line of the text report: the codepoint's position, rendering, label,
/// and name.
pub open spec fn cp_line_text(j: int, c: char) -> Seq<char> {
    "  ["@ + dec_num(j) + "] "@ + char_repr(c) + "    "@ + codepoint_label(c) + "  "@
        + display_name(c) + "\n"@
}

/// One cluster's chunk of the text report: a header line, then one line per
/// codepoint.
pub open spec fn cluster_text(k: int, g: Seq<char>) -> Seq<char> {
    "\nCluster "@ + dec_num(k) + ": "@ + g + " ("@ + dec_num(g.len() as int) + " codepoint"@ + (
    if g.len() == 1 {
        Seq::<char>::empty()
    } else {
        "s"@
    }) + ")\n"@ + concat_texts(Seq::new(g.len(), |j: int| cp_line_text(j, g[j])))
}

/// The text report for a list of cluster texts: every cluster's chunk, and a
/// final blank line when there are clusters at all.
pub open spec fn text_render(gs: Seq<Seq<char>>) -> Seq<char> {
    concat_texts(Seq::new(gs.len(), |k: int| cluster_text(k, gs[k]))) + (if gs.len() > 0 {
        "\n"@
    } else {
        Seq::<char>::empty()
    })
}

/// Renders the text report of a cluster list.
#[verifier::rlimit(60)]
fn format_text_output(clusters: &Vec<ClusterInfo>, Ghost(gs): Ghost<Seq<Seq<char>>>) -> (r: Vec<
    char,
>)
    requires
        clusters_wf(clusters@, gs),
    ensures
        r@ == text_render(gs),
{
    let n = clusters.len();
    let ghost chunks = Seq::new(gs.len(), |k: int| cluster_text(k, gs[k]));
    let mut out: Vec<char> = Vec::new();
    let mut k: usize = 0;
    proof {
        assert(chunks.take(0) =~= Seq::<Seq<char>>::empty());
        assert(concat_texts(Seq::<Seq<char>>::empty()) =~= Seq::<char>::empty());
        assert(out@ =~= concat_texts(chunks.take(0)));
    }
    while k < n
        invariant
            clusters_wf(clusters@, gs),
            n == clusters@.len(),
            k <= n,
            chunks == Seq::new(gs.len(), |m: int| cluster_text(m, gs[m])),
            out@ == concat_texts(chunks.take(k as int)),
        decreases n - k,
    {
        let cl = &clusters[k];
        let ghost g = gs[k as int];
        let ghost pre = out@;
        append_str(&mut out, "\nCluster ");
        push_dec_num(&mut out, cl.cluster_index);
        append_str(&mut out, ": ");
        append_str(&mut out, cl.display.as_str());
        append_str(&mut out, " (");
        push_dec_num(&mut out, cl.codepoints.len());
        append_str(&mut out, " codepoint");
        if cl.codepoints.len() != 1 {
            append_str(&mut out, "s");
        }
        append_str(&mut out, ")\n");
        let ghost lines = Seq::new(g.len(), |j: int| cp_line_text(j, g[j]));
        let ghost head = out@;
        proof {
            assert(head =~= pre + "\nCluster "@ + dec_num(k as int) + ": "@ + g + " ("@ + dec_num(
                g.len() as int,
            ) + " codepoint"@ + (if g.len() == 1 {
                Seq::<char>::empty()
            } else {
                "s"@
            }) + ")\n"@);
            assert(lines.take(0) =~= Seq::<Seq<char>>::empty());
            assert(concat_texts(Seq::<Seq<char>>::empty()) =~= Seq::<char>::empty());
            assert(out@ =~= head + concat_texts(lines.take(0)));
        }
        let m = cl.codepoints.len();
        let mut j: usize = 0;
        while j < m
            invariant
                cluster_wf(clusters@[k as int], k as int, g),
                cl == clusters@[k as int],
                n == clusters@.len(),
                k < n,
                m == g.len(),
                m == cl.codepoints@.len(),
                j <= m,
                lines == Seq::new(g.len(), |p: int| cp_line_text(p, g[p])),
                out@ == head + concat_texts(lines.take(j as int)),
            decreases m - j,
        {
            let info = &cl.codepoints[j];
            let ghost pre2 = out@;
            append_str(&mut out, "  [");
            push_dec_num(&mut out, info.index);
            append_str(&mut out, "] ");
            append_str(&mut out, info.char.as_str());
            append_str(&mut out, "    ");
            append_str(&mut out, info.codepoint.as_str());
            append_str(&mut out, "  ");
            append_str(&mut out, info.name.as_str());
            append_str(&mut out, "\n");
            proof {
                assert(cp_info_wf(cl.codepoints@[j as int], j as int, g[j as int]));
                assert(out@ =~= pre2 + cp_line_text(j as int, g[j as int]));
                assert(lines.take(j + 1) =~= lines.take(j as int).push(lines[j as int]));
                crate::units::lemma_concat_texts_push(lines.take(j as int), lines[j as int]);
                assert(out@ =~= head + concat_texts(lines.take(j + 1)));
            }
            j = j + 1;
        }
        proof {
            assert(lines.take(m as int) =~= lines);
            assert(out@ =~= pre + cluster_text(k as int, g));
            assert(chunks.take(k + 1) =~= chunks.take(k as int).push(chunks[k as int]));
            crate::units::lemma_concat_texts_push(chunks.take(k as int), chunks[k as int]);
            assert(out@ =~= concat_texts(chunks.take(k + 1)));
        }
        k = k + 1;
    }
    proof {
        assert(chunks.take(n as int) =~= chunks);
    }
    if n > 0 {
        append_str(&mut out, "\n");
    }
    proof {
        assert(out@ =~= text_render(gs));
    }
    out
}

/// A text with every character the JSON grammar reserves replaced by its
/// escape: quote and backslash by two-character escapes, the named control
/// codes by their short escapes, other control codes by `\u00` escapes.
pub open spec fn json_escaped(s: Seq<char>) -> Seq<char>
    decreases s.len(),
{
    if s.len() == 0 {
        Seq::empty()
    } else {
        json_escaped(s.drop_last()) + json_escape_char(s.last())
    }
}

/// The JSON escape of one character.
pub open spec fn json_escape_char(c: char) -> Seq<char> {
    if c == '"' {
        seq!['\\', '"']
    } else if c == '\\' {
        seq!['\\', '\\']
    } else if c == '\u{8}' {
        seq!['\\', 'b']
    } else if c == '\t' {
        seq!['\\', 't']
    } else if c == '\n' {
        seq!['\\', 'n']
    } else if c == '\u{c}' {
        seq!['\\', 'f']
    } else if c == '\r' {
        seq!['\\', 'r']
    } else if (c as u32) < 0x20 {
        seq!['\\', 'u'] + hex_num4((c as u32) as int, true)
    } else {
        seq![c]
    }
}

/// A JSON string literal: the escaped text between quotes.
pub open spec fn json_string(s: Seq<char>) -> Seq<char> {
    seq!['"'] + json_escaped(s) + seq!['"']
}

/// Appends the JSON string literal for a string slice.
fn push_json_string(out: &mut Vec<char>, s: &str)
    ensures
        final(out)@ == old(out)@ + json_string(s@),
{
    out.push('"');
    let cs = chars_of(s);
    let n = cs.len();
    let mut i: usize = 0;
    proof {
        assert(s@.take(0) =~= Seq::<char>::empty());
        assert(out@ =~= old(out)@ + seq!['"'] + json_escaped(s@.take(0)));
    }
    while i < n
        invariant
            n == cs@.len(),
            cs@ == s@,
            i <= n,
            out@ == old(out)@ + seq!['"'] + json_escaped(s@.take(i as int)),
        decreases n - i,
    {
        let c = cs[i];
        let ghost pre = out@;
        let cp = c as u32;
        if c == '"' {
            out.push('\\');
            out.push('"');
        } else if c == '\\' {
            out.push('\\');
            out.push('\\');
        } else if c == '\u{8}' {
            out.push('\\');
            out.push('b');
        } else if c == '\t' {
            out.push('\\');
            out.push('t');
        } else if c == '\n' {
            out.push('\\');
            out.push('n');
        } else if c == '\u{c}' {
            out.push('\\');
            out.push('f');
        } else if c == '\r' {
            out.push('\\');
            out.push('r');
        } else if cp < 0x20 {
            out.push('\\');
            out.push('u');
            push_hex_num4(out, cp, true);
        } else {
            out.push(c);
        }
        i = i + 1;
        proof {
            assert(out@ =~= pre + json_escape_char(c));
            assert(s@.take(i as int).drop_last() =~= s@.take(i - 1));
            assert(s@.take(i as int).last() == c);
            assert(out@ =~= old(out)@ + seq!['"'] + json_escaped(s@.take(i as int)));
        }
    }
    out.push('"');
    proof {
        assert(s@.take(n as int) =~= s@);
        assert(out@ =~= old(out)@ + json_string(s@));
    }
}

/// Texts joined by a separator.
pub open spec fn join_with(ss: Seq<Seq<char>>, sep: Seq<char>) -> Seq<char>
    decreases ss.len(),
{
    if ss.len() == 0 {
        Seq::empty()
    } else if ss.len() == 1 {
        ss[0]
    } else {
        join_with(ss.drop_last(), sep) + sep + ss.last()
    }
}

/// One codepoint entry of the compact JSON report.
pub open spec fn cp_entry_json(j: int, c: char) -> Seq<char> {
    "{\"index\":"@ + dec_num(j) + ",\"char\":"@ + json_string(char_repr(c)) + ",\"codepoint\":"@
        + json_string(codepoint_label(c)) + ",\"name\":"@ + json_string(display_name(c)) + "}"@
}

/// One cluster object of the compact JSON report.
pub open spec fn cluster_json(k: int, g: Seq<char>) -> Seq<char> {
    "{\"cluster_index\":"@ + dec_num(k) + ",\"display\":"@ + json_string(g) + ",\"codepoints\":["@
        + join_with(Seq::new(g.len(), |j: int| cp_entry_json(j, g[j])), ","@) + "]}"@
}

/// The JSON-lines report: each cluster's compact object on its own line.
pub open spec fn jsonl_render(gs: Seq<Seq<char>>) -> Seq<char> {
    concat_texts(Seq::new(gs.len(), |k: int| cluster_json(k, gs[k]) + "\n"@))
}

/// Appends one compact codepoint entry.
fn push_cp_entry_json(
    out: &mut Vec<char>,
    info: &CodepointInfo,
    Ghost(j): Ghost<int>,
    Ghost(c): Ghost<char>,
)
    requires
        cp_info_wf(*info, j, c),
    ensures
        final(out)@ == old(out)@ + cp_entry_json(j, c),
{
    append_str(out, "{\"index\":");
    push_dec_num(out, info.index);
    append_str(out, ",\"char\":");
    push_json_string(out, info.char.as_str());
    append_str(out, ",\"codepoint\":");
    push_json_string(out, info.codepoint.as_str());
    append_str(out, ",\"name\":");
    push_json_string(out, info.name.as_str());
    append_str(out, "}");
    proof {
        assert(out@ =~= old(out)@ + cp_entry_json(j, c));
    }
}

/// Appends one compact cluster object.
fn push_cluster_json(
    out: &mut Vec<char>,
    cl: &ClusterInfo,
    Ghost(k): Ghost<int>,
    Ghost(g): Ghost<Seq<char>>,
)
    requires
        cluster_wf(*cl, k, g),
    ensures
        final(out)@ == old(out)@ + cluster_json(k, g),
{
    append_str(out, "{\"cluster_index\":");
    push_dec_num(out, cl.cluster_index);
    append_str(out, ",\"display\":");
    push_json_string(out, cl.display.as_str());
    append_str(out, ",\"codepoints\":[");
    let ghost entries = Seq::new(g.len(), |j: int| cp_entry_json(j, g[j]));
    let ghost head = out@;
    let m = cl.codepoints.len();
    let mut j: usize = 0;
    proof {
        assert(entries.take(0) =~= Seq::<Seq<char>>::empty());
        assert(out@ =~= head + join_with(entries.take(0), ","@));
    }
    while j < m
        invariant
            cluster_wf(*cl, k, g),
            m == g.len(),
            m == cl.codepoints@.len(),
            j <= m,
            entries == Seq::new(g.len(), |p: int| cp_entry_json(p, g[p])),
            out@ == head + join_with(entries.take(j as int), ","@),
        decreases m - j,
    {
        if j > 0 {
            append_str(out, ",");
        }
        let info = &cl.codepoints[j];
        proof {
            assert(cp_info_wf(cl.codepoints@[j as int], j as int, g[j as int]));
        }
        push_cp_entry_json(out, info, Ghost(j as int), Ghost(g[j as int]));
        j = j + 1;
        proof {
            let cur = entries.take(j as int);
            assert(cur.drop_last() =~= entries.take(j - 1));
            assert(cur.last() == entries[j - 1]);
            if j == 1 {
                assert(join_with(cur, ","@) == entries[0]);
            }
            assert(out@ =~= head + join_with(entries.take(j as int), ","@));
        }
    }
    proof {
        assert(entries.take(m as int) =~= entries);
    }
    append_str(out, "]}");
    proof {
        assert(out@ =~= old(out)@ + cluster_json(k, g));
    }
}

/// Renders the JSON-lines report of a cluster list.
fn format_jsonl_output(clusters: &Vec<ClusterInfo>, Ghost(gs): Ghost<Seq<Seq<char>>>) -> (r: Vec<
    char,
>)
    requires
        clusters_wf(clusters@, gs),
    ensures
        r@ == jsonl_render(gs),
{
    let n = clusters.len();
    let ghost chunks = Seq::new(gs.len(), |k: int| cluster_json(k, gs[k]) + "\n"@);
    let mut out: Vec<char> = Vec::new();
    let mut k: usize = 0;
    proof {
        assert(chunks.take(0) =~= Seq::<Seq<char>>::empty());
        assert(concat_texts(Seq::<Seq<char>>::empty()) =~= Seq::<char>::empty());
        assert(out@ =~= concat_texts(chunks.take(0)));
    }
    while k < n
        invariant
            clusters_wf(clusters@, gs),
            n == clusters@.len(),
            k <= n,
            chunks == Seq::new(gs.len(), |m: int| cluster_json(m, gs[m]) + "\n"@),
            out@ == concat_texts(chunks.take(k as int)),
        decreases n - k,
    {
        let ghost pre = out@;
        push_cluster_json(&mut out, &clusters[k], Ghost(k as int), Ghost(gs[k as int]));
        append_str(&mut out, "\n");
        proof {
            assert(out@ =~= pre + chunks[k as int]);
            assert(chunks.take(k + 1) =~= chunks.take(k as int).push(chunks[k as int]));
            crate::units::lemma_concat_texts_push(chunks.take(k as int), chunks[k as int]);
            assert(out@ =~= concat_texts(chunks.take(k + 1)));
        }
        k = k + 1;
    }
    proof {
        assert(chunks.take(n as int) =~= chunks);
    }
    out
}

/// One codepoint entry of the pretty JSON report.
pub open spec fn cp_entry_pretty(j: int, c: char) -> Seq<char> {
    "{\n        \"index\": "@ + dec_num(j) + ",\n        \"char\": "@ + json_string(char_repr(c))
        + ",\n        \"codepoint\": "@ + json_string(codepoint_label(c))
        + ",\n        \"name\": "@ + json_string(display_name(c)) + "\n      }"@
}

/// One cluster object of the pretty JSON report.
pub open spec fn cluster_pretty(k: int, g: Seq<char>) -> Seq<char> {
    "{\n    \"cluster_index\": "@ + dec_num(k) + ",\n    \"display\": "@ + json_string(g)
        + ",\n    \"codepoints\": "@ + (if g.len() == 0 {
        "[]"@
    } else {
        "[\n      "@ + join_with(Seq::new(g.len(), |j: int| cp_entry_pretty(j, g[j])), ",\n      "@)
            + "\n    ]"@
    }) + "\n  }"@
}

/// The pretty JSON report: the cluster objects in one indented array.
pub open spec fn json_render(gs: Seq<Seq<char>>) -> Seq<char> {
    if gs.len() == 0 {
        "[]"@
    } else {
        "[\n  "@ + join_with(Seq::new(gs.len(), |k: int| cluster_pretty(k, gs[k])), ",\n  "@)
            + "\n]"@
    }
}

/// Appends one pretty codepoint entry.
fn push_cp_entry_pretty(
    out: &mut Vec<char>,
    info: &CodepointInfo,
    Ghost(j): Ghost<int>,
    Ghost(c): Ghost<char>,
)
    requires
        cp_info_wf(*info, j, c),
    ensures
        final(out)@ == old(out)@ + cp_entry_pretty(j, c),
{
    append_str(out, "{\n        \"index\": ");
    push_dec_num(out, info.index);
    append_str(out, ",\n        \"char\": ");
    push_json_string(out, info.char.as_str());
    append_str(out, ",\n        \"codepoint\": ");
    push_json_string(out, info.codepoint.as_str());
    append_str(out, ",\n        \"name\": ");
    push_json_string(out, info.name.as_str());
    append_str(out, "\n      }");
    proof {
        assert(out@ =~= old(out)@ + cp_entry_pretty(j, c));
    }
}

/// Appends one pretty cluster object.
fn push_cluster_pretty(
    out: &mut Vec<char>,
    cl: &ClusterInfo,
    Ghost(k): Ghost<int>,
    Ghost(g): Ghost<Seq<char>>,
)
    requires
        cluster_wf(*cl, k, g),
    ensures
        final(out)@ == old(out)@ + cluster_pretty(k, g),
{
    append_str(out, "{\n    \"cluster_index\": ");
    push_dec_num(out, cl.cluster_index);
    append_str(out, ",\n    \"display\": ");
    push_json_string(out, cl.display.as_str());
    append_str(out, ",\n    \"codepoints\": ");
    let m = cl.codepoints.len();
    if m == 0 {
        append_str(out, "[]");
    } else {
        append_str(out, "[\n      ");
        let ghost entries = Seq::new(g.len(), |j: int| cp_entry_pretty(j, g[j]));
        let ghost head = out@;
        let mut j: usize = 0;
        proof {
            assert(entries.take(0) =~= Seq::<Seq<char>>::empty());
            assert(out@ =~= head + join_with(entries.take(0), ",\n      "@));
        }
        while j < m
            invariant
                cluster_wf(*cl, k, g),
                m == g.len(),
                m == cl.codepoints@.len(),
                j <= m,
                entries == Seq::new(g.len(), |p: int| cp_entry_pretty(p, g[p])),
                out@ == head + join_with(entries.take(j as int), ",\n      "@),
            decreases m - j,
        {
            if j > 0 {
                append_str(out, ",\n      ");
            }
            let info = &cl.codepoints[j];
            proof {
                assert(cp_info_wf(cl.codepoints@[j as int], j as int, g[j as int]));
            }
            push_cp_entry_pretty(out, info, Ghost(j as int), Ghost(g[j as int]));
            j = j + 1;
            proof {
                let cur = entries.take(j as int);
                assert(cur.drop_last() =~= entries.take(j - 1));
                assert(cur.last() == entries[j - 1]);
                if j == 1 {
                    assert(join_with(cur, ",\n      "@) == entries[0]);
                }
                assert(out@ =~= head + join_with(entries.take(j as int), ",\n      "@));
            }
        }
        proof {
            assert(entries.take(m as int) =~= entries);
        }
        append_str(out, "\n    ]");
    }
    append_str(out, "\n  }");
    proof {
        assert(out@ =~= old(out)@ + cluster_pretty(k, g));
    }
}

/// Renders the pretty JSON report of a cluster list.
#[verifier::rlimit(60)]
fn format_json_output(clusters: &Vec<ClusterInfo>, Ghost(gs): Ghost<Seq<Seq<char>>>) -> (r: Vec<
    char,
>)
    requires
        clusters_wf(clusters@, gs),
    ensures
        r@ == json_render(gs),
{
    let n = clusters.len();
    let mut out: Vec<char> = Vec::new();
    if n == 0 {
        append_str(&mut out, "[]");
        return out;
    }
    append_str(&mut out, "[\n  ");
    let ghost parts = Seq::new(gs.len(), |k: int| cluster_pretty(k, gs[k]));
    let ghost head = out@;
    let mut k: usize = 0;
    proof {
        assert(parts.take(0) =~= Seq::<Seq<char>>::empty());
        assert(out@ =~= head + join_with(parts.take(0), ",\n  "@));
    }
    while k < n
        invariant
            clusters_wf(clusters@, gs),
            n == clusters@.len(),
            k <= n,
            parts == Seq::new(gs.len(), |m: int| cluster_pretty(m, gs[m])),
            out@ == head + join_with(parts.take(k as int), ",\n  "@),
        decreases n - k,
    {
        if k > 0 {
            append_str(&mut out, ",\n  ");
        }
        push_cluster_pretty(&mut out, &clusters[k], Ghost(k as int), Ghost(gs[k as int]));
        k = k + 1;
        proof {
            let cur = parts.take(k as int);
            assert(cur.drop_last() =~= parts.take(k - 1));
            assert(cur.last() == parts[k - 1]);
            if k == 1 {
                assert(join_with(cur, ",\n  "@) == parts[0]);
            }
            assert(out@ =~= head + join_with(parts.take(k as int), ",\n  "@));
        }
    }
    proof {
        assert(parts.take(n as int) =~= parts);
    }
    append_str(&mut out, "\n]");
    proof {
        assert(out@ =~= json_render(gs));
    }
    out
}

/// The cluster report of a text under the chosen rendering.
pub open spec fn dump_render(gs: Seq<Seq<char>>, format: DumpFormat) -> Seq<char> {
    match format {
        DumpFormat::Text => text_render(gs),
        DumpFormat::Json => json_render(gs),
        DumpFormat::Jsonl => jsonl_render(gs),
    }
}

/// Reports every grapheme cluster of the input with its codepoints: each
/// character's printable rendering, `U+` label, and Unicode name, rendered as
/// plain text, one JSON document, or one JSON object per line. Never fails;
/// empty input yields the format's empty report.
pub fn dump_graphemes(input: &str, format: DumpFormat) -> (r: Result<String, CodecError>)
    ensures
        r is Ok,
        r->Ok_0@ == dump_render(graphemes_of(input@), format),
{
    let segments = match iter_grapheme_icu4x(input) {
        Ok(segments) => segments,
        Err(e) => {
            return Err(e);
        },
    };
    let clusters = build_clusters(&segments);
    let ghost gs = graphemes_of(input@);
    let out = match format {
        DumpFormat::Text => format_text_output(&clusters, Ghost(gs)),
        DumpFormat::Json => format_json_output(&clusters, Ghost(gs)),
        DumpFormat::Jsonl => format_jsonl_output(&clusters, Ghost(gs)),
    };
    Ok(string_from_chars(&out))
}

} // verus!

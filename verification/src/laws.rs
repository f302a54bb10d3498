//! The laws of the library: rendered text parses back to the value it was
//! rendered from. The final statement is [`lemma_parse_render_roundtrip`];
//! the lemmas before it establish the same for each piece of the grammar.

use vstd::prelude::*;

use crate::ast::{Range, SpFile, SpHunk, SpLine, SpMeta, SpPatch};
use crate::grammar::{
    bare_stop, esc_code, marker_text, qchar_bad, sp_bare_len, sp_chunk, sp_chunk_header,
    sp_chunk_line, sp_chunks, sp_chunks_more, sp_classify, sp_content_line, sp_digit_run,
    sp_filename, sp_find_dashes, sp_header_line_content, sp_headers, sp_line_ending, sp_line_len,
    sp_lines_more, sp_marker, sp_metadata_token, sp_not_line_ending, sp_parse_all,
    sp_parse_one, sp_patch, sp_patches_more,
    sp_qchars, sp_quoted, sp_range, sp_tag, sp_take_until_dashes, sp_u64, sp_blank_lines,
    lemma_patch_lt, ts_format_plain, ts_format_subsec, PRes,
};
use crate::render::{
    quote_trigger, sp_escape, sp_escape_char, sp_needs_quote, sp_pad, sp_quote, sp_render_file,
    sp_render_frac, sp_render_hunk, sp_render_hunks, sp_render_line, sp_render_lines,
    sp_render_all, sp_render_meta, sp_render_off, sp_render_patch, sp_render_range,
    sp_render_ts, sp_render_year, sp_render_ymd_hms,
};
use crate::text::{dec_str, is_digit_char, lemma_dec_str_digits, lemma_dec_val_dec_str};
use crate::timestamp::chrono_ts_of;

verus! {

/// A digit run stops exactly at the end of the digits.
proof fn lemma_digit_run_concat(s: Seq<char>, rest: Seq<char>)
    requires
        forall|i: int| 0 <= i < s.len() ==> is_digit_char(#[trigger] s[i]),
        rest.len() == 0 || !is_digit_char(rest[0]),
    ensures
        sp_digit_run(s + rest) == s.len(),
    decreases s.len(),
{
    if s.len() == 0 {
        assert(s + rest =~= rest);
        assert(sp_digit_run(rest) == 0);
    } else {
        assert((s + rest).skip(1) =~= s.skip(1) + rest);
        lemma_digit_run_concat(s.skip(1), rest);
    }
}

/// A rendered number parses back to itself.
proof fn lemma_u64_round(n: u64, rest: Seq<char>)
    requires
        rest.len() == 0 || !is_digit_char(rest[0]),
    ensures
        sp_u64(dec_str(n as nat) + rest) == PRes::<u64>::Parsed(n, rest),
{
    lemma_dec_str_digits(n as nat);
    lemma_dec_val_dec_str(n as nat);
    lemma_digit_run_concat(dec_str(n as nat), rest);
    let su = dec_str(n as nat) + rest;
    assert(su.take(dec_str(n as nat).len() as int) =~= dec_str(n as nat));
    assert(su.skip(dec_str(n as nat).len() as int) =~= rest);
}

/// A rendered range parses back to itself.
proof fn lemma_range_round(r: Range, rest: Seq<char>)
    requires
        rest.len() >= 1,
        !is_digit_char(rest[0]),
        rest[0] != ',',
    ensures
        sp_range(sp_render_range(r) + rest) == PRes::<Range>::Parsed(r, rest),
{
    let mid = seq![','] + dec_str(r.count as nat) + rest;
    assert(sp_render_range(r) + rest =~= dec_str(r.start as nat) + mid);
    assert(!is_digit_char(mid[0]));
    lemma_u64_round(r.start, mid);
    assert(mid.skip(1) =~= dec_str(r.count as nat) + rest);
    lemma_u64_round(r.count, rest);
}

/// A fixed token at the start of the input is consumed exactly.
proof fn lemma_tag_round(t: Seq<char>, rest: Seq<char>)
    ensures
        sp_tag(t + rest, t) == PRes::<()>::Parsed((), rest),
{
    let su = t + rest;
    assert(t =~= su.subrange(0, t.len() as int));
    assert(t.is_prefix_of(su));
    assert(su.skip(t.len() as int) =~= rest);
}

/// Text free of carriage returns and line feeds.
pub open spec fn no_cr_lf(t: Seq<char>) -> bool {
    forall|i: int| 0 <= i < t.len() ==> t[i] != '\n' && t[i] != '\r'
}

/// The current line ends exactly where the rendered text's newline stands.
proof fn lemma_line_len_concat(t: Seq<char>, rest: Seq<char>)
    requires
        no_cr_lf(t),
        rest.len() >= 1,
        rest[0] == '\n' || rest[0] == '\r',
    ensures
        sp_line_len(t + rest) == t.len(),
    decreases t.len(),
{
    if t.len() == 0 {
        assert(t + rest =~= rest);
    } else {
        assert((t + rest).skip(1) =~= t.skip(1) + rest);
        lemma_line_len_concat(t.skip(1), rest);
    }
}

/// The rest of the line parses back to the rendered text.
proof fn lemma_nle_round(t: Seq<char>, rest: Seq<char>)
    requires
        no_cr_lf(t),
        rest.len() >= 1,
        rest[0] == '\n',
    ensures
        sp_not_line_ending(t + rest) == PRes::<Seq<char>>::Parsed(t, rest),
{
    lemma_line_len_concat(t, rest);
    let su = t + rest;
    assert(su[t.len() as int] == '\n');
    assert(su.take(t.len() as int) =~= t);
    assert(su.skip(t.len() as int) =~= rest);
}

/// A rendered content line parses back to its text.
proof fn lemma_content_round(t: Seq<char>, rest: Seq<char>)
    requires
        no_cr_lf(t),
    ensures
        sp_content_line(t + (seq!['\n'] + rest)) == PRes::<Seq<char>>::Parsed(t, rest),
{
    lemma_nle_round(t, seq!['\n'] + rest);
    assert((seq!['\n'] + rest).skip(1) =~= rest);
}

/// Decoding inverts escaping: the decoded run of a rendered quoted body
/// stops exactly at the closing double quote.
proof fn lemma_qchars_round(s: Seq<char>, rest: Seq<char>)
    requires
        rest.len() >= 1,
        rest[0] == '"',
    ensures
        sp_qchars(sp_escape(s) + rest) == (s, rest),
    decreases s.len(),
{
    if s.len() == 0 {
        assert(sp_escape(s) + rest =~= rest);
        assert(qchar_bad(rest[0]));
        assert(sp_qchars(rest) == (Seq::<char>::empty(), rest));
    } else {
        let c = s[0];
        let su = sp_escape(s) + rest;
        lemma_qchars_round(s.skip(1), rest);
        if qchar_bad(c) {
            assert(sp_escape_char(c).len() == 2);
            assert(su[0] == '\\');
            assert(su[1] == sp_escape_char(c)[1]);
            assert(esc_code(sp_escape_char(c)[1]) == Some(c));
            assert(su.skip(2) =~= sp_escape(s.skip(1)) + rest);
            assert(sp_qchars(su).0 =~= seq![c] + s.skip(1));
            assert(seq![c] + s.skip(1) =~= s);
        } else {
            assert(sp_escape_char(c) =~= seq![c]);
            assert(su[0] == c);
            assert(su.skip(1) =~= sp_escape(s.skip(1)) + rest);
            assert(sp_qchars(su).0 =~= seq![c] + s.skip(1));
            assert(seq![c] + s.skip(1) =~= s);
        }
    }
}

/// A rendered quoted string parses back to the text it encodes.
proof fn lemma_quoted_round(s: Seq<char>, rest: Seq<char>)
    requires
        s.len() >= 1,
    ensures
        sp_quoted(seq!['"'] + sp_escape(s) + seq!['"'] + rest) == Some((s, rest)),
{
    let su = seq!['"'] + sp_escape(s) + seq!['"'] + rest;
    assert(su[0] == '"');
    assert(su.skip(1) =~= sp_escape(s) + (seq!['"'] + rest));
    lemma_qchars_round(s, seq!['"'] + rest);
    assert((seq!['"'] + rest)[0] == '"');
    assert((seq!['"'] + rest).skip(1) =~= rest);
}

/// A bare token stops exactly at the delimiter that follows it.
proof fn lemma_bare_len_concat(s: Seq<char>, rest: Seq<char>)
    requires
        forall|i: int| 0 <= i < s.len() ==> !bare_stop(#[trigger] s[i]),
        rest.len() >= 1,
        bare_stop(rest[0]),
    ensures
        sp_bare_len(s + rest) == s.len(),
    decreases s.len(),
{
    if s.len() == 0 {
        assert(s + rest =~= rest);
    } else {
        assert((s + rest).skip(1) =~= s.skip(1) + rest);
        lemma_bare_len_concat(s.skip(1), rest);
    }
}

/// Quoting round-trip: a file name written by the serializer — quoted and
/// escaped exactly when it holds a character that demands it — is read back
/// by the file name lexer as the very same name, whatever follows the
/// token.
pub proof fn lemma_filename_quoting_roundtrip(path: Seq<char>, rest: Seq<char>)
    requires
        path.len() >= 1,
        rest.len() >= 1,
        bare_stop(rest[0]),
    ensures
        sp_filename(sp_quote(path) + rest) == PRes::<Seq<char>>::Parsed(path, rest),
{
    if sp_needs_quote(path) {
        assert(sp_quote(path) + rest =~= seq!['"'] + sp_escape(path) + seq!['"'] + rest);
        lemma_quoted_round(path, rest);
    } else {
        let su = sp_quote(path) + rest;
        assert(forall|i: int| 0 <= i < path.len() ==> !quote_trigger(#[trigger] path[i]));
        assert(su[0] == path[0]);
        assert(!quote_trigger(path[0]));
        assert(su[0] != '"');
        assert(sp_quoted(su) is None);
        assert(forall|i: int| 0 <= i < path.len() ==> !bare_stop(#[trigger] path[i]));
        lemma_bare_len_concat(path, rest);
        assert(su.take(path.len() as int) =~= path);
        assert(su.skip(path.len() as int) =~= rest);
    }
}


/// What parsing guarantees of metadata: verbatim metadata is non-empty and
/// is text that neither timestamp format recognizes.
pub open spec fn wf_meta(m: SpMeta) -> bool {
    match m {
        SpMeta::DateTime(_) => true,
        SpMeta::Other(o) => o.len() >= 1 && chrono_ts_of(o, ts_format_subsec()) is None
            && chrono_ts_of(o, ts_format_plain()) is None,
    }
}

/// What parsing guarantees of one header side: a non-empty path and
/// well-formed metadata.
pub open spec fn wf_file(f: SpFile) -> bool {
    f.path.len() >= 1 && match f.meta {
        Some(m) => wf_meta(m),
        None => true,
    }
}

/// The metadata is not a recognized timestamp.
pub open spec fn no_datetime_meta(m: Option<SpMeta>) -> bool {
    match m {
        Some(SpMeta::DateTime(_)) => false,
        _ => true,
    }
}

/// Neither header of the patch carries timestamp metadata.
pub open spec fn no_datetime(p: SpPatch) -> bool {
    no_datetime_meta(p.old.meta) && no_datetime_meta(p.new.meta)
}

/// How metadata reads back after rendering: a timestamp is rendered in its
/// canonical form and that text is classified anew; verbatim metadata is
/// unchanged.
pub open spec fn sp_reclassify_meta(m: SpMeta) -> SpMeta {
    match m {
        SpMeta::DateTime(ts) => sp_classify(sp_render_ts(ts)),
        SpMeta::Other(o) => SpMeta::Other(o),
    }
}

/// How one header side reads back after rendering.
pub open spec fn sp_reclassify_file(f: SpFile) -> SpFile {
    SpFile {
        path: f.path,
        meta: match f.meta {
            Some(m) => Some(sp_reclassify_meta(m)),
            None => None,
        },
    }
}

/// How a whole patch reads back after rendering: everything is unchanged
/// but for timestamp metadata, which is classified anew from its canonical
/// rendering.
pub open spec fn sp_reclassify(p: SpPatch) -> SpPatch {
    SpPatch {
        old: sp_reclassify_file(p.old),
        new: sp_reclassify_file(p.new),
        hunks: p.hunks,
        end_newline: p.end_newline,
    }
}

/// No padded number holds anything but digit characters.
proof fn lemma_pad_digits(n: nat, w: nat)
    ensures
        sp_pad(n, w).len() >= 1,
        forall|i: int| 0 <= i < sp_pad(n, w).len() ==> is_digit_char(#[trigger] sp_pad(n, w)[i]),
{
    lemma_dec_str_digits(n);
}

/// Joining two texts free of line endings gives a text free of line
/// endings.
proof fn lemma_no_crlf_concat(a: Seq<char>, b: Seq<char>)
    requires
        no_cr_lf(a),
        no_cr_lf(b),
    ensures
        no_cr_lf(a + b),
{
    assert forall|i: int| 0 <= i < (a + b).len() implies (a + b)[i] != '\n' && (a + b)[i]
        != '\r' by {
        if i < a.len() {
            assert((a + b)[i] == a[i]);
        } else {
            assert((a + b)[i] == b[i - a.len()]);
        }
    }
}

/// A padded number holds no line endings.
proof fn lemma_pad_no_crlf(n: nat, w: nat)
    ensures
        no_cr_lf(sp_pad(n, w)),
{
    lemma_pad_digits(n, w);
}

/// A rendered timestamp holds no line ending, and opens with neither a
/// double quote nor a tab.
proof fn lemma_render_ts_safe(ts: crate::ast::Timestamp)
    ensures
        no_cr_lf(sp_render_ts(ts)),
        sp_render_ts(ts).len() >= 1,
        sp_render_ts(ts)[0] != '"',
        sp_render_ts(ts)[0] != '\t',
{
    let y = ts.year as int;
    lemma_pad_digits((ts.month) as nat, 2);
    lemma_pad_digits((ts.day) as nat, 2);
    lemma_pad_digits((ts.hour) as nat, 2);
    lemma_pad_digits((ts.minute) as nat, 2);
    lemma_pad_digits((ts.second + ts.nanosecond / 1000000000) as nat, 2);
    assert(no_cr_lf(sp_render_year(y))) by {
        if 0 <= y <= 9999 {
            lemma_pad_no_crlf(y as nat, 4);
        } else if y > 9999 {
            lemma_dec_str_digits(y as nat);
            lemma_no_crlf_concat(seq!['+'], dec_str(y as nat));
        } else {
            lemma_pad_no_crlf((-y) as nat, 4);
            lemma_no_crlf_concat(seq!['-'], sp_pad((-y) as nat, 4));
        }
    }
    assert(sp_render_year(y).len() >= 1);
    assert(sp_render_year(y)[0] != '"' && sp_render_year(y)[0] != '\t') by {
        if 0 <= y <= 9999 {
            lemma_pad_digits(y as nat, 4);
        } else if y > 9999 {
        } else {
        }
    }
    let nano = (ts.nanosecond as int) % 1000000000;
    assert(no_cr_lf(sp_render_frac(ts.nanosecond as int))) by {
        if nano == 0 {
        } else if nano % 1000000 == 0 {
            lemma_pad_no_crlf((nano / 1000000) as nat, 3);
            lemma_no_crlf_concat(seq!['.'], sp_pad((nano / 1000000) as nat, 3));
        } else if nano % 1000 == 0 {
            lemma_pad_no_crlf((nano / 1000) as nat, 6);
            lemma_no_crlf_concat(seq!['.'], sp_pad((nano / 1000) as nat, 6));
        } else {
            lemma_pad_no_crlf(nano as nat, 9);
            lemma_no_crlf_concat(seq!['.'], sp_pad(nano as nat, 9));
        }
    }
    let off = ts.offset_seconds as int;
    assert(no_cr_lf(sp_render_off(off))) by {
        let a = if off < 0 {
            -off
        } else {
            off
        };
        let minutes = (a + 30) / 60;
        let sign: char = if off < 0 {
            '-'
        } else {
            '+'
        };
        lemma_pad_no_crlf((minutes / 60) as nat, 2);
        lemma_pad_no_crlf((minutes % 60) as nat, 2);
        lemma_no_crlf_concat(seq![sign], sp_pad((minutes / 60) as nat, 2));
        lemma_no_crlf_concat(
            seq![sign] + sp_pad((minutes / 60) as nat, 2),
            sp_pad((minutes % 60) as nat, 2),
        );
    }
    assert(no_cr_lf(sp_render_ymd_hms(ts))) by {
        lemma_no_crlf_concat(sp_render_year(y), seq!['-']);
        lemma_no_crlf_concat(sp_render_year(y) + seq!['-'], sp_pad(ts.month as nat, 2));
        let a1 = sp_render_year(y) + seq!['-'] + sp_pad(ts.month as nat, 2);
        lemma_no_crlf_concat(a1, seq!['-']);
        lemma_no_crlf_concat(a1 + seq!['-'], sp_pad(ts.day as nat, 2));
        let a2 = a1 + seq!['-'] + sp_pad(ts.day as nat, 2);
        lemma_no_crlf_concat(a2, seq![' ']);
        lemma_no_crlf_concat(a2 + seq![' '], sp_pad(ts.hour as nat, 2));
        let a3 = a2 + seq![' '] + sp_pad(ts.hour as nat, 2);
        lemma_no_crlf_concat(a3, seq![':']);
        lemma_no_crlf_concat(a3 + seq![':'], sp_pad(ts.minute as nat, 2));
        let a4 = a3 + seq![':'] + sp_pad(ts.minute as nat, 2);
        lemma_no_crlf_concat(a4, seq![':']);
        lemma_no_crlf_concat(
            a4 + seq![':'],
            sp_pad((ts.second + ts.nanosecond / 1000000000) as nat, 2),
        );
    }
    lemma_no_crlf_concat(sp_render_ymd_hms(ts), sp_render_frac(ts.nanosecond as int));
    lemma_no_crlf_concat(
        sp_render_ymd_hms(ts) + sp_render_frac(ts.nanosecond as int),
        seq![' '],
    );
    lemma_no_crlf_concat(
        sp_render_ymd_hms(ts) + sp_render_frac(ts.nanosecond as int) + seq![' '],
        sp_render_off(off),
    );
    assert(sp_render_ts(ts)[0] == sp_render_ymd_hms(ts)[0]);
    assert(sp_render_ymd_hms(ts)[0] == sp_render_year(y)[0]);
}

} // verus!

verus! {

/// A rendered metadata token is read back as the same token; the lexer
/// takes the quoted branch exactly when the serializer quoted.
proof fn lemma_metadata_round(m: Seq<char>, rest: Seq<char>)
    requires
        m.len() >= 1,
        rest.len() >= 1,
        rest[0] == '\n',
    ensures
        sp_metadata_token(sp_quote(m) + rest) == PRes::<(Seq<char>, bool)>::Parsed(
            (m, sp_needs_quote(m)),
            rest,
        ),
{
    if sp_needs_quote(m) {
        assert(sp_quote(m) + rest =~= seq!['"'] + sp_escape(m) + seq!['"'] + rest);
        lemma_quoted_round(m, rest);
    } else {
        let su = sp_quote(m) + rest;
        assert(forall|i: int| 0 <= i < m.len() ==> !quote_trigger(#[trigger] m[i]));
        assert(su[0] == m[0]);
        assert(su[0] != '"');
        assert(sp_quoted(su) is None);
        assert(no_cr_lf(m));
        lemma_nle_round(m, rest);
        assert(su =~= m + rest);
    }
}

/// A rendered header line is read back as the same file, with timestamp
/// metadata classified anew from its canonical rendering.
proof fn lemma_hlc_round(f: SpFile, rest2: Seq<char>)
    requires
        wf_file(f),
        rest2.len() >= 1,
        rest2[0] == '\n',
    ensures
        sp_header_line_content(sp_render_file(f) + rest2) == PRes::<SpFile>::Parsed(
            sp_reclassify_file(f),
            rest2,
        ),
{
    match f.meta {
        None => {
            assert(sp_render_file(f) + rest2 =~= sp_quote(f.path) + rest2);
            lemma_filename_quoting_roundtrip(f.path, rest2);
        },
        Some(SpMeta::Other(o)) => {
            let rest_f = seq!['\t'] + sp_quote(o) + rest2;
            assert(sp_render_file(f) + rest2 =~= sp_quote(f.path) + rest_f);
            lemma_filename_quoting_roundtrip(f.path, rest_f);
            assert(rest_f.skip(1) =~= sp_quote(o) + rest2);
            lemma_metadata_round(o, rest2);
            let wq = sp_needs_quote(o);
            if !wq {
                assert(forall|i: int| 0 <= i < o.len() ==> !quote_trigger(#[trigger] o[i]));
                assert(o[0] != '\t');
                assert(!(o.len() == 0 || (o.len() == 1 && o[0] == '\t')));
            }
            assert(sp_classify(o) == SpMeta::Other(o));
        },
        Some(SpMeta::DateTime(ts)) => {
            let t = sp_render_ts(ts);
            lemma_render_ts_safe(ts);
            let rest_f = seq!['\t'] + t + rest2;
            assert(sp_render_file(f) + rest2 =~= sp_quote(f.path) + rest_f);
            lemma_filename_quoting_roundtrip(f.path, rest_f);
            assert(rest_f.skip(1) =~= t + rest2);
            assert((t + rest2)[0] == t[0]);
            assert(sp_quoted(t + rest2) is None);
            lemma_nle_round(t, rest2);
            assert(!(t.len() == 0 || (t.len() == 1 && t[0] == '\t')));
        },
    }
}

/// Rendered headers are read back as the same two files.
proof fn lemma_headers_round(old: SpFile, new: SpFile, rest3: Seq<char>)
    requires
        wf_file(old),
        wf_file(new),
        rest3.len() >= 1,
        rest3[0] == '\n',
    ensures
        sp_headers(
            ("--- ")@ + sp_render_file(old) + seq!['\n'] + ("+++ ")@ + sp_render_file(new)
                + rest3,
        ) == PRes::<(SpFile, SpFile)>::Parsed(
            (sp_reclassify_file(old), sp_reclassify_file(new)),
            rest3.skip(1),
        ),
{
    reveal_strlit("--- ");
    reveal_strlit("+++ ");
    let text = ("--- ")@ + sp_render_file(old) + seq!['\n'] + ("+++ ")@ + sp_render_file(new)
        + rest3;
    assert(text[0] == '-' && text[1] == '-' && text[2] == '-');
    assert(sp_find_dashes(text) == Some(0nat));
    assert(text.skip(0) =~= text);
    let rest_a = seq!['\n'] + (("+++ ")@ + sp_render_file(new) + rest3);
    assert(text =~= ("--- ")@ + (sp_render_file(old) + rest_a));
    lemma_tag_round(("--- ")@, sp_render_file(old) + rest_a);
    lemma_hlc_round(old, rest_a);
    assert(rest_a.skip(1) =~= ("+++ ")@ + (sp_render_file(new) + rest3));
    lemma_tag_round(("+++ ")@, sp_render_file(new) + rest3);
    lemma_hlc_round(new, rest3);
}


/// What parsing guarantees of one content line: no line-ending characters
/// in its text, and no text opening a `+++ ` or `--- ` header.
pub open spec fn wf_line(l: SpLine) -> bool {
    match l {
        SpLine::Add(t) => no_cr_lf(t) && !(("++ ")@.is_prefix_of(t)),
        SpLine::Remove(t) => no_cr_lf(t) && !(("-- ")@.is_prefix_of(t)),
        SpLine::Context(t) => no_cr_lf(t),
    }
}

/// What parsing guarantees of one hunk: a hint without line endings and at
/// least one well-formed content line.
pub open spec fn wf_hunk(h: SpHunk) -> bool {
    no_cr_lf(h.range_hint) && h.lines.len() >= 1 && forall|i: int|
        0 <= i < h.lines.len() ==> wf_line(#[trigger] h.lines[i])
}

/// What parsing guarantees of a whole patch.
pub open spec fn wf_patch(p: SpPatch) -> bool {
    wf_file(p.old) && wf_file(p.new) && p.hunks.len() >= 1 && forall|i: int|
        0 <= i < p.hunks.len() ==> wf_hunk(#[trigger] p.hunks[i])
}

/// A rendered content line, closed by a newline, parses back to itself.
proof fn lemma_chunk_line_round(l: SpLine, rest: Seq<char>)
    requires
        wf_line(l),
    ensures
        sp_chunk_line(sp_render_line(l) + seq!['\n'] + rest) == PRes::<SpLine>::Parsed(l, rest),
{
    reveal_strlit("++ ");
    reveal_strlit("-- ");
    let su = sp_render_line(l) + seq!['\n'] + rest;
    match l {
        SpLine::Add(t) => {
            assert(su[0] == '+');
            assert(su.skip(1) =~= t + (seq!['\n'] + rest));
            let body = t + (seq!['\n'] + rest);
            if ("++ ")@.is_prefix_of(body) {
                if t.len() >= 3 {
                    assert(("++ ")@ =~= t.subrange(0, 3));
                    assert(false);
                } else {
                    let k = t.len() as int;
                    assert(("++ ")@ == body.subrange(0, 3));
                    assert(body[k] == body.subrange(0, 3)[k]);
                    assert(body[k] == '\n');
                    assert(false);
                }
            }
            lemma_content_round(t, rest);
        },
        SpLine::Remove(t) => {
            assert(su[0] == '-');
            assert(su.skip(1) =~= t + (seq!['\n'] + rest));
            let body = t + (seq!['\n'] + rest);
            if ("-- ")@.is_prefix_of(body) {
                if t.len() >= 3 {
                    assert(("-- ")@ =~= t.subrange(0, 3));
                    assert(false);
                } else {
                    let k = t.len() as int;
                    assert(("-- ")@ == body.subrange(0, 3));
                    assert(body[k] == body.subrange(0, 3)[k]);
                    assert(body[k] == '\n');
                    assert(false);
                }
            }
            lemma_content_round(t, rest);
        },
        SpLine::Context(t) => {
            assert(su[0] == ' ');
            assert(su.skip(1) =~= t + (seq!['\n'] + rest));
            lemma_content_round(t, rest);
        },
    }
}

/// The text of a rendered line run as the parser sees it after the run's
/// first newline was consumed.
pub open spec fn lines_body(ls: Seq<SpLine>, rest: Seq<char>) -> Seq<char> {
    if ls.len() == 0 {
        rest
    } else {
        sp_render_line(ls[0]) + sp_render_lines(ls.skip(1)) + seq!['\n'] + rest
    }
}

/// A rendered line run parses back to exactly its lines, stopping at text
/// that is no content line.
proof fn lemma_lines_more_round(ls: Seq<SpLine>, rest: Seq<char>)
    requires
        forall|i: int| 0 <= i < ls.len() ==> wf_line(#[trigger] ls[i]),
        sp_chunk_line(rest) is Failed,
    ensures
        sp_lines_more(lines_body(ls, rest)) == (ls, rest),
    decreases ls.len(),
{
    if ls.len() == 0 {
        assert(sp_lines_more(rest) == (Seq::<SpLine>::empty(), rest));
        assert(Seq::<SpLine>::empty() =~= ls);
    } else {
        let tail = lines_body(ls.skip(1), rest);
        if ls.len() == 1 {
            assert(lines_body(ls, rest) =~= sp_render_line(ls[0]) + seq!['\n'] + rest);
        } else {
            assert(sp_render_lines(ls.skip(1)) == seq!['\n'] + sp_render_line(ls.skip(1)[0])
                + sp_render_lines(ls.skip(1).skip(1)));
            assert(lines_body(ls, rest) =~= sp_render_line(ls[0]) + seq!['\n'] + tail);
        }
        lemma_chunk_line_round(ls[0], tail);
        crate::grammar::lemma_chunk_line_lt(lines_body(ls, rest));
        lemma_lines_more_round(ls.skip(1), rest);
        assert(sp_lines_more(lines_body(ls, rest)).0 =~= seq![ls[0]] + ls.skip(1));
        assert(seq![ls[0]] + ls.skip(1) =~= ls);
    }
}

/// A rendered hunk, closed by a newline, parses back to itself, stopping
/// at text that is no content line.
proof fn lemma_chunk_round(h: SpHunk, rest: Seq<char>)
    requires
        wf_hunk(h),
        sp_chunk_line(rest) is Failed,
    ensures
        sp_chunk(sp_render_hunk(h) + seq!['\n'] + rest) == PRes::<SpHunk>::Parsed(h, rest),
{
    reveal_strlit("@@ -");
    reveal_strlit(" +");
    reveal_strlit(" @@");
    let text = sp_render_hunk(h) + seq!['\n'] + rest;
    let body0 = lines_body(h.lines, rest);
    let rest_n = sp_render_lines(h.lines) + seq!['\n'] + rest;
    let x3 = h.range_hint + rest_n;
    let x2b = (" @@")@ + x3;
    let x2 = sp_render_range(h.new_range) + x2b;
    let x1b = (" +")@ + x2;
    let x1 = sp_render_range(h.old_range) + x1b;
    assert(text =~= ("@@ -")@ + x1);
    lemma_tag_round(("@@ -")@, x1);
    assert(x1b[0] == ' ');
    lemma_range_round(h.old_range, x1b);
    assert(x1b.skip(2) =~= x2);
    lemma_tag_round((" +")@, x2);
    assert(x2b[0] == ' ');
    lemma_range_round(h.new_range, x2b);
    assert(x2b.skip(3) =~= x3);
    lemma_tag_round((" @@")@, x3);
    assert(sp_render_lines(h.lines) == seq!['\n'] + sp_render_line(h.lines[0])
        + sp_render_lines(h.lines.skip(1)));
    assert(rest_n[0] == '\n');
    lemma_nle_round(h.range_hint, rest_n);
    assert(rest_n.skip(1) =~= body0);
    if h.lines.len() == 1 {
        assert(body0 =~= sp_render_line(h.lines[0]) + seq!['\n'] + rest);
    } else {
        assert(sp_render_lines(h.lines.skip(1)) == seq!['\n'] + sp_render_line(
            h.lines.skip(1)[0],
        ) + sp_render_lines(h.lines.skip(1).skip(1)));
        assert(body0 =~= sp_render_line(h.lines[0]) + seq!['\n'] + lines_body(
            h.lines.skip(1),
            rest,
        ));
    }
    lemma_chunk_line_round(h.lines[0], lines_body(h.lines.skip(1), rest));
    lemma_lines_more_round(h.lines.skip(1), rest);
    assert(seq![h.lines[0]] + h.lines.skip(1) =~= h.lines);
    assert(sp_chunk(text) == PRes::<SpHunk>::Parsed(
        SpHunk {
            old_range: h.old_range,
            new_range: h.new_range,
            range_hint: h.range_hint,
            lines: seq![h.lines[0]] + h.lines.skip(1),
        },
        rest,
    ));
}


/// The text of a rendered hunk run as the parser sees it after the run's
/// first newline was consumed.
pub open spec fn hunks_body(hs: Seq<SpHunk>, rest: Seq<char>) -> Seq<char> {
    if hs.len() == 0 {
        rest
    } else {
        sp_render_hunk(hs[0]) + sp_render_hunks(hs.skip(1)) + seq!['\n'] + rest
    }
}

/// Text that opens neither a hunk header nor a content line.
pub open spec fn stops_hunks(rest: Seq<char>) -> bool {
    sp_chunk_header(rest) is Failed && sp_chunk_line(rest) is Failed
}

/// A hunk's rendering opens with `@@`, which is no content line.
proof fn lemma_hunk_text_stops_lines(hs: Seq<SpHunk>, rest: Seq<char>)
    requires
        hs.len() >= 1,
        stops_hunks(rest),
    ensures
        sp_chunk_line(hunks_body(hs, rest)) is Failed,
{
    reveal_strlit("@@ -");
    let su = hunks_body(hs, rest);
    assert(su[0] == ("@@ -")@[0]);
    assert(su[0] == '@');
}

/// A rendered hunk run parses back to exactly its hunks, stopping at text
/// that opens no hunk.
proof fn lemma_hunks_more_round(hs: Seq<SpHunk>, rest: Seq<char>)
    requires
        forall|i: int| 0 <= i < hs.len() ==> wf_hunk(#[trigger] hs[i]),
        stops_hunks(rest),
    ensures
        sp_chunks_more(hunks_body(hs, rest)) == (hs, rest),
    decreases hs.len(),
{
    if hs.len() == 0 {
        assert(sp_chunks_more(rest) == (Seq::<SpHunk>::empty(), rest));
        assert(Seq::<SpHunk>::empty() =~= hs);
    } else {
        let tail = hunks_body(hs.skip(1), rest);
        if hs.len() == 1 {
            assert(hunks_body(hs, rest) =~= sp_render_hunk(hs[0]) + seq!['\n'] + rest);
        } else {
            assert(sp_render_hunks(hs.skip(1)) == seq!['\n'] + sp_render_hunk(hs.skip(1)[0])
                + sp_render_hunks(hs.skip(1).skip(1)));
            assert(hunks_body(hs, rest) =~= sp_render_hunk(hs[0]) + seq!['\n'] + tail);
        }
        if hs.len() == 1 {
            assert(sp_chunk_line(tail) is Failed);
        } else {
            lemma_hunk_text_stops_lines(hs.skip(1), rest);
        }
        lemma_chunk_round(hs[0], tail);
        crate::grammar::lemma_chunk_lt(hunks_body(hs, rest));
        lemma_hunks_more_round(hs.skip(1), rest);
        assert(sp_chunks_more(hunks_body(hs, rest)).0 =~= seq![hs[0]] + hs.skip(1));
        assert(seq![hs[0]] + hs.skip(1) =~= hs);
    }
}

/// A rendered hunk sequence parses back to exactly its hunks.
#[verifier::rlimit(60)]
proof fn lemma_chunks_round(hs: Seq<SpHunk>, rest: Seq<char>)
    requires
        hs.len() >= 1,
        forall|i: int| 0 <= i < hs.len() ==> wf_hunk(#[trigger] hs[i]),
        stops_hunks(rest),
    ensures
        sp_chunks(hunks_body(hs, rest)) == PRes::<Seq<SpHunk>>::Parsed(hs, rest),
{
    let tail = hunks_body(hs.skip(1), rest);
    if hs.len() == 1 {
        assert(hunks_body(hs, rest) =~= sp_render_hunk(hs[0]) + seq!['\n'] + rest);
        assert(sp_chunk_line(tail) is Failed);
    } else {
        assert(sp_render_hunks(hs.skip(1)) == seq!['\n'] + sp_render_hunk(hs.skip(1)[0])
            + sp_render_hunks(hs.skip(1).skip(1)));
        assert(hunks_body(hs, rest) =~= sp_render_hunk(hs[0]) + seq!['\n'] + tail);
        lemma_hunk_text_stops_lines(hs.skip(1), rest);
    }
    lemma_chunk_round(hs[0], tail);
    lemma_hunks_more_round(hs.skip(1), rest);
    assert(seq![hs[0]] + hs.skip(1) =~= hs);
    assert(sp_chunks(hunks_body(hs, rest)) == PRes::<Seq<SpHunk>>::Parsed(
        seq![hs[0]] + hs.skip(1),
        rest,
    ));
}


/// Characters inside the current line are no line endings.
proof fn lemma_line_len_chars(su: Seq<char>, k: int)
    requires
        0 <= k < sp_line_len(su),
    ensures
        su[k] != '\n' && su[k] != '\r',
    decreases k,
{
    crate::grammar::lemma_line_len_le(su);
    if k > 0 {
        lemma_line_len_chars(su.skip(1), k - 1);
    }
}

/// What the rest-of-line rule returns holds no line endings.
proof fn lemma_nle_wf(su: Seq<char>)
    ensures
        sp_not_line_ending(su) matches PRes::Parsed(t, _) ==> no_cr_lf(t),
{
    if let PRes::Parsed(t, _) = sp_not_line_ending(su) {
        crate::grammar::lemma_line_len_le(su);
        assert forall|i: int| 0 <= i < t.len() implies t[i] != '\n' && t[i] != '\r' by {
            assert(t[i] == su[i]);
            lemma_line_len_chars(su, i);
        }
    }
}

/// What the content-line rule returns holds no line endings.
proof fn lemma_content_wf(su: Seq<char>)
    ensures
        sp_content_line(su) matches PRes::Parsed(t, _) ==> no_cr_lf(t),
{
    lemma_nle_wf(su);
}

/// A parsed content line is well-formed.
proof fn lemma_chunk_line_wf(su: Seq<char>)
    ensures
        sp_chunk_line(su) matches PRes::Parsed(l, _) ==> wf_line(l),
{
    if let PRes::Parsed(l, _) = sp_chunk_line(su) {
        lemma_content_wf(su.skip(1));
        crate::grammar::lemma_line_len_le(su.skip(1));
        match l {
            SpLine::Add(t) => {
                assert(t == su.skip(1).take(sp_line_len(su.skip(1)) as int));
                if ("++ ")@.is_prefix_of(t) {
                    assert(("++ ")@ =~= su.skip(1).subrange(0, 3));
                    assert(("++ ")@.is_prefix_of(su.skip(1)));
                }
            },
            SpLine::Remove(t) => {
                assert(t == su.skip(1).take(sp_line_len(su.skip(1)) as int));
                if ("-- ")@.is_prefix_of(t) {
                    assert(("-- ")@ =~= su.skip(1).subrange(0, 3));
                    assert(("-- ")@.is_prefix_of(su.skip(1)));
                }
            },
            SpLine::Context(_) => {},
        }
    }
}

/// A parsed file name is non-empty.
proof fn lemma_filename_wf(su: Seq<char>)
    ensures
        sp_filename(su) matches PRes::Parsed(t, _) ==> t.len() >= 1,
{
    crate::grammar::lemma_bare_len_le(su);
}

/// A parsed header line yields a well-formed file.
proof fn lemma_hlc_wf(su: Seq<char>)
    ensures
        sp_header_line_content(su) matches PRes::Parsed(f, _) ==> wf_file(f),
{
    lemma_filename_wf(su);
    if let PRes::Parsed(path, su1) = sp_filename(su) {
        if su1.len() >= 1 && su1[0] == '\t' {
            if let PRes::Parsed((m, wq), _) = sp_metadata_token(su1.skip(1)) {
                if wq || !(m.len() == 0 || (m.len() == 1 && m[0] == '\t')) {
                    assert(wf_meta(sp_classify(m)));
                }
            }
        }
    }
}

/// Every line that the line-run rule collects is well-formed.
proof fn lemma_lines_more_wf(su: Seq<char>)
    ensures
        forall|i: int|
            0 <= i < sp_lines_more(su).0.len() ==> wf_line(#[trigger] sp_lines_more(su).0[i]),
    decreases su.len(),
{
    lemma_chunk_line_wf(su);
    if let PRes::Parsed(l, r) = sp_chunk_line(su) {
        if r.len() < su.len() {
            lemma_lines_more_wf(r);
            assert(forall|i: int|
                1 <= i < sp_lines_more(su).0.len() ==> sp_lines_more(su).0[i]
                    == sp_lines_more(r).0[i - 1]);
        }
    }
}

/// A parsed hunk is well-formed.
proof fn lemma_chunk_wf(su: Seq<char>)
    ensures
        sp_chunk(su) matches PRes::Parsed(h, _) ==> wf_hunk(h),
{
    if let PRes::Parsed((r1, r2, hint), su1) = sp_chunk_header(su) {
        if let PRes::Parsed(_, su0a) = sp_tag(su, ("@@ -")@) {
            if let PRes::Parsed(_, su0b) = sp_range(su0a) {
                if let PRes::Parsed(_, su0c) = sp_tag(su0b, (" +")@) {
                    if let PRes::Parsed(_, su0d) = sp_range(su0c) {
                        if let PRes::Parsed(_, su0e) = sp_tag(su0d, (" @@")@) {
                            lemma_nle_wf(su0e);
                        }
                    }
                }
            }
        }
        lemma_chunk_line_wf(su1);
        if let PRes::Parsed(l0, su2) = sp_chunk_line(su1) {
            lemma_lines_more_wf(su2);
            assert(forall|i: int|
                1 <= i < (seq![l0] + sp_lines_more(su2).0).len() ==> (seq![l0]
                    + sp_lines_more(su2).0)[i] == sp_lines_more(su2).0[i - 1]);
        }
    }
}

/// Every hunk that the hunk-run rule collects is well-formed.
proof fn lemma_chunks_more_wf(su: Seq<char>)
    ensures
        forall|i: int|
            0 <= i < sp_chunks_more(su).0.len() ==> wf_hunk(#[trigger] sp_chunks_more(su).0[i]),
    decreases su.len(),
{
    lemma_chunk_wf(su);
    if let PRes::Parsed(h, r) = sp_chunk(su) {
        if r.len() < su.len() {
            lemma_chunks_more_wf(r);
            assert(forall|i: int|
                1 <= i < sp_chunks_more(su).0.len() ==> sp_chunks_more(su).0[i]
                    == sp_chunks_more(r).0[i - 1]);
        }
    }
}

/// A parsed patch is well-formed: non-empty paths, metadata that the
/// classification really produced, a hint without line endings, and one or
/// more hunks of one or more well-formed lines each.
pub proof fn lemma_patch_wf(su: Seq<char>)
    ensures
        sp_patch(su) matches PRes::Parsed(p, _) ==> wf_patch(p),
{
    if let PRes::Parsed(p, _) = sp_patch(su) {
        if let PRes::Parsed(_, su0) = sp_take_until_dashes(su) {
            if let PRes::Parsed(_, su1) = sp_tag(su0, ("--- ")@) {
                lemma_hlc_wf(su1);
                if let PRes::Parsed(_, su2) = sp_header_line_content(su1) {
                    if let PRes::Parsed(_, su3) = sp_line_ending(su2) {
                        if let PRes::Parsed(_, su4) = sp_tag(su3, ("+++ ")@) {
                            lemma_hlc_wf(su4);
                        }
                    }
                }
            }
        }
        if let PRes::Parsed(_, sub) = sp_headers(su) {
            lemma_chunk_wf(sub);
            if let PRes::Parsed(h0, subr) = sp_chunk(sub) {
                lemma_chunks_more_wf(subr);
                assert(forall|i: int|
                    1 <= i < (seq![h0] + sp_chunks_more(subr).0).len() ==> (seq![h0]
                        + sp_chunks_more(subr).0)[i] == sp_chunks_more(subr).0[i - 1]);
            }
        }
    }
}

/// Text at which one patch's parse stops: nothing at all, or a following
/// patch's old-file header.
pub open spec fn stops_patch(rest: Seq<char>) -> bool {
    rest.len() == 0 || (rest.len() >= 4 && rest[0] == '-' && rest[1] == '-' && rest[2] == '-'
        && rest[3] == ' ')
}

/// A rendered patch, closed by a newline, parses back to itself up to
/// timestamp re-classification, stopping exactly where the next patch or
/// the end of the input begins.
#[verifier::rlimit(100)]
proof fn lemma_patch_round(p: SpPatch, rest: Seq<char>)
    requires
        wf_patch(p),
        stops_patch(rest),
    ensures
        sp_patch(sp_render_patch(p) + seq!['\n'] + rest) == PRes::<SpPatch>::Parsed(
            sp_reclassify(p),
            rest,
        ),
{
    reveal_strlit("\\ No newline at end of file");
    reveal_strlit("@@ -");
    reveal_strlit("-- ");
    let text = sp_render_patch(p) + seq!['\n'] + rest;
    let rest_final: Seq<char> = if p.end_newline {
        rest
    } else {
        marker_text() + seq!['\n'] + rest
    };
    assert(sp_render_hunks(p.hunks) == seq!['\n'] + sp_render_hunk(p.hunks[0])
        + sp_render_hunks(p.hunks.skip(1)));
    let rest3 = sp_render_hunks(p.hunks) + (if p.end_newline {
        seq!['\n']
    } else {
        seq!['\n'] + marker_text() + seq!['\n']
    }) + rest;
    assert(text =~= ("--- ")@ + sp_render_file(p.old) + seq!['\n'] + ("+++ ")@ + sp_render_file(
        p.new,
    ) + rest3);
    assert(rest3[0] == '\n');
    lemma_headers_round(p.old, p.new, rest3);
    assert(rest3.skip(1) =~= hunks_body(p.hunks, rest_final));
    assert(sp_chunk_line(rest) is Failed && sp_chunk_header(rest) is Failed) by {
        if rest.len() != 0 {
            assert(rest[0] == '-');
            if ("@@ -")@.is_prefix_of(rest) {
                assert(rest[0] == ("@@ -")@[0]);
            }
            assert(("-- ")@ =~= rest.skip(1).subrange(0, 3));
            assert(("-- ")@.is_prefix_of(rest.skip(1)));
        }
    }
    assert(stops_hunks(rest_final)) by {
        if p.end_newline {
        } else {
            assert(rest_final[0] == '\\');
            assert(("@@ -")@[0] == '@');
            if ("@@ -")@.is_prefix_of(rest_final) {
                assert(rest_final[0] == ("@@ -")@[0]);
            }
        }
    }
    lemma_chunks_round(p.hunks, rest_final);
    assert(sp_blank_lines(rest) == rest) by {
        if rest.len() != 0 {
            assert(rest[0] == '-');
        }
    }
    if p.end_newline {
        assert(!marker_text().is_prefix_of(rest_final)) by {
            if rest_final.len() != 0 {
                if marker_text().is_prefix_of(rest_final) {
                    assert(rest_final[0] == marker_text()[0]);
                }
            }
        }
        assert(sp_marker(rest_final) == (false, rest));
    } else {
        assert(marker_text() =~= rest_final.subrange(0, marker_text().len() as int));
        assert(marker_text().is_prefix_of(rest_final));
        assert(rest_final.skip(marker_text().len() as int) =~= seq!['\n'] + rest);
        assert((seq!['\n'] + rest)[0] == '\n');
        assert((seq!['\n'] + rest).skip(1) =~= rest);
        assert(sp_marker(rest_final) == (true, rest));
    }
    assert(sp_patch(text) == PRes::<SpPatch>::Parsed(
        SpPatch {
            old: sp_reclassify_file(p.old),
            new: sp_reclassify_file(p.new),
            hunks: p.hunks,
            end_newline: p.end_newline,
        },
        rest,
    ));
}

/// Round-trip stability, up to timestamp canonicalization: a patch parsed
/// from some input and rendered again, with a final newline appended,
/// parses back to the very same patch — except that timestamp metadata,
/// rendered in its canonical form, is classified anew from that rendering.
pub proof fn lemma_format_roundtrip_canonical(s: Seq<char>, p: SpPatch)
    requires
        sp_parse_one(s) matches Ok(q) && q == p,
    ensures
        sp_parse_one(sp_render_patch(p) + seq!['\n']) matches Ok(q) && q == sp_reclassify(p),
{
    lemma_patch_wf(s);
    lemma_patch_round(p, Seq::empty());
    assert(sp_render_patch(p) + seq!['\n'] + Seq::<char>::empty() =~= sp_render_patch(p)
        + seq!['\n']);
}

/// Round-trip stability: a patch parsed from some input and rendered
/// again, with a final newline appended, parses back to the very same
/// patch. Patches whose header metadata is a recognized timestamp are
/// covered by [`lemma_format_roundtrip_canonical`] instead: whether the
/// timestamp's canonical rendering is recognized again is the timestamp
/// library's affair.
pub proof fn lemma_parse_render_roundtrip(s: Seq<char>, p: SpPatch)
    requires
        sp_parse_one(s) matches Ok(q) && q == p,
        no_datetime(p),
    ensures
        sp_parse_one(sp_render_patch(p) + seq!['\n']) matches Ok(q) && q == p,
{
    lemma_format_roundtrip_canonical(s, p);
    assert(sp_reclassify_file(p.old) == p.old);
    assert(sp_reclassify_file(p.new) == p.new);
    assert(sp_reclassify(p) == p);
}


/// Every patch that the patch-run rule collects is well-formed.
proof fn lemma_patches_more_wf(su: Seq<char>)
    ensures
        forall|i: int|
            0 <= i < sp_patches_more(su).0.len() ==> wf_patch(
                #[trigger] sp_patches_more(su).0[i],
            ),
    decreases su.len(),
{
    lemma_patch_wf(su);
    if let PRes::Parsed(q, r) = sp_patch(su) {
        if r.len() < su.len() {
            lemma_patches_more_wf(r);
            assert(forall|i: int|
                1 <= i < sp_patches_more(su).0.len() ==> sp_patches_more(su).0[i]
                    == sp_patches_more(r).0[i - 1]);
        }
    }
}

/// A rendered diff stream of patches parses back to exactly those patches,
/// up to timestamp re-classification, and consumes everything.
proof fn lemma_patches_round(ps: Seq<SpPatch>)
    requires
        forall|i: int| 0 <= i < ps.len() ==> wf_patch(#[trigger] ps[i]),
    ensures
        sp_patches_more(sp_render_all(ps)).0 == ps.map_values(|p: SpPatch| sp_reclassify(p)),
        sp_patches_more(sp_render_all(ps)).1 == Seq::<char>::empty(),
    decreases ps.len(),
{
    reveal_strlit("--- ");
    let f = |p: SpPatch| sp_reclassify(p);
    if ps.len() == 0 {
        assert(sp_render_all(ps) =~= Seq::<char>::empty());
        assert(sp_patch(Seq::<char>::empty()) is Failed);
        assert(ps.map_values(f) =~= Seq::<SpPatch>::empty());
    } else {
        let tail = sp_render_all(ps.skip(1));
        assert(stops_patch(tail)) by {
            if ps.skip(1).len() != 0 {
                assert(tail == sp_render_patch(ps.skip(1)[0]) + seq!['\n'] + sp_render_all(
                    ps.skip(1).skip(1),
                ));
                assert(tail[0] == ("--- ")@[0]);
                assert(tail[1] == ("--- ")@[1]);
                assert(tail[2] == ("--- ")@[2]);
                assert(tail[3] == ("--- ")@[3]);
            }
        }
        lemma_patch_round(ps[0], tail);
        let text = sp_render_all(ps);
        assert(text == sp_render_patch(ps[0]) + seq!['\n'] + tail);
        assert(sp_patch(text) == PRes::<SpPatch>::Parsed(sp_reclassify(ps[0]), tail));
        assert(tail.len() < text.len());
        lemma_patches_round(ps.skip(1));
        assert(sp_patches_more(text).0 =~= seq![sp_reclassify(ps[0])] + ps.skip(1).map_values(
            f,
        ));
        assert(ps.map_values(f) =~= seq![sp_reclassify(ps[0])] + ps.skip(1).map_values(f));
    }
}

/// Round-trip stability of a whole diff stream, up to timestamp
/// canonicalization: patches parsed from some input and rendered again,
/// each followed by a newline, parse back to the very same sequence of
/// patches — except that timestamp metadata, rendered in its canonical
/// form, is classified anew from that rendering.
pub proof fn lemma_parse_all_roundtrip_canonical(s: Seq<char>, ps: Seq<SpPatch>)
    requires
        sp_parse_all(s) matches Ok(qs) && qs == ps,
    ensures
        sp_parse_all(sp_render_all(ps)) matches Ok(qs) && qs == ps.map_values(
            |p: SpPatch| sp_reclassify(p),
        ),
{
    reveal_strlit("--- ");
    let f = |p: SpPatch| sp_reclassify(p);
    lemma_patch_wf(s);
    if let PRes::Parsed(p0, r) = sp_patch(s) {
        lemma_patches_more_wf(r);
        assert(ps == seq![p0] + sp_patches_more(r).0);
        assert(ps[0] == p0);
        assert(forall|i: int|
            1 <= i < ps.len() ==> ps[i] == sp_patches_more(r).0[i - 1]);
    }
    assert(forall|i: int| 0 <= i < ps.len() ==> wf_patch(#[trigger] ps[i]));
    assert(ps.len() >= 1);
    let tail = sp_render_all(ps.skip(1));
    assert(stops_patch(tail)) by {
        if ps.skip(1).len() != 0 {
            assert(tail == sp_render_patch(ps.skip(1)[0]) + seq!['\n'] + sp_render_all(
                ps.skip(1).skip(1),
            ));
            assert(tail[0] == ("--- ")@[0]);
            assert(tail[1] == ("--- ")@[1]);
            assert(tail[2] == ("--- ")@[2]);
            assert(tail[3] == ("--- ")@[3]);
        }
    }
    lemma_patch_round(ps[0], tail);
    let text = sp_render_all(ps);
    assert(text == sp_render_patch(ps[0]) + seq!['\n'] + tail);
    lemma_patches_round(ps.skip(1));
    assert(seq![sp_reclassify(ps[0])] + ps.skip(1).map_values(f) =~= ps.map_values(f));
}

} // verus!

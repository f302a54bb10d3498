//! The grammar of the Unified Format, as specification functions.
//!
//! Each function consumes a suffix of the input and yields either the parsed
//! value together with the remaining suffix, or the suffix at the failure
//! point together with the category of the rule that failed. The executable
//! parser is verified against these functions clause by clause.

use vstd::prelude::*;

use crate::ast::{ParseErrorKind, Range, SpFile, SpHunk, SpLine, SpMeta, SpPatch};
use crate::text::{dec_val, is_digit_char};
use crate::timestamp::chrono_ts_of;

verus! {

/// The outcome of one grammar rule: the parsed value and the remaining
/// input, or the remaining input at the failure point and the failed rule's
/// category.
pub enum PRes<T> {
    Parsed(T, Seq<char>),
    Failed(Seq<char>, ParseErrorKind),
}

/// A fixed token at the start of the input.
pub open spec fn sp_tag(su: Seq<char>, t: Seq<char>) -> PRes<()> {
    if t.is_prefix_of(su) {
        PRes::Parsed((), su.skip(t.len() as int))
    } else {
        PRes::Failed(su, ParseErrorKind::Tag)
    }
}

/// A line ending: a bare line feed, or a carriage return and a line feed.
pub open spec fn sp_line_ending(su: Seq<char>) -> PRes<()> {
    if su.len() >= 1 && su[0] == '\n' {
        PRes::Parsed((), su.skip(1))
    } else if su.len() >= 2 && su[0] == '\r' && su[1] == '\n' {
        PRes::Parsed((), su.skip(2))
    } else {
        PRes::Failed(su, ParseErrorKind::CrLf)
    }
}

/// The number of leading characters before the first carriage return or
/// line feed.
pub open spec fn sp_line_len(su: Seq<char>) -> nat
    decreases su.len(),
{
    if su.len() == 0 {
        0
    } else if su[0] == '\n' || su[0] == '\r' {
        0
    } else {
        1 + sp_line_len(su.skip(1))
    }
}

pub proof fn lemma_line_len_le(su: Seq<char>)
    ensures
        sp_line_len(su) <= su.len(),
    decreases su.len(),
{
    if su.len() > 0 && !(su[0] == '\n' || su[0] == '\r') {
        lemma_line_len_le(su.skip(1));
    }
}

/// The rest of the current line: everything up to the first carriage return
/// or line feed, which is not consumed. A carriage return not followed by a
/// line feed is a failure.
pub open spec fn sp_not_line_ending(su: Seq<char>) -> PRes<Seq<char>> {
    let n = sp_line_len(su) as int;
    if n < su.len() && su[n] == '\r' && !(n + 1 < su.len() && su[n + 1] == '\n') {
        PRes::Failed(su, ParseErrorKind::Tag)
    } else {
        PRes::Parsed(su.take(n), su.skip(n))
    }
}

/// The number of leading ASCII decimal digits.
pub open spec fn sp_digit_run(su: Seq<char>) -> nat
    decreases su.len(),
{
    if su.len() == 0 {
        0
    } else if is_digit_char(su[0]) {
        1 + sp_digit_run(su.skip(1))
    } else {
        0
    }
}

pub proof fn lemma_digit_run_le(su: Seq<char>)
    ensures
        sp_digit_run(su) <= su.len(),
    decreases su.len(),
{
    if su.len() > 0 && is_digit_char(su[0]) {
        lemma_digit_run_le(su.skip(1));
    }
}

/// An unsigned decimal number. The number must be non-empty and its value
/// must fit in 64 bits.
pub open spec fn sp_u64(su: Seq<char>) -> PRes<u64> {
    let n = sp_digit_run(su) as int;
    if n == 0 {
        PRes::Failed(su, ParseErrorKind::Digit)
    } else if dec_val(su.take(n)) > u64::MAX {
        PRes::Failed(su, ParseErrorKind::Digit)
    } else {
        PRes::Parsed(dec_val(su.take(n)) as u64, su.skip(n))
    }
}

/// A hunk range: a start line, optionally followed by a comma and a count.
/// A missing count defaults to one.
pub open spec fn sp_range(su: Seq<char>) -> PRes<Range> {
    match sp_u64(su) {
        PRes::Failed(e, k) => PRes::Failed(e, k),
        PRes::Parsed(start, su1) => if su1.len() >= 1 && su1[0] == ',' {
            match sp_u64(su1.skip(1)) {
                PRes::Parsed(count, su2) => PRes::Parsed(Range { start, count }, su2),
                PRes::Failed(_, _) => PRes::Parsed(Range { start, count: 1 }, su1),
            }
        } else {
            PRes::Parsed(Range { start, count: 1 }, su1)
        },
    }
}

pub proof fn lemma_range_le(su: Seq<char>)
    ensures
        sp_range(su) matches PRes::Parsed(_, r) ==> r.len() <= su.len(),
{
    lemma_digit_run_le(su);
    if let PRes::Parsed(_, su1) = sp_u64(su) {
        lemma_digit_run_le(su1.skip(1));
    }
}

/// The index of the first occurrence of three dashes, if any.
pub open spec fn sp_find_dashes(su: Seq<char>) -> Option<nat>
    decreases su.len(),
{
    if su.len() < 3 {
        None
    } else if su[0] == '-' && su[1] == '-' && su[2] == '-' {
        Some(0nat)
    } else {
        match sp_find_dashes(su.skip(1)) {
            Some(j) => Some(j + 1),
            None => None,
        }
    }
}

pub proof fn lemma_find_dashes_le(su: Seq<char>)
    ensures
        sp_find_dashes(su) matches Some(j) ==> j + 3 <= su.len(),
    decreases su.len(),
{
    if su.len() >= 3 && !(su[0] == '-' && su[1] == '-' && su[2] == '-') {
        lemma_find_dashes_le(su.skip(1));
    }
}

/// Skips everything before the first occurrence of three dashes; fails when
/// no three dashes occur in the input.
pub open spec fn sp_take_until_dashes(su: Seq<char>) -> PRes<()> {
    match sp_find_dashes(su) {
        Some(j) => PRes::Parsed((), su.skip(j as int)),
        None => PRes::Failed(su, ParseErrorKind::TakeUntil),
    }
}

/// The characters that may not stand unescaped inside a quoted string.
pub open spec fn qchar_bad(c: char) -> bool {
    c == '\u{0}' || c == '\n' || c == '\r' || c == '\t' || c == '\\' || c == '"'
}

/// The decoded counterpart of an escape code, if the code is legal.
pub open spec fn esc_code(c: char) -> Option<char> {
    if c == '0' {
        Some('\u{0}')
    } else if c == 'n' {
        Some('\n')
    } else if c == 'r' {
        Some('\r')
    } else if c == 't' {
        Some('\t')
    } else if c == '"' {
        Some('"')
    } else if c == '\\' {
        Some('\\')
    } else {
        None
    }
}

/// The longest run of quoted-string characters, decoded: each element is
/// either a plain character or a backslash escape. Yields the decoded text
/// and the remaining input.
pub open spec fn sp_qchars(su: Seq<char>) -> (Seq<char>, Seq<char>)
    decreases su.len(),
{
    if su.len() >= 1 && !qchar_bad(su[0]) {
        let (d, r) = sp_qchars(su.skip(1));
        (seq![su[0]] + d, r)
    } else if su.len() >= 2 && su[0] == '\\' && esc_code(su[1]) is Some {
        let (d, r) = sp_qchars(su.skip(2));
        (seq![esc_code(su[1]).unwrap()] + d, r)
    } else {
        (Seq::empty(), su)
    }
}

pub proof fn lemma_qchars_le(su: Seq<char>)
    ensures
        sp_qchars(su).1.len() <= su.len(),
    decreases su.len(),
{
    if su.len() >= 1 && !qchar_bad(su[0]) {
        lemma_qchars_le(su.skip(1));
    } else if su.len() >= 2 && su[0] == '\\' && esc_code(su[1]) is Some {
        lemma_qchars_le(su.skip(2));
    }
}

/// A quoted string: a double quote, one or more plain or escaped
/// characters, and a closing double quote. Yields the decoded text.
pub open spec fn sp_quoted(su: Seq<char>) -> Option<(Seq<char>, Seq<char>)> {
    if su.len() >= 1 && su[0] == '"' {
        let (d, r) = sp_qchars(su.skip(1));
        if d.len() >= 1 && r.len() >= 1 && r[0] == '"' {
            Some((d, r.skip(1)))
        } else {
            None
        }
    } else {
        None
    }
}

pub proof fn lemma_quoted_le(su: Seq<char>)
    ensures
        sp_quoted(su) matches Some((_, r)) ==> r.len() <= su.len(),
{
    if su.len() >= 1 && su[0] == '"' {
        lemma_qchars_le(su.skip(1));
    }
}

/// The characters that end a bare token.
pub open spec fn bare_stop(c: char) -> bool {
    c == '\t' || c == '\r' || c == '\n'
}

/// The number of leading characters before a tab, carriage return or line
/// feed.
pub open spec fn sp_bare_len(su: Seq<char>) -> nat
    decreases su.len(),
{
    if su.len() == 0 {
        0
    } else if bare_stop(su[0]) {
        0
    } else {
        1 + sp_bare_len(su.skip(1))
    }
}

pub proof fn lemma_bare_len_le(su: Seq<char>)
    ensures
        sp_bare_len(su) <= su.len(),
    decreases su.len(),
{
    if su.len() > 0 && !bare_stop(su[0]) {
        lemma_bare_len_le(su.skip(1));
    }
}

/// A file name: a quoted string, or else a non-empty bare token running up
/// to the first tab, carriage return or line feed.
pub open spec fn sp_filename(su: Seq<char>) -> PRes<Seq<char>> {
    match sp_quoted(su) {
        Some((d, r)) => PRes::Parsed(d, r),
        None => {
            let n = sp_bare_len(su) as int;
            if n == 0 {
                PRes::Failed(su, ParseErrorKind::IsNot)
            } else {
                PRes::Parsed(su.take(n), su.skip(n))
            }
        },
    }
}

pub proof fn lemma_filename_le(su: Seq<char>)
    ensures
        sp_filename(su) matches PRes::Parsed(_, r) ==> r.len() <= su.len(),
{
    lemma_quoted_le(su);
    lemma_bare_len_le(su);
}

/// The metadata token after a tab: a quoted string, or else the rest of the
/// line verbatim. The boolean records whether the quoted branch was taken.
pub open spec fn sp_metadata_token(su: Seq<char>) -> PRes<(Seq<char>, bool)> {
    match sp_quoted(su) {
        Some((d, r)) => PRes::Parsed((d, true), r),
        None => match sp_not_line_ending(su) {
            PRes::Parsed(t, r) => PRes::Parsed((t, false), r),
            PRes::Failed(e, k) => PRes::Failed(e, k),
        },
    }
}

pub proof fn lemma_metadata_le(su: Seq<char>)
    ensures
        sp_metadata_token(su) matches PRes::Parsed(_, r) ==> r.len() <= su.len(),
{
    lemma_quoted_le(su);
    lemma_line_len_le(su);
}

/// The first of the two timestamp formats tried on metadata text: full
/// date, time with optional sub-second digits, and a numeric offset.
pub open spec fn ts_format_subsec() -> Seq<char> {
    ("%F %T%.f %z")@
}

/// The second timestamp format: as the first, but without sub-second
/// digits.
pub open spec fn ts_format_plain() -> Seq<char> {
    ("%F %T %z")@
}

/// How metadata text is classified: text recognized by either timestamp
/// format becomes a datetime; any other text is kept verbatim.
pub open spec fn sp_classify(m: Seq<char>) -> SpMeta {
    if chrono_ts_of(m, ts_format_subsec()) is Some {
        SpMeta::DateTime(chrono_ts_of(m, ts_format_subsec()).unwrap())
    } else if chrono_ts_of(m, ts_format_plain()) is Some {
        SpMeta::DateTime(chrono_ts_of(m, ts_format_plain()).unwrap())
    } else {
        SpMeta::Other(m)
    }
}

/// The content of one header line: a file name, optionally followed by a
/// tab and a metadata token. An absent, empty, or lone-tab unquoted token
/// yields no metadata; failing metadata is left unconsumed together with
/// its tab.
pub open spec fn sp_header_line_content(su: Seq<char>) -> PRes<SpFile> {
    match sp_filename(su) {
        PRes::Failed(e, k) => PRes::Failed(e, k),
        PRes::Parsed(path, su1) => if su1.len() >= 1 && su1[0] == '\t' {
            match sp_metadata_token(su1.skip(1)) {
                PRes::Failed(_, _) => PRes::Parsed(SpFile { path, meta: None }, su1),
                PRes::Parsed((m, wq), su2) => if !wq && (m.len() == 0 || (m.len() == 1 && m[0]
                    == '\t')) {
                    PRes::Parsed(SpFile { path, meta: None }, su2)
                } else {
                    PRes::Parsed(SpFile { path, meta: Some(sp_classify(m)) }, su2)
                },
            }
        } else {
            PRes::Parsed(SpFile { path, meta: None }, su1)
        },
    }
}

pub proof fn lemma_hlc_le(su: Seq<char>)
    ensures
        sp_header_line_content(su) matches PRes::Parsed(_, r) ==> r.len() <= su.len(),
{
    lemma_filename_le(su);
    if let PRes::Parsed(_, su1) = sp_filename(su) {
        lemma_metadata_le(su1.skip(1));
    }
}

/// The two header lines: everything before the first three dashes is
/// skipped, then `--- ` and the old file, a line ending, `+++ ` and the new
/// file, and a line ending.
pub open spec fn sp_headers(su: Seq<char>) -> PRes<(SpFile, SpFile)> {
    match sp_take_until_dashes(su) {
        PRes::Failed(e, k) => PRes::Failed(e, k),
        PRes::Parsed(_, su0) => match sp_tag(su0, ("--- ")@) {
            PRes::Failed(e, k) => PRes::Failed(e, k),
            PRes::Parsed(_, su1) => match sp_header_line_content(su1) {
                PRes::Failed(e, k) => PRes::Failed(e, k),
                PRes::Parsed(old, su2) => match sp_line_ending(su2) {
                    PRes::Failed(e, k) => PRes::Failed(e, k),
                    PRes::Parsed(_, su3) => match sp_tag(su3, ("+++ ")@) {
                        PRes::Failed(e, k) => PRes::Failed(e, k),
                        PRes::Parsed(_, su4) => match sp_header_line_content(su4) {
                            PRes::Failed(e, k) => PRes::Failed(e, k),
                            PRes::Parsed(new, su5) => match sp_line_ending(su5) {
                                PRes::Failed(e, k) => PRes::Failed(e, k),
                                PRes::Parsed(_, su6) => PRes::Parsed((old, new), su6),
                            },
                        },
                    },
                },
            },
        },
    }
}

/// A hunk header: `@@ -`, the old range, ` +`, the new range, ` @@`, the
/// verbatim hint up to the line ending, and the line ending.
pub open spec fn sp_chunk_header(su: Seq<char>) -> PRes<(Range, Range, Seq<char>)> {
    match sp_tag(su, ("@@ -")@) {
        PRes::Failed(e, k) => PRes::Failed(e, k),
        PRes::Parsed(_, su1) => match sp_range(su1) {
            PRes::Failed(e, k) => PRes::Failed(e, k),
            PRes::Parsed(old_range, su2) => match sp_tag(su2, (" +")@) {
                PRes::Failed(e, k) => PRes::Failed(e, k),
                PRes::Parsed(_, su3) => match sp_range(su3) {
                    PRes::Failed(e, k) => PRes::Failed(e, k),
                    PRes::Parsed(new_range, su4) => match sp_tag(su4, (" @@")@) {
                        PRes::Failed(e, k) => PRes::Failed(e, k),
                        PRes::Parsed(_, su5) => match sp_not_line_ending(su5) {
                            PRes::Failed(e, k) => PRes::Failed(e, k),
                            PRes::Parsed(hint, su6) => match sp_line_ending(su6) {
                                PRes::Failed(e, k) => PRes::Failed(e, k),
                                PRes::Parsed(_, su7) => PRes::Parsed((old_range, new_range, hint), su7),
                            },
                        },
                    },
                },
            },
        },
    }
}

/// One content line after its prefix character: the rest of the line, which
/// must be closed by a line ending.
pub open spec fn sp_content_line(su: Seq<char>) -> PRes<Seq<char>> {
    match sp_not_line_ending(su) {
        PRes::Failed(e, k) => PRes::Failed(e, k),
        PRes::Parsed(t, su1) => match sp_line_ending(su1) {
            PRes::Failed(e, k) => PRes::Failed(e, k),
            PRes::Parsed(_, su2) => PRes::Parsed(t, su2),
        },
    }
}

pub proof fn lemma_content_line_lt(su: Seq<char>)
    ensures
        sp_content_line(su) matches PRes::Parsed(_, r) ==> r.len() < su.len(),
{
    lemma_line_len_le(su);
}

/// One classified content line: `+` (not opening `+++ `), `-` (not opening
/// `--- `), or a space, followed by the line's text. A line whose first
/// alternative matches but whose text is not closed by a line ending fails
/// as the space alternative does.
pub open spec fn sp_chunk_line(su: Seq<char>) -> PRes<SpLine> {
    if su.len() >= 1 && su[0] == '+' && !(("++ ")@.is_prefix_of(su.skip(1))) && sp_content_line(
        su.skip(1),
    ) is Parsed {
        match sp_content_line(su.skip(1)) {
            PRes::Parsed(t, r) => PRes::Parsed(SpLine::Add(t), r),
            PRes::Failed(e, k) => PRes::Failed(e, k),
        }
    } else if su.len() >= 1 && su[0] == '-' && !(("-- ")@.is_prefix_of(su.skip(1)))
        && sp_content_line(su.skip(1)) is Parsed {
        match sp_content_line(su.skip(1)) {
            PRes::Parsed(t, r) => PRes::Parsed(SpLine::Remove(t), r),
            PRes::Failed(e, k) => PRes::Failed(e, k),
        }
    } else if su.len() >= 1 && su[0] == ' ' {
        match sp_content_line(su.skip(1)) {
            PRes::Parsed(t, r) => PRes::Parsed(SpLine::Context(t), r),
            PRes::Failed(e, k) => PRes::Failed(e, k),
        }
    } else {
        PRes::Failed(su, ParseErrorKind::Char)
    }
}

pub proof fn lemma_chunk_line_lt(su: Seq<char>)
    ensures
        sp_chunk_line(su) matches PRes::Parsed(_, r) ==> r.len() < su.len(),
{
    if su.len() >= 1 {
        lemma_content_line_lt(su.skip(1));
    }
}

/// Zero or more further content lines, as many as match.
pub open spec fn sp_lines_more(su: Seq<char>) -> (Seq<SpLine>, Seq<char>)
    decreases su.len(),
{
    match sp_chunk_line(su) {
        PRes::Failed(_, _) => (Seq::empty(), su),
        PRes::Parsed(l, r) => if r.len() < su.len() {
            let (ls, r2) = sp_lines_more(r);
            (seq![l] + ls, r2)
        } else {
            // Unreachable: a content line always consumes its line ending.
            // The length test keeps the recursion visibly bounded.
            (seq![l], r)
        },
    }
}

/// One hunk: a hunk header followed by one or more content lines.
pub open spec fn sp_chunk(su: Seq<char>) -> PRes<SpHunk> {
    match sp_chunk_header(su) {
        PRes::Failed(e, k) => PRes::Failed(e, k),
        PRes::Parsed((old_range, new_range, hint), su1) => match sp_chunk_line(su1) {
            PRes::Failed(e, k) => PRes::Failed(e, k),
            PRes::Parsed(l, su2) => {
                let (ls, su3) = sp_lines_more(su2);
                PRes::Parsed(
                    SpHunk { old_range, new_range, range_hint: hint, lines: seq![l] + ls },
                    su3,
                )
            },
        },
    }
}

pub proof fn lemma_lines_more_le(su: Seq<char>)
    ensures
        sp_lines_more(su).1.len() <= su.len(),
    decreases su.len(),
{
    lemma_chunk_line_lt(su);
    if let PRes::Parsed(l, r) = sp_chunk_line(su) {
        if r.len() < su.len() {
            lemma_lines_more_le(r);
        }
    }
}

pub proof fn lemma_chunk_lt(su: Seq<char>)
    ensures
        sp_chunk(su) matches PRes::Parsed(_, r) ==> r.len() < su.len(),
{
    if let PRes::Parsed(h, su1) = sp_chunk_header(su) {
        lemma_chunk_header_le(su);
        lemma_chunk_line_lt(su1);
        if let PRes::Parsed(l, su2) = sp_chunk_line(su1) {
            lemma_lines_more_le(su2);
        }
    }
}

pub proof fn lemma_chunk_header_le(su: Seq<char>)
    ensures
        sp_chunk_header(su) matches PRes::Parsed(_, r) ==> r.len() < su.len(),
{
    reveal_strlit("@@ -");
    if let PRes::Parsed(_, su1) = sp_tag(su, ("@@ -")@) {
        lemma_range_le(su1);
        if let PRes::Parsed(_, su2) = sp_range(su1) {
            if let PRes::Parsed(_, su3) = sp_tag(su2, (" +")@) {
                lemma_range_le(su3);
                if let PRes::Parsed(_, su4) = sp_range(su3) {
                    if let PRes::Parsed(_, su5) = sp_tag(su4, (" @@")@) {
                        lemma_line_len_le(su5);
                    }
                }
            }
        }
    }
}

/// Zero or more further hunks, as many as match.
pub open spec fn sp_chunks_more(su: Seq<char>) -> (Seq<SpHunk>, Seq<char>)
    decreases su.len(),
{
    match sp_chunk(su) {
        PRes::Failed(_, _) => (Seq::empty(), su),
        PRes::Parsed(h, r) => if r.len() < su.len() {
            let (hs, r2) = sp_chunks_more(r);
            (seq![h] + hs, r2)
        } else {
            // Unreachable: a hunk always consumes at least its header tag.
            // The length test keeps the recursion visibly bounded.
            (seq![h], r)
        },
    }
}

/// One or more hunks.
pub open spec fn sp_chunks(su: Seq<char>) -> PRes<Seq<SpHunk>> {
    match sp_chunk(su) {
        PRes::Failed(e, k) => PRes::Failed(e, k),
        PRes::Parsed(h, r) => {
            let (hs, r2) = sp_chunks_more(r);
            PRes::Parsed(seq![h] + hs, r2)
        },
    }
}

pub proof fn lemma_chunks_more_le(su: Seq<char>)
    ensures
        sp_chunks_more(su).1.len() <= su.len(),
    decreases su.len(),
{
    lemma_chunk_lt(su);
    if let PRes::Parsed(h, r) = sp_chunk(su) {
        if r.len() < su.len() {
            lemma_chunks_more_le(r);
        }
    }
}

/// The literal marker line that records a missing final newline.
pub open spec fn marker_text() -> Seq<char> {
    ("\\ No newline at end of file")@
}

/// The optional no-newline marker, followed by an optional line ending.
/// Yields whether the marker was present.
pub open spec fn sp_marker(su: Seq<char>) -> (bool, Seq<char>) {
    if marker_text().is_prefix_of(su) {
        let r = su.skip(marker_text().len() as int);
        match sp_line_ending(r) {
            PRes::Parsed(_, r2) => (true, r2),
            PRes::Failed(_, _) => (true, r),
        }
    } else {
        (false, su)
    }
}

pub proof fn lemma_marker_le(su: Seq<char>)
    ensures
        sp_marker(su).1.len() <= su.len(),
{
    reveal_strlit("\\ No newline at end of file");
}

/// Any number of trailing line endings.
pub open spec fn sp_blank_lines(su: Seq<char>) -> Seq<char>
    decreases su.len(),
{
    match sp_line_ending(su) {
        PRes::Parsed(_, r) => sp_blank_lines(r),
        PRes::Failed(_, _) => su,
    }
}

pub proof fn lemma_blank_lines_le(su: Seq<char>)
    ensures
        sp_blank_lines(su).len() <= su.len(),
    decreases su.len(),
{
    if let PRes::Parsed(_, r) = sp_line_ending(su) {
        lemma_blank_lines_le(r);
    }
}

/// One complete patch: the two header lines, one or more hunks, the
/// optional no-newline marker, and any trailing blank lines.
pub open spec fn sp_patch(su: Seq<char>) -> PRes<SpPatch> {
    match sp_headers(su) {
        PRes::Failed(e, k) => PRes::Failed(e, k),
        PRes::Parsed((old, new), su1) => match sp_chunks(su1) {
            PRes::Failed(e, k) => PRes::Failed(e, k),
            PRes::Parsed(hunks, su2) => {
                let (mark, su3) = sp_marker(su2);
                let su4 = sp_blank_lines(su3);
                PRes::Parsed(SpPatch { old, new, hunks, end_newline: !mark }, su4)
            },
        },
    }
}

pub proof fn lemma_headers_lt(su: Seq<char>)
    ensures
        sp_headers(su) matches PRes::Parsed(_, r) ==> r.len() < su.len(),
{
    reveal_strlit("--- ");
    reveal_strlit("+++ ");
    lemma_find_dashes_le(su);
    if let PRes::Parsed(_, su0) = sp_take_until_dashes(su) {
        if let PRes::Parsed(_, su1) = sp_tag(su0, ("--- ")@) {
            lemma_hlc_le(su1);
            if let PRes::Parsed(_, su2) = sp_header_line_content(su1) {
                if let PRes::Parsed(_, su3) = sp_line_ending(su2) {
                    if let PRes::Parsed(_, su4) = sp_tag(su3, ("+++ ")@) {
                        lemma_hlc_le(su4);
                        if let PRes::Parsed(_, su5) = sp_header_line_content(su4) {
                        }
                    }
                }
            }
        }
    }
}

pub proof fn lemma_patch_lt(su: Seq<char>)
    ensures
        sp_patch(su) matches PRes::Parsed(_, r) ==> r.len() < su.len(),
{
    lemma_headers_lt(su);
    if let PRes::Parsed(_, su1) = sp_headers(su) {
        lemma_chunk_lt(su1);
        if let PRes::Parsed(_, r) = sp_chunk(su1) {
            lemma_chunks_more_le(r);
        }
        if let PRes::Parsed(_, su2) = sp_chunks(su1) {
            lemma_marker_le(su2);
            lemma_blank_lines_le(sp_marker(su2).1);
        }
    }
}

/// Zero or more further patches, as many as match, together with the
/// failure that ended the run.
pub open spec fn sp_patches_more(su: Seq<char>) -> (Seq<SpPatch>, Seq<char>, (
    Seq<char>,
    ParseErrorKind,
))
    decreases su.len(),
{
    match sp_patch(su) {
        PRes::Failed(e, k) => (Seq::empty(), su, (e, k)),
        PRes::Parsed(p, r) => if r.len() < su.len() {
            let (ps, r2, err) = sp_patches_more(r);
            (seq![p] + ps, r2, err)
        } else {
            // Unreachable: a patch always consumes at least its headers.
            // The length test keeps the recursion visibly bounded.
            (seq![p], r, (r, ParseErrorKind::Tag))
        },
    }
}

/// A single complete patch; anything at all left after it is a failure.
pub open spec fn sp_parse_one(s: Seq<char>) -> Result<SpPatch, (Seq<char>, ParseErrorKind)> {
    match sp_patch(s) {
        PRes::Failed(e, k) => Err((e, k)),
        PRes::Parsed(p, rest) => if rest.len() == 0 {
            Ok(p)
        } else {
            Err((rest, ParseErrorKind::TrailingInput))
        },
    }
}

/// One or more concatenated patches covering the whole input. When the
/// input ends early, the failure that stopped the run is reported.
pub open spec fn sp_parse_all(s: Seq<char>) -> Result<Seq<SpPatch>, (Seq<char>, ParseErrorKind)> {
    match sp_patch(s) {
        PRes::Failed(e, k) => Err((e, k)),
        PRes::Parsed(p, r) => {
            let (ps, rest, err) = sp_patches_more(r);
            if rest.len() == 0 {
                Ok(seq![p] + ps)
            } else {
                Err(err)
            }
        },
    }
}

} // verus!

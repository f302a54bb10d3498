//! The serializer: renders the structured representation back to Unified
//! Format text. Every executable renderer is verified against a spec-level
//! rendering function; the parser's grammar reads the rendered text back.

use vstd::prelude::*;

use crate::ast::{
    File, FileMetadata, Hunk, Line, Patch, Range, SpFile, SpHunk, SpLine, SpMeta, SpPatch,
    Timestamp,
};
use crate::grammar::marker_text;
use crate::text::{dec_str, push_char, str_to_chars};

verus! {

/// The characters that force a string to be rendered as a quoted string.
pub open spec fn quote_trigger(c: char) -> bool {
    c == ' ' || c == '\t' || c == '\r' || c == '\n' || c == '"' || c == '\u{0}' || c == '\\'
}

/// Whether a string must be quoted when rendered.
pub open spec fn sp_needs_quote(s: Seq<char>) -> bool {
    exists|i: int| 0 <= i < s.len() && quote_trigger(s[i])
}

/// The rendering of one character inside a quoted string.
pub open spec fn sp_escape_char(c: char) -> Seq<char> {
    if c == '\u{0}' {
        seq!['\\', '0']
    } else if c == '\n' {
        seq!['\\', 'n']
    } else if c == '\r' {
        seq!['\\', 'r']
    } else if c == '\t' {
        seq!['\\', 't']
    } else if c == '"' {
        seq!['\\', '"']
    } else if c == '\\' {
        seq!['\\', '\\']
    } else {
        seq![c]
    }
}

/// The escaped body of a quoted string.
pub open spec fn sp_escape(s: Seq<char>) -> Seq<char>
    decreases s.len(),
{
    if s.len() == 0 {
        Seq::empty()
    } else {
        sp_escape_char(s[0]) + sp_escape(s.skip(1))
    }
}

pub proof fn lemma_escape_snoc(s: Seq<char>, c: char)
    ensures
        sp_escape(s.push(c)) == sp_escape(s) + sp_escape_char(c),
    decreases s.len(),
{
    if s.len() == 0 {
        assert(s.push(c).skip(1) =~= Seq::<char>::empty());
        assert(s.push(c)[0] == c);
        assert(sp_escape(Seq::<char>::empty()) =~= Seq::<char>::empty());
        assert(sp_escape(s.push(c)) =~= sp_escape_char(c));
        assert(sp_escape(s) + sp_escape_char(c) =~= sp_escape_char(c));
    } else {
        lemma_escape_snoc(s.skip(1), c);
        assert(s.push(c).skip(1) =~= s.skip(1).push(c));
        assert(sp_escape(s.push(c)) == sp_escape_char(s[0]) + sp_escape(s.skip(1).push(c)));
        assert(sp_escape_char(s[0]) + (sp_escape(s.skip(1)) + sp_escape_char(c)) =~= (
        sp_escape_char(s[0]) + sp_escape(s.skip(1))) + sp_escape_char(c));
    }
}

/// A string as the serializer writes it: quoted and escaped when it holds a
/// character that demands it, verbatim otherwise.
pub open spec fn sp_quote(s: Seq<char>) -> Seq<char> {
    if sp_needs_quote(s) {
        seq!['"'] + sp_escape(s) + seq!['"']
    } else {
        s
    }
}

/// The rendering of a hunk range: start, a comma, and the count.
pub open spec fn sp_render_range(r: Range) -> Seq<char> {
    dec_str(r.start as nat) + seq![','] + dec_str(r.count as nat)
}

/// A number zero-padded to the given width.
pub open spec fn sp_pad(n: nat, w: nat) -> Seq<char> {
    if dec_str(n).len() >= w {
        dec_str(n)
    } else {
        Seq::new((w - dec_str(n).len()) as nat, |i: int| '0') + dec_str(n)
    }
}

/// The year of a timestamp as it is rendered: four digits, zero-padded,
/// with a sign when the year is negative or has more than four digits.
pub open spec fn sp_render_year(y: int) -> Seq<char> {
    if 0 <= y <= 9999 {
        sp_pad(y as nat, 4)
    } else if y > 9999 {
        seq!['+'] + dec_str(y as nat)
    } else {
        seq!['-'] + sp_pad((-y) as nat, 4)
    }
}

/// The sub-second digits of a timestamp as they are rendered: nothing when
/// zero; otherwise a dot and the shortest of three, six or nine digits that
/// loses nothing.
pub open spec fn sp_render_frac(nanosecond: int) -> Seq<char> {
    let nano = nanosecond % 1000000000;
    if nano == 0 {
        Seq::empty()
    } else if nano % 1000000 == 0 {
        seq!['.'] + sp_pad((nano / 1000000) as nat, 3)
    } else if nano % 1000 == 0 {
        seq!['.'] + sp_pad((nano / 1000) as nat, 6)
    } else {
        seq!['.'] + sp_pad(nano as nat, 9)
    }
}

/// The offset of a timestamp as it is rendered: a sign, then hours and
/// minutes as two digits each, the seconds rounded to the nearest minute.
pub open spec fn sp_render_off(off: int) -> Seq<char> {
    let sign: char = if off < 0 {
        '-'
    } else {
        '+'
    };
    let a = if off < 0 {
        -off
    } else {
        off
    };
    let minutes = (a + 30) / 60;
    seq![sign] + sp_pad((minutes / 60) as nat, 2) + sp_pad((minutes % 60) as nat, 2)
}

/// The date and time-of-day part of a rendered timestamp, up to the
/// seconds.
pub open spec fn sp_render_ymd_hms(ts: Timestamp) -> Seq<char> {
    sp_render_year(ts.year as int) + seq!['-'] + sp_pad(ts.month as nat, 2) + seq!['-'] + sp_pad(
        ts.day as nat,
        2,
    ) + seq![' '] + sp_pad(ts.hour as nat, 2) + seq![':'] + sp_pad(ts.minute as nat, 2)
        + seq![':'] + sp_pad((ts.second + ts.nanosecond / 1000000000) as nat, 2)
}

/// A timestamp as the serializer writes it: date, time with sub-second
/// digits as far as they carry information, and the offset from UTC.
pub open spec fn sp_render_ts(ts: Timestamp) -> Seq<char> {
    sp_render_ymd_hms(ts) + sp_render_frac(ts.nanosecond as int) + seq![' '] + sp_render_off(
        ts.offset_seconds as int,
    )
}

/// File metadata as the serializer writes it.
pub open spec fn sp_render_meta(m: SpMeta) -> Seq<char> {
    match m {
        SpMeta::DateTime(ts) => sp_render_ts(ts),
        SpMeta::Other(o) => sp_quote(o),
    }
}

/// One side of the header: the path, then a tab and the metadata if any.
pub open spec fn sp_render_file(f: SpFile) -> Seq<char> {
    sp_quote(f.path) + match f.meta {
        Some(m) => seq!['\t'] + sp_render_meta(m),
        None => Seq::empty(),
    }
}

/// One content line with its prefix character.
pub open spec fn sp_render_line(l: SpLine) -> Seq<char> {
    match l {
        SpLine::Add(t) => seq!['+'] + t,
        SpLine::Remove(t) => seq!['-'] + t,
        SpLine::Context(t) => seq![' '] + t,
    }
}

/// The content lines of a hunk, each preceded by a newline.
pub open spec fn sp_render_lines(ls: Seq<SpLine>) -> Seq<char>
    decreases ls.len(),
{
    if ls.len() == 0 {
        Seq::empty()
    } else {
        seq!['\n'] + sp_render_line(ls[0]) + sp_render_lines(ls.skip(1))
    }
}

pub proof fn lemma_render_lines_snoc(ls: Seq<SpLine>, l: SpLine)
    ensures
        sp_render_lines(ls.push(l)) == sp_render_lines(ls) + seq!['\n'] + sp_render_line(l),
    decreases ls.len(),
{
    if ls.len() == 0 {
        assert(ls.push(l).skip(1) =~= Seq::<SpLine>::empty());
        assert(ls.push(l)[0] == l);
        assert(sp_render_lines(Seq::<SpLine>::empty()) =~= Seq::<char>::empty());
        assert(sp_render_lines(ls.push(l)) =~= seq!['\n'] + sp_render_line(l));
        assert(sp_render_lines(ls) + seq!['\n'] + sp_render_line(l) =~= seq!['\n']
            + sp_render_line(l));
    } else {
        lemma_render_lines_snoc(ls.skip(1), l);
        assert(ls.push(l).skip(1) =~= ls.skip(1).push(l));
        assert(sp_render_lines(ls.push(l)) == seq!['\n'] + sp_render_line(ls[0])
            + sp_render_lines(ls.skip(1).push(l)));
        assert(seq!['\n'] + sp_render_line(ls[0]) + (sp_render_lines(ls.skip(1)) + seq!['\n']
            + sp_render_line(l)) =~= (seq!['\n'] + sp_render_line(ls[0]) + sp_render_lines(
            ls.skip(1),
        )) + seq!['\n'] + sp_render_line(l));
    }
}

/// One hunk: its header line and its content lines.
pub open spec fn sp_render_hunk(h: SpHunk) -> Seq<char> {
    ("@@ -")@ + sp_render_range(h.old_range) + (" +")@ + sp_render_range(h.new_range) + (" @@")@
        + h.range_hint + sp_render_lines(h.lines)
}

/// The hunks of a patch, each preceded by a newline.
pub open spec fn sp_render_hunks(hs: Seq<SpHunk>) -> Seq<char>
    decreases hs.len(),
{
    if hs.len() == 0 {
        Seq::empty()
    } else {
        seq!['\n'] + sp_render_hunk(hs[0]) + sp_render_hunks(hs.skip(1))
    }
}

pub proof fn lemma_render_hunks_snoc(hs: Seq<SpHunk>, h: SpHunk)
    ensures
        sp_render_hunks(hs.push(h)) == sp_render_hunks(hs) + seq!['\n'] + sp_render_hunk(h),
    decreases hs.len(),
{
    if hs.len() == 0 {
        assert(hs.push(h).skip(1) =~= Seq::<SpHunk>::empty());
        assert(hs.push(h)[0] == h);
        assert(sp_render_hunks(Seq::<SpHunk>::empty()) =~= Seq::<char>::empty());
        assert(sp_render_hunks(hs.push(h)) =~= seq!['\n'] + sp_render_hunk(h));
        assert(sp_render_hunks(hs) + seq!['\n'] + sp_render_hunk(h) =~= seq!['\n']
            + sp_render_hunk(h));
    } else {
        lemma_render_hunks_snoc(hs.skip(1), h);
        assert(hs.push(h).skip(1) =~= hs.skip(1).push(h));
        assert(sp_render_hunks(hs.push(h)) == seq!['\n'] + sp_render_hunk(hs[0])
            + sp_render_hunks(hs.skip(1).push(h)));
        assert(seq!['\n'] + sp_render_hunk(hs[0]) + (sp_render_hunks(hs.skip(1)) + seq!['\n']
            + sp_render_hunk(h)) =~= (seq!['\n'] + sp_render_hunk(hs[0]) + sp_render_hunks(
            hs.skip(1),
        )) + seq!['\n'] + sp_render_hunk(h));
    }
}

/// A whole patch: the two header lines, the hunks, and the no-newline
/// marker when the patch does not end in a newline. No trailing newline is
/// written.
pub open spec fn sp_render_patch(p: SpPatch) -> Seq<char> {
    ("--- ")@ + sp_render_file(p.old) + seq!['\n'] + ("+++ ")@ + sp_render_file(p.new)
        + sp_render_hunks(p.hunks) + if p.end_newline {
        Seq::empty()
    } else {
        seq!['\n'] + marker_text()
    }
}


/// True when the character forces quoting, as executable code.
fn is_quote_trigger(c: char) -> (b: bool)
    ensures
        b == quote_trigger(c),
{
    c == ' ' || c == '\t' || c == '\r' || c == '\n' || c == '"' || c == '\u{0}' || c == '\\'
}

/// Appends the escaped rendering of one quoted-string character.
fn append_escaped_char(out: &mut String, c: char)
    ensures
        final(out)@ == old(out)@ + sp_escape_char(c),
{
    if c == '\u{0}' {
        push_char(out, '\\');
        push_char(out, '0');
    } else if c == '\n' {
        push_char(out, '\\');
        push_char(out, 'n');
    } else if c == '\r' {
        push_char(out, '\\');
        push_char(out, 'r');
    } else if c == '\t' {
        push_char(out, '\\');
        push_char(out, 't');
    } else if c == '"' {
        push_char(out, '\\');
        push_char(out, '"');
    } else if c == '\\' {
        push_char(out, '\\');
        push_char(out, '\\');
    } else {
        push_char(out, c);
    }
    proof {
        assert(final(out)@ =~= old(out)@ + sp_escape_char(c));
    }
}

/// Check whether a string needs to be quoted, and format it accordingly:
/// quoted and escaped when it holds a space, tab, carriage return, line
/// feed, double quote, NUL or backslash, verbatim otherwise.
pub fn maybe_escape_quote(s: &str) -> (r: String)
    ensures
        r@ == sp_quote(s@),
{
    let v = str_to_chars(s);
    let n = v.len();
    let mut found = false;
    let mut i: usize = 0;
    while i < n
        invariant
            i <= n == v@.len(),
            v@ == s@,
            found == sp_needs_quote(v@.take(i as int)),
        decreases n - i,
    {
        proof {
            assert(forall|k: int| 0 <= k < i ==> v@.take(i as int + 1)[k] == v@.take(i as int)[k]);
            assert(v@.take(i as int + 1)[i as int] == v@[i as int]);
        }
        if is_quote_trigger(v[i]) {
            found = true;
        }
        proof {
            if found != sp_needs_quote(v@.take(i as int + 1)) {
                if found {
                    assert(sp_needs_quote(v@.take(i as int + 1)));
                } else {
                    let w = choose|k: int|
                        0 <= k < v@.take(i as int + 1).len() && #[trigger] quote_trigger(
                            v@.take(i as int + 1)[k],
                        );
                    assert(quote_trigger(v@.take(i as int)[w]) || w == i);
                }
            }
        }
        i = i + 1;
    }
    proof {
        assert(v@.take(n as int) =~= s@);
    }
    if !found {
        s.to_owned()
    } else {
        let mut out = String::new();
        push_char(&mut out, '"');
        let mut k: usize = 0;
        while k < n
            invariant
                k <= n == v@.len(),
                v@ == s@,
                out@ == seq!['"'] + sp_escape(v@.take(k as int)),
            decreases n - k,
        {
            proof {
                assert(v@.take(k as int + 1) =~= v@.take(k as int).push(v@[k as int]));
                lemma_escape_snoc(v@.take(k as int), v@[k as int]);
            }
            append_escaped_char(&mut out, v[k]);
            proof {
                assert(out@ =~= seq!['"'] + sp_escape(v@.take(k as int + 1)));
            }
            k = k + 1;
        }
        push_char(&mut out, '"');
        proof {
            assert(out@ =~= seq!['"'] + sp_escape(s@) + seq!['"']);
        }
        out
    }
}

/// The length of a decimal rendering, by value ranges.
proof fn lemma_dec_str_len(n: nat)
    ensures
        n < 10 ==> dec_str(n).len() == 1,
        10 <= n < 100 ==> dec_str(n).len() == 2,
        100 <= n < 1000 ==> dec_str(n).len() == 3,
        1000 <= n < 10000 ==> dec_str(n).len() == 4,
        10000 <= n < 100000 ==> dec_str(n).len() == 5,
        100000 <= n < 1000000 ==> dec_str(n).len() == 6,
        1000000 <= n < 10000000 ==> dec_str(n).len() == 7,
        10000000 <= n < 100000000 ==> dec_str(n).len() == 8,
        100000000 <= n < 1000000000 ==> dec_str(n).len() == 9,
        n >= 1000000000 ==> dec_str(n).len() >= 10,
    decreases n,
{
    if n >= 10 {
        lemma_dec_str_len(n / 10);
    }
}

/// Appends `n` zero-padded to width `w`.
fn append_pad(out: &mut String, n: u64, w: usize)
    requires
        w <= 9,
    ensures
        final(out)@ == old(out)@ + crate::render::sp_pad(n as nat, w as nat),
{
    proof {
        lemma_dec_str_len(n as nat);
    }
    let len: usize = if n < 10 {
        1
    } else if n < 100 {
        2
    } else if n < 1000 {
        3
    } else if n < 10000 {
        4
    } else if n < 100000 {
        5
    } else if n < 1000000 {
        6
    } else if n < 10000000 {
        7
    } else if n < 100000000 {
        8
    } else {
        9
    };
    let zeros: usize = if n >= 1000000000 || len >= w {
        0
    } else {
        w - len
    };
    let mut z: usize = 0;
    while z < zeros
        invariant
            z <= zeros <= 9,
            out@ == old(out)@ + Seq::new(z as nat, |i: int| '0'),
        decreases zeros - z,
    {
        push_char(out, '0');
        proof {
            assert(out@ =~= old(out)@ + Seq::new(z as nat + 1, |i: int| '0'));
        }
        z = z + 1;
    }
    crate::text::append_dec_u64(out, n);
    proof {
        assert(final(out)@ =~= old(out)@ + crate::render::sp_pad(n as nat, w as nat));
    }
}

/// Appends the rendering of a hunk range.
fn append_range(out: &mut String, r: &Range)
    ensures
        final(out)@ == old(out)@ + sp_render_range(*r),
{
    crate::text::append_dec_u64(out, r.start);
    push_char(out, ',');
    crate::text::append_dec_u64(out, r.count);
    proof {
        assert(final(out)@ =~= old(out)@ + sp_render_range(*r));
    }
}

/// Appends the rendered year of a timestamp.
fn append_year(out: &mut String, y: i32)
    ensures
        final(out)@ == old(out)@ + sp_render_year(y as int),
{
    if 0 <= y && y <= 9999 {
        append_pad(out, y as u64, 4);
    } else if y > 9999 {
        push_char(out, '+');
        crate::text::append_dec_u64(out, y as u64);
        proof {
            assert(final(out)@ =~= old(out)@ + sp_render_year(y as int));
        }
    } else {
        push_char(out, '-');
        let a = -(y as i64);
        append_pad(out, a as u64, 4);
        proof {
            assert(final(out)@ =~= old(out)@ + sp_render_year(y as int));
        }
    }
}

/// Appends the date and time-of-day of a timestamp.
#[verifier::rlimit(60)]
fn append_ymd_hms(out: &mut String, ts: &Timestamp)
    ensures
        final(out)@ == old(out)@ + sp_render_ymd_hms(*ts),
{
    append_year(out, ts.year);
    push_char(out, '-');
    append_pad(out, ts.month as u64, 2);
    push_char(out, '-');
    append_pad(out, ts.day as u64, 2);
    push_char(out, ' ');
    append_pad(out, ts.hour as u64, 2);
    push_char(out, ':');
    append_pad(out, ts.minute as u64, 2);
    push_char(out, ':');
    append_pad(out, ts.second as u64 + (ts.nanosecond / 1000000000) as u64, 2);
    proof {
        assert(final(out)@ =~= old(out)@ + sp_render_ymd_hms(*ts));
    }
}

/// Appends the sub-second digits of a timestamp, if any.
fn append_frac(out: &mut String, nanosecond: u32)
    ensures
        final(out)@ == old(out)@ + sp_render_frac(nanosecond as int),
{
    let nano = nanosecond % 1000000000;
    if nano == 0 {
    } else if nano % 1000000 == 0 {
        push_char(out, '.');
        append_pad(out, (nano / 1000000) as u64, 3);
    } else if nano % 1000 == 0 {
        push_char(out, '.');
        append_pad(out, (nano / 1000) as u64, 6);
    } else {
        push_char(out, '.');
        append_pad(out, nano as u64, 9);
    }
    proof {
        assert(final(out)@ =~= old(out)@ + sp_render_frac(nanosecond as int));
    }
}

/// Appends the rendered offset from UTC.
fn append_off(out: &mut String, off: i32)
    ensures
        final(out)@ == old(out)@ + sp_render_off(off as int),
{
    if off < 0 {
        push_char(out, '-');
    } else {
        push_char(out, '+');
    }
    let a: i64 = if off < 0 {
        -(off as i64)
    } else {
        off as i64
    };
    let minutes = (a + 30) / 60;
    append_pad(out, (minutes / 60) as u64, 2);
    append_pad(out, (minutes % 60) as u64, 2);
    proof {
        assert(final(out)@ =~= old(out)@ + sp_render_off(off as int));
    }
}

/// Appends the rendering of a timestamp.
fn append_ts(out: &mut String, ts: &Timestamp)
    ensures
        final(out)@ == old(out)@ + sp_render_ts(*ts),
{
    append_ymd_hms(out, ts);
    append_frac(out, ts.nanosecond);
    push_char(out, ' ');
    append_off(out, ts.offset_seconds);
    proof {
        assert(final(out)@ =~= old(out)@ + sp_render_ts(*ts));
    }
}

/// Appends the rendering of file metadata.
fn append_meta(out: &mut String, m: &FileMetadata)
    ensures
        final(out)@ == old(out)@ + sp_render_meta(m@),
{
    match m {
        FileMetadata::DateTime(ts) => append_ts(out, ts),
        FileMetadata::Other(o) => {
            let q = maybe_escape_quote(o.as_str());
            out.append(q.as_str());
        },
    }
}

/// Appends one side of the header.
fn append_file(out: &mut String, f: &File)
    ensures
        final(out)@ == old(out)@ + sp_render_file(f@),
{
    let q = maybe_escape_quote(f.path.as_str());
    out.append(q.as_str());
    match &f.meta {
        Some(m) => {
            push_char(out, '\t');
            append_meta(out, m);
        },
        None => {},
    }
    proof {
        assert(final(out)@ =~= old(out)@ + sp_render_file(f@));
    }
}

/// Appends one content line with its prefix character.
fn append_line(out: &mut String, l: &Line)
    ensures
        final(out)@ == old(out)@ + sp_render_line(l@),
{
    match l {
        Line::Add(t) => {
            push_char(out, '+');
            out.append(t.as_str());
        },
        Line::Remove(t) => {
            push_char(out, '-');
            out.append(t.as_str());
        },
        Line::Context(t) => {
            push_char(out, ' ');
            out.append(t.as_str());
        },
    }
    proof {
        assert(final(out)@ =~= old(out)@ + sp_render_line(l@));
    }
}

/// Appends the rendering of one hunk.
fn append_hunk(out: &mut String, h: &Hunk)
    ensures
        final(out)@ == old(out)@ + sp_render_hunk(h@),
{
    out.append("@@ -");
    append_range(out, &h.old_range);
    out.append(" +");
    append_range(out, &h.new_range);
    out.append(" @@");
    out.append(h.range_hint.as_str());
    let ghost base = out@;
    let n = h.lines.len();
    let mut k: usize = 0;
    while k < n
        invariant
            k <= n == h.lines@.len(),
            out@ == base + sp_render_lines(h.lines@.take(k as int).map_values(|l: Line| l@)),
        decreases n - k,
    {
        proof {
            let f = |l: Line| l@;
            assert(h.lines@.take(k as int + 1).map_values(f) =~= h.lines@.take(
                k as int,
            ).map_values(f).push(h.lines@[k as int]@));
            lemma_render_lines_snoc(
                h.lines@.take(k as int).map_values(f),
                h.lines@[k as int]@,
            );
        }
        push_char(out, '\n');
        append_line(out, &h.lines[k]);
        proof {
            assert(out@ =~= base + sp_render_lines(
                h.lines@.take(k as int + 1).map_values(|l: Line| l@),
            ));
        }
        k = k + 1;
    }
    proof {
        assert(h.lines@.take(n as int) =~= h.lines@);
        assert(final(out)@ =~= old(out)@ + sp_render_hunk(h@));
    }
}

impl Patch {
    /// Render this patch in the Unified Format, with no trailing newline.
    /// For input that was originally in the Unified Format with `\n` line
    /// endings, this reproduces the original text.
    pub fn render(&self) -> (r: String)
        ensures
            r@ == sp_render_patch(self@),
    {
        let mut out = String::new();
        out.append("--- ");
        append_file(&mut out, &self.old);
        push_char(&mut out, '\n');
        out.append("+++ ");
        append_file(&mut out, &self.new);
        let ghost base = out@;
        let n = self.hunks.len();
        let mut k: usize = 0;
        while k < n
            invariant
                k <= n == self.hunks@.len(),
                out@ == base + sp_render_hunks(
                    self.hunks@.take(k as int).map_values(|h: Hunk| h@),
                ),
            decreases n - k,
        {
            proof {
                let f = |h: Hunk| h@;
                assert(self.hunks@.take(k as int + 1).map_values(f) =~= self.hunks@.take(
                    k as int,
                ).map_values(f).push(self.hunks@[k as int]@));
                lemma_render_hunks_snoc(
                    self.hunks@.take(k as int).map_values(f),
                    self.hunks@[k as int]@,
                );
            }
            push_char(&mut out, '\n');
            append_hunk(&mut out, &self.hunks[k]);
            proof {
                assert(out@ =~= base + sp_render_hunks(
                    self.hunks@.take(k as int + 1).map_values(|h: Hunk| h@),
                ));
            }
            k = k + 1;
        }
        if !self.end_newline {
            push_char(&mut out, '\n');
            out.append("\\ No newline at end of file");
        }
        proof {
            assert(self.hunks@.take(n as int) =~= self.hunks@);
            assert(out@ =~= sp_render_patch(self@));
        }
        out
    }
}


/// An error message as it is rendered: the line number and the unparsed
/// rest of the input.
pub open spec fn sp_render_error(e: &crate::ast::ParseError) -> Seq<char> {
    ("Line ")@ + dec_str(e.line as nat) + (": Error while parsing: ")@ + e.fragment@
}

impl crate::ast::ParseError {
    /// A human-readable description of this error: the line where parsing
    /// stopped and the input that could not be parsed.
    pub fn message(&self) -> (r: String)
        ensures
            r@ == sp_render_error(self),
    {
        let mut out = String::new();
        out.append("Line ");
        crate::text::append_dec_u64(&mut out, self.line as u64);
        out.append(": Error while parsing: ");
        out.append(self.fragment.as_str());
        proof {
            assert(out@ =~= sp_render_error(self));
        }
        out
    }
}


/// A sequence of patches as a single diff stream: each patch's rendering
/// followed by a newline.
pub open spec fn sp_render_all(ps: Seq<SpPatch>) -> Seq<char>
    decreases ps.len(),
{
    if ps.len() == 0 {
        Seq::empty()
    } else {
        sp_render_patch(ps[0]) + seq!['\n'] + sp_render_all(ps.skip(1))
    }
}

pub proof fn lemma_render_all_snoc(ps: Seq<SpPatch>, p: SpPatch)
    ensures
        sp_render_all(ps.push(p)) == sp_render_all(ps) + sp_render_patch(p) + seq!['\n'],
    decreases ps.len(),
{
    if ps.len() == 0 {
        assert(ps.push(p).skip(1) =~= Seq::<SpPatch>::empty());
        assert(ps.push(p)[0] == p);
        assert(sp_render_all(Seq::<SpPatch>::empty()) =~= Seq::<char>::empty());
        assert(sp_render_all(ps.push(p)) =~= sp_render_patch(p) + seq!['\n']);
        assert(sp_render_all(ps) + sp_render_patch(p) + seq!['\n'] =~= sp_render_patch(p)
            + seq!['\n']);
    } else {
        lemma_render_all_snoc(ps.skip(1), p);
        assert(ps.push(p).skip(1) =~= ps.skip(1).push(p));
        assert(sp_render_all(ps.push(p)) == sp_render_patch(ps[0]) + seq!['\n']
            + sp_render_all(ps.skip(1).push(p)));
        assert(sp_render_patch(ps[0]) + seq!['\n'] + (sp_render_all(ps.skip(1))
            + sp_render_patch(p) + seq!['\n']) =~= (sp_render_patch(ps[0]) + seq!['\n']
            + sp_render_all(ps.skip(1))) + sp_render_patch(p) + seq!['\n']);
    }
}

/// Render a sequence of patches as one diff stream, each patch followed by
/// a newline.
pub fn render_all(patches: &Vec<Patch>) -> (r: String)
    ensures
        r@ == sp_render_all(patches@.map_values(|p: Patch| p@)),
{
    let mut out = String::new();
    let n = patches.len();
    let mut k: usize = 0;
    proof {
        assert(patches@.take(0).map_values(|p: Patch| p@) =~= Seq::<SpPatch>::empty());
        assert(sp_render_all(Seq::<SpPatch>::empty()) =~= Seq::<char>::empty());
    }
    while k < n
        invariant
            k <= n == patches@.len(),
            out@ == sp_render_all(patches@.take(k as int).map_values(|p: Patch| p@)),
        decreases n - k,
    {
        proof {
            let f = |p: Patch| p@;
            assert(patches@.take(k as int + 1).map_values(f) =~= patches@.take(
                k as int,
            ).map_values(f).push(patches@[k as int]@));
            lemma_render_all_snoc(
                patches@.take(k as int).map_values(f),
                patches@[k as int]@,
            );
        }
        let t = patches[k].render();
        out.append(t.as_str());
        push_char(&mut out, '\n');
        proof {
            assert(out@ =~= sp_render_all(
                patches@.take(k as int + 1).map_values(|p: Patch| p@),
            ));
        }
        k = k + 1;
    }
    proof {
        assert(patches@.take(n as int) =~= patches@);
    }
    out
}

} // verus!

//! The executable parser, verified clause by clause against the grammar in
//! [`crate::grammar`].
//!
//! The parser walks a character vector with an index; every function
//! relates its result to the corresponding grammar rule applied to the
//! suffix at its starting index.

use vstd::prelude::*;

use crate::ast::{
    File, FileMetadata, Hunk, Line, ParseError, ParseErrorKind, Patch, Range, SpFile, SpHunk,
    SpLine, SpPatch,
};
use crate::grammar::{
    esc_code, lemma_digit_run_le, qchar_bad, sp_bare_len, sp_digit_run, sp_filename,
    sp_line_ending, sp_line_len, sp_metadata_token, sp_not_line_ending, sp_qchars, sp_quoted,
    lemma_chunk_line_lt, lemma_chunk_lt, sp_blank_lines, sp_chunk, sp_chunk_header,
    sp_chunk_line, sp_chunks, sp_chunks_more, sp_classify, sp_content_line, sp_find_dashes,
    sp_header_line_content, sp_headers, sp_lines_more, sp_marker, sp_patch, sp_range, sp_tag,
    sp_parse_all, sp_parse_one, sp_patches_more, sp_u64, lemma_patch_lt, PRes,
};
use crate::text::{
    chars_substring, dec_val, digit_val, is_digit_char, line_of_prefix, push_char, sp_line_of,
    str_to_chars,
};
use crate::timestamp::chrono_parse;

verus! {

/// The suffix of the input that starts at index `i`.
pub open spec fn suf(v: Seq<char>, i: int) -> Seq<char> {
    v.skip(i)
}

/// An error position and the category of the rule that failed there.
type PErr = (usize, ParseErrorKind);

/// The index right after the leading run of characters before a carriage
/// return or line feed.
fn scan_line_len(v: &Vec<char>, i: usize) -> (j: usize)
    requires
        i <= v@.len(),
    ensures
        i <= j <= v@.len(),
        j - i == sp_line_len(suf(v@, i as int)),
{
    let n = v.len();
    let mut j: usize = i;
    while j < n && v[j] != '\n' && v[j] != '\r'
        invariant
            i <= j <= n == v@.len(),
            sp_line_len(suf(v@, i as int)) == (j - i) + sp_line_len(suf(v@, j as int)),
        decreases n - j,
    {
        proof {
            assert(suf(v@, j as int).skip(1) =~= suf(v@, j as int + 1));
        }
        j = j + 1;
    }
    proof {
        assert(sp_line_len(suf(v@, j as int)) == 0);
    }
    j
}

/// The index right after the leading run of ASCII decimal digits.
fn scan_digit_run(v: &Vec<char>, i: usize) -> (j: usize)
    requires
        i <= v@.len(),
    ensures
        i <= j <= v@.len(),
        j - i == sp_digit_run(suf(v@, i as int)),
{
    let n = v.len();
    let mut j: usize = i;
    while j < n && '0' <= v[j] && v[j] <= '9'
        invariant
            i <= j <= n == v@.len(),
            sp_digit_run(suf(v@, i as int)) == (j - i) + sp_digit_run(suf(v@, j as int)),
        decreases n - j,
    {
        proof {
            assert(suf(v@, j as int).skip(1) =~= suf(v@, j as int + 1));
        }
        j = j + 1;
    }
    proof {
        assert(sp_digit_run(suf(v@, j as int)) == 0);
    }
    j
}

/// The index right after the leading run of bare-token characters.
fn scan_bare_len(v: &Vec<char>, i: usize) -> (j: usize)
    requires
        i <= v@.len(),
    ensures
        i <= j <= v@.len(),
        j - i == sp_bare_len(suf(v@, i as int)),
{
    let n = v.len();
    let mut j: usize = i;
    while j < n && v[j] != '\t' && v[j] != '\r' && v[j] != '\n'
        invariant
            i <= j <= n == v@.len(),
            sp_bare_len(suf(v@, i as int)) == (j - i) + sp_bare_len(suf(v@, j as int)),
        decreases n - j,
    {
        proof {
            assert(suf(v@, j as int).skip(1) =~= suf(v@, j as int + 1));
        }
        j = j + 1;
    }
    proof {
        assert(sp_bare_len(suf(v@, j as int)) == 0);
    }
    j
}

/// A line ending.
fn p_line_ending(v: &Vec<char>, i: usize) -> (r: Result<usize, PErr>)
    requires
        i <= v@.len(),
    ensures
        match r {
            Ok(j) => i <= j <= v@.len() && sp_line_ending(suf(v@, i as int)) == PRes::<()>::Parsed(
                (),
                suf(v@, j as int),
            ),
            Err((e, k)) => i <= e <= v@.len() && sp_line_ending(suf(v@, i as int)) == PRes::<
                (),
            >::Failed(suf(v@, e as int), k),
        },
{
    let n = v.len();
    if i < n && v[i] == '\n' {
        proof {
            assert(suf(v@, i as int).skip(1) =~= suf(v@, i as int + 1));
        }
        Ok(i + 1)
    } else if n - i >= 2 && v[i] == '\r' && v[i + 1] == '\n' {
        proof {
            assert(suf(v@, i as int).skip(2) =~= suf(v@, i as int + 2));
        }
        Ok(i + 2)
    } else {
        Err((i, ParseErrorKind::CrLf))
    }
}

/// A fixed token.
fn p_tag(v: &Vec<char>, i: usize, t: &str) -> (r: Result<usize, PErr>)
    requires
        i <= v@.len(),
    ensures
        match r {
            Ok(j) => i <= j <= v@.len() && j - i == t@.len() && sp_tag(suf(v@, i as int), t@)
                == PRes::<()>::Parsed((), suf(v@, j as int)),
            Err((e, k)) => e == i && sp_tag(suf(v@, i as int), t@) == PRes::<()>::Failed(
                suf(v@, e as int),
                k,
            ),
        },
{
    let n = v.len();
    let tn = t.unicode_len();
    if n - i < tn {
        proof {
            assert(!t@.is_prefix_of(suf(v@, i as int)));
        }
        return Err((i, ParseErrorKind::Tag));
    }
    let mut k: usize = 0;
    while k < tn
        invariant
            i <= v@.len(),
            tn == t@.len(),
            tn <= v@.len() - i,
            n == v@.len(),
            k <= tn,
            forall|m: int| 0 <= m < k ==> suf(v@, i as int)[m] == t@[m],
        decreases tn - k,
    {
        if v[i + k] != t.get_char(k) {
            proof {
                assert(suf(v@, i as int)[k as int] != t@[k as int]);
                assert(!t@.is_prefix_of(suf(v@, i as int)));
            }
            return Err((i, ParseErrorKind::Tag));
        }
        k = k + 1;
    }
    proof {
        assert(t@ =~= suf(v@, i as int).subrange(0, t@.len() as int));
        assert(t@.is_prefix_of(suf(v@, i as int)));
        assert(suf(v@, i as int).skip(t@.len() as int) =~= suf(v@, (i + tn) as int));
    }
    Ok(i + tn)
}

/// The rest of the current line, not consuming its ending.
fn p_not_line_ending(v: &Vec<char>, i: usize) -> (r: Result<usize, PErr>)
    requires
        i <= v@.len(),
    ensures
        match r {
            Ok(j) => i <= j <= v@.len() && sp_not_line_ending(suf(v@, i as int)) == PRes::<
                Seq<char>,
            >::Parsed(v@.subrange(i as int, j as int), suf(v@, j as int)),
            Err((e, k)) => e == i && sp_not_line_ending(suf(v@, i as int)) == PRes::<
                Seq<char>,
            >::Failed(suf(v@, e as int), k),
        },
{
    let n = v.len();
    let j = scan_line_len(v, i);
    if j < n && v[j] == '\r' && !(j + 1 < n && v[j + 1] == '\n') {
        Err((i, ParseErrorKind::Tag))
    } else {
        proof {
            assert(suf(v@, i as int).take(j - i) =~= v@.subrange(i as int, j as int));
            assert(suf(v@, i as int).skip(j - i) =~= suf(v@, j as int));
        }
        Ok(j)
    }
}

/// If every character of `s` up to `k` is a digit, the denoted value only
/// grows with the prefix length.
proof fn lemma_dec_val_take_grows(s: Seq<char>, k: int)
    requires
        0 <= k <= s.len(),
    ensures
        dec_val(s) >= dec_val(s.take(k)),
    decreases s.len(),
{
    if k < s.len() {
        lemma_dec_val_take_grows(s.take(s.len() - 1), k);
        assert(s.take(s.len() - 1).take(k) =~= s.take(k));
    } else {
        assert(s.take(k) =~= s);
    }
}

/// An unsigned decimal number fitting in 64 bits.
fn p_u64(v: &Vec<char>, i: usize) -> (r: Result<(u64, usize), PErr>)
    requires
        i <= v@.len(),
    ensures
        match r {
            Ok((x, j)) => i <= j <= v@.len() && sp_u64(suf(v@, i as int)) == PRes::<u64>::Parsed(
                x,
                suf(v@, j as int),
            ),
            Err((e, k)) => e == i && sp_u64(suf(v@, i as int)) == PRes::<u64>::Failed(
                suf(v@, e as int),
                k,
            ),
        },
{
    let j = scan_digit_run(v, i);
    if j == i {
        return Err((i, ParseErrorKind::Digit));
    }
    let ghost run = suf(v@, i as int).take(j - i);
    proof {
        assert(run =~= v@.subrange(i as int, j as int));
    }
    let mut acc: u64 = 0;
    let mut k: usize = i;
    while k < j
        invariant
            i <= k <= j <= v@.len(),
            j - i == sp_digit_run(suf(v@, i as int)),
            run == suf(v@, i as int).take(j - i),
            run == v@.subrange(i as int, j as int),
            acc == dec_val(run.take(k - i)),
            dec_val(run.take(k - i)) <= u64::MAX,
        decreases j - k,
    {
        let c = v[k];
        proof {
            assert(run.take(k + 1 - i).take(k - i) =~= run.take(k - i));
            assert(run.take(k + 1 - i)[k - i] == v@[k as int]);
            assert(k - i < sp_digit_run(suf(v@, i as int)));
            assert(suf(v@, i as int)[k - i] == v@[k as int]);
            lemma_digit_run_is_digits(suf(v@, i as int), k - i);
        }
        let d: u64 = char_digit_value(c);
        if acc > (u64::MAX - d) / 10 {
            proof {
                assert(dec_val(run.take(k + 1 - i)) == 10 * dec_val(run.take(k - i)) + digit_val(
                    v@[k as int],
                ));
                assert(dec_val(run.take(k + 1 - i)) > u64::MAX);
                lemma_dec_val_take_grows(run, k + 1 - i);
            }
            return Err((i, ParseErrorKind::Digit));
        }
        proof {
            assert(dec_val(run.take(k + 1 - i)) == 10 * dec_val(run.take(k - i)) + digit_val(
                v@[k as int],
            ));
        }
        acc = acc * 10 + d;
        k = k + 1;
    }
    proof {
        assert(run.take(j - i) =~= run);
        assert(suf(v@, i as int).skip(j - i) =~= suf(v@, j as int));
    }
    Ok((acc, j))
}

/// The position `k` lies inside the leading digit run, so the character
/// there is a digit.
proof fn lemma_digit_run_is_digits(su: Seq<char>, k: int)
    requires
        0 <= k < sp_digit_run(su),
    ensures
        is_digit_char(su[k]),
    decreases k,
{
    lemma_digit_run_le(su);
    if k > 0 {
        lemma_digit_run_is_digits(su.skip(1), k - 1);
    }
}

/// The numeric value of a digit character.
fn char_digit_value(c: char) -> (d: u64)
    requires
        is_digit_char(c),
    ensures
        d == digit_val(c),
        d < 10,
{
    (c as u32 - 48) as u64
}

/// A hunk range.
fn p_range(v: &Vec<char>, i: usize) -> (r: Result<(Range, usize), PErr>)
    requires
        i <= v@.len(),
    ensures
        match r {
            Ok((x, j)) => i <= j <= v@.len() && sp_range(suf(v@, i as int)) == PRes::<
                Range,
            >::Parsed(x, suf(v@, j as int)),
            Err((e, k)) => e == i && sp_range(suf(v@, i as int)) == PRes::<Range>::Failed(
                suf(v@, e as int),
                k,
            ),
        },
{
    let n = v.len();
    match p_u64(v, i) {
        Err(e) => Err(e),
        Ok((start, i1)) => {
            if i1 < n && v[i1] == ',' {
                proof {
                    assert(suf(v@, i1 as int).skip(1) =~= suf(v@, i1 as int + 1));
                }
                match p_u64(v, i1 + 1) {
                    Ok((count, i2)) => Ok((Range { start, count }, i2)),
                    Err(_) => Ok((Range { start, count: 1 }, i1)),
                }
            } else {
                Ok((Range { start, count: 1 }, i1))
            }
        },
    }
}


/// The decoded counterpart of an escape code, as executable code.
fn esc_code_exec(c: char) -> (r: Option<char>)
    ensures
        r == esc_code(c),
{
    if c == '0' {
        Some('\u{0}')
    } else if c == 'n' {
        Some('\n')
    } else if c == 'r' {
        Some('\r')
    } else if c == 't' {
        Some('\t')
    } else if c == '"' {
        Some('"')
    } else if c == '\\' {
        Some('\\')
    } else {
        None
    }
}

/// True when the character may not stand unescaped in a quoted string.
fn qchar_bad_exec(c: char) -> (b: bool)
    ensures
        b == qchar_bad(c),
{
    c == '\u{0}' || c == '\n' || c == '\r' || c == '\t' || c == '\\' || c == '"'
}

/// The longest run of plain or escaped quoted-string characters, decoded.
fn p_qchars(v: &Vec<char>, i: usize) -> (r: (String, usize))
    requires
        i <= v@.len(),
    ensures
        ({
            let (d, j) = r;
            &&& i <= j <= v@.len()
            &&& sp_qchars(suf(v@, i as int)) == (d@, suf(v@, j as int))
            &&& (d@.len() == 0 <==> j == i)
        }),
{
    let n = v.len();
    let mut d = String::new();
    let mut k: usize = i;
    loop
        invariant
            i <= k <= n,
            n == v@.len(),
            sp_qchars(suf(v@, i as int)).0 == d@ + sp_qchars(suf(v@, k as int)).0,
            sp_qchars(suf(v@, i as int)).1 == sp_qchars(suf(v@, k as int)).1,
            d@.len() == 0 <==> k == i,
        ensures
            i <= k <= n,
            n == v@.len(),
            sp_qchars(suf(v@, i as int)).0 == d@,
            sp_qchars(suf(v@, i as int)).1 == suf(v@, k as int),
            d@.len() == 0 <==> k == i,
        decreases n - k,
    {
        if k < n && !qchar_bad_exec(v[k]) {
            proof {
                assert(suf(v@, k as int).skip(1) =~= suf(v@, k as int + 1));
            }
            push_char(&mut d, v[k]);
            proof {
                assert(sp_qchars(suf(v@, i as int)).0 =~= d@ + sp_qchars(
                    suf(v@, k as int + 1),
                ).0);
            }
            k = k + 1;
        } else if n - k >= 2 && v[k] == '\\' && esc_code_exec(v[k + 1]).is_some() {
            proof {
                assert(suf(v@, k as int).skip(2) =~= suf(v@, k as int + 2));
                assert(!(suf(v@, k as int).len() >= 1 && !qchar_bad(suf(v@, k as int)[0])));
            }
            let e = match esc_code_exec(v[k + 1]) {
                Some(e) => e,
                None => {
                    break ;  // unreachable: the guard tested the code
                },
            };
            push_char(&mut d, e);
            proof {
                assert(sp_qchars(suf(v@, i as int)).0 =~= d@ + sp_qchars(
                    suf(v@, k as int + 2),
                ).0);
            }
            k = k + 2;
        } else {
            proof {
                assert(sp_qchars(suf(v@, k as int)).0 =~= Seq::<char>::empty());
                assert(sp_qchars(suf(v@, k as int)).1 =~= suf(v@, k as int));
                assert(d@ + sp_qchars(suf(v@, k as int)).0 =~= d@);
            }
            break ;
        }
    }
    (d, k)
}

/// A quoted string, decoded; `None` when the input is not a well-formed
/// quoted string.
fn p_quoted(v: &Vec<char>, i: usize) -> (r: Option<(String, usize)>)
    requires
        i <= v@.len(),
    ensures
        match r {
            Some((d, j)) => i < j <= v@.len() && sp_quoted(suf(v@, i as int)) == Some(
                (d@, suf(v@, j as int)),
            ),
            None => sp_quoted(suf(v@, i as int)) is None,
        },
{
    let n = v.len();
    if !(i < n && v[i] == '"') {
        return None;
    }
    proof {
        assert(suf(v@, i as int).skip(1) =~= suf(v@, i as int + 1));
    }
    let (d, k) = p_qchars(v, i + 1);
    if k > i + 1 && k < n && v[k] == '"' {
        proof {
            assert(suf(v@, k as int).skip(1) =~= suf(v@, k as int + 1));
        }
        Some((d, k + 1))
    } else {
        None
    }
}

/// A file name token.
fn p_filename(v: &Vec<char>, i: usize) -> (r: Result<(String, usize), PErr>)
    requires
        i <= v@.len(),
    ensures
        match r {
            Ok((t, j)) => i <= j <= v@.len() && sp_filename(suf(v@, i as int)) == PRes::<
                Seq<char>,
            >::Parsed(t@, suf(v@, j as int)),
            Err((e, k)) => e == i && sp_filename(suf(v@, i as int)) == PRes::<Seq<char>>::Failed(
                suf(v@, e as int),
                k,
            ),
        },
{
    match p_quoted(v, i) {
        Some((d, j)) => Ok((d, j)),
        None => {
            let j = scan_bare_len(v, i);
            if j == i {
                Err((i, ParseErrorKind::IsNot))
            } else {
                let t = chars_substring(v, i, j);
                proof {
                    assert(suf(v@, i as int).take(j - i) =~= v@.subrange(i as int, j as int));
                    assert(suf(v@, i as int).skip(j - i) =~= suf(v@, j as int));
                }
                Ok((t, j))
            }
        },
    }
}

/// A metadata token: quoted, or the rest of the line verbatim. The boolean
/// reports which branch matched.
fn p_metadata_token(v: &Vec<char>, i: usize) -> (r: Result<(String, bool, usize), PErr>)
    requires
        i <= v@.len(),
    ensures
        match r {
            Ok((t, wq, j)) => i <= j <= v@.len() && sp_metadata_token(suf(v@, i as int)) == PRes::<
                (Seq<char>, bool),
            >::Parsed((t@, wq), suf(v@, j as int)),
            Err((e, k)) => e == i && sp_metadata_token(suf(v@, i as int)) == PRes::<
                (Seq<char>, bool),
            >::Failed(suf(v@, e as int), k),
        },
{
    match p_quoted(v, i) {
        Some((d, j)) => Ok((d, true, j)),
        None => {
            match p_not_line_ending(v, i) {
                Ok(j) => {
                    let t = chars_substring(v, i, j);
                    Ok((t, false, j))
                },
                Err(e) => Err(e),
            }
        },
    }
}


/// The content of one header line: a file name and optional metadata.
fn p_header_line_content(v: &Vec<char>, i: usize) -> (r: Result<(File, usize), PErr>)
    requires
        i <= v@.len(),
    ensures
        match r {
            Ok((f, j)) => i <= j <= v@.len() && sp_header_line_content(suf(v@, i as int)) == PRes::<
                SpFile,
            >::Parsed(f@, suf(v@, j as int)),
            Err((e, k)) => e == i && sp_header_line_content(suf(v@, i as int)) == PRes::<
                SpFile,
            >::Failed(suf(v@, e as int), k),
        },
{
    let n = v.len();
    let (path, i1) = match p_filename(v, i) {
        Ok(x) => x,
        Err(e) => {
            return Err(e);
        },
    };
    if i1 < n && v[i1] == '\t' {
        proof {
            assert(suf(v@, i1 as int).skip(1) =~= suf(v@, i1 as int + 1));
        }
        match p_metadata_token(v, i1 + 1) {
            Err(_) => Ok((File { path, meta: None }, i1)),
            Ok((m, wq, i2)) => {
                let m_len = m.as_str().unicode_len();
                let lone_tab = m_len == 1 && m.as_str().get_char(0) == '\t';
                if !wq && (m_len == 0 || lone_tab) {
                    proof {
                        assert(m@.len() == 1 && m@[0] == '\t' ==> lone_tab);
                    }
                    Ok((File { path, meta: None }, i2))
                } else {
                    let meta = match chrono_parse(m.as_str(), "%F %T%.f %z") {
                        Some(ts) => FileMetadata::DateTime(ts),
                        None => match chrono_parse(m.as_str(), "%F %T %z") {
                            Some(ts) => FileMetadata::DateTime(ts),
                            None => FileMetadata::Other(m),
                        },
                    };
                    proof {
                        assert(meta@ == sp_classify(m@));
                    }
                    Ok((File { path, meta: Some(meta) }, i2))
                }
            },
        }
    } else {
        Ok((File { path, meta: None }, i1))
    }
}

/// The index of the first occurrence of three dashes at or after `i`.
fn scan_dashes(v: &Vec<char>, i: usize) -> (r: Option<usize>)
    requires
        i <= v@.len(),
    ensures
        match r {
            Some(j) => i <= j && j + 3 <= v@.len() && sp_find_dashes(suf(v@, i as int)) == Some(
                (j - i) as nat,
            ),
            None => sp_find_dashes(suf(v@, i as int)) is None,
        },
{
    let n = v.len();
    let mut j: usize = i;
    loop
        invariant
            i <= j <= n,
            n == v@.len(),
            (sp_find_dashes(suf(v@, i as int)) is Some <==> sp_find_dashes(
                suf(v@, j as int),
            ) is Some),
            sp_find_dashes(suf(v@, j as int)) is Some ==> sp_find_dashes(
                suf(v@, i as int),
            ).unwrap() == sp_find_dashes(suf(v@, j as int)).unwrap() + (j - i),
        ensures
            i <= j <= n,
            n == v@.len(),
            sp_find_dashes(suf(v@, i as int)) is Some ==> j + 3 <= n && sp_find_dashes(
                suf(v@, i as int),
            ) == Some((j - i) as nat),
            sp_find_dashes(suf(v@, i as int)) is None ==> n - j < 3,
        decreases n - j,
    {
        if n - j < 3 {
            proof {
                assert(sp_find_dashes(suf(v@, j as int)) is None);
            }
            break;
        }
        if v[j] == '-' && v[j + 1] == '-' && v[j + 2] == '-' {
            proof {
                assert(sp_find_dashes(suf(v@, j as int)) == Some(0nat));
            }
            break;
        }
        proof {
            assert(suf(v@, j as int).skip(1) =~= suf(v@, j as int + 1));
        }
        j = j + 1;
    }
    if n - j >= 3 {
        Some(j)
    } else {
        None
    }
}

/// The two header lines.
fn p_headers(v: &Vec<char>, i: usize) -> (r: Result<(File, File, usize), PErr>)
    requires
        i <= v@.len(),
    ensures
        match r {
            Ok((fo, fn_, j)) => i <= j <= v@.len() && sp_headers(suf(v@, i as int)) == PRes::<
                (SpFile, SpFile),
            >::Parsed((fo@, fn_@), suf(v@, j as int)),
            Err((e, k)) => i <= e <= v@.len() && sp_headers(suf(v@, i as int)) == PRes::<
                (SpFile, SpFile),
            >::Failed(suf(v@, e as int), k),
        },
{
    let j0 = match scan_dashes(v, i) {
        Some(j) => j,
        None => {
            return Err((i, ParseErrorKind::TakeUntil));
        },
    };
    proof {
        assert(suf(v@, i as int).skip(j0 - i) =~= suf(v@, j0 as int));
    }
    let i1 = match p_tag(v, j0, "--- ") {
        Ok(x) => x,
        Err(e) => {
            return Err(e);
        },
    };
    let (oldf, i2) = match p_header_line_content(v, i1) {
        Ok(x) => x,
        Err(e) => {
            return Err(e);
        },
    };
    let i3 = match p_line_ending(v, i2) {
        Ok(x) => x,
        Err(e) => {
            return Err(e);
        },
    };
    let i4 = match p_tag(v, i3, "+++ ") {
        Ok(x) => x,
        Err(e) => {
            return Err(e);
        },
    };
    let (newf, i5) = match p_header_line_content(v, i4) {
        Ok(x) => x,
        Err(e) => {
            return Err(e);
        },
    };
    let i6 = match p_line_ending(v, i5) {
        Ok(x) => x,
        Err(e) => {
            return Err(e);
        },
    };
    Ok((oldf, newf, i6))
}


/// A hunk header line.
fn p_chunk_header(v: &Vec<char>, i: usize) -> (r: Result<(Range, Range, String, usize), PErr>)
    requires
        i <= v@.len(),
    ensures
        match r {
            Ok((r1, r2, hint, j)) => i <= j <= v@.len() && sp_chunk_header(suf(v@, i as int))
                == PRes::<(Range, Range, Seq<char>)>::Parsed((r1, r2, hint@), suf(v@, j as int)),
            Err((e, k)) => i <= e <= v@.len() && sp_chunk_header(suf(v@, i as int)) == PRes::<
                (Range, Range, Seq<char>),
            >::Failed(suf(v@, e as int), k),
        },
{
    let i1 = match p_tag(v, i, "@@ -") {
        Ok(x) => x,
        Err(e) => {
            return Err(e);
        },
    };
    let (old_range, i2) = match p_range(v, i1) {
        Ok(x) => x,
        Err(e) => {
            return Err(e);
        },
    };
    let i3 = match p_tag(v, i2, " +") {
        Ok(x) => x,
        Err(e) => {
            return Err(e);
        },
    };
    let (new_range, i4) = match p_range(v, i3) {
        Ok(x) => x,
        Err(e) => {
            return Err(e);
        },
    };
    let i5 = match p_tag(v, i4, " @@") {
        Ok(x) => x,
        Err(e) => {
            return Err(e);
        },
    };
    let i6 = match p_not_line_ending(v, i5) {
        Ok(x) => x,
        Err(e) => {
            return Err(e);
        },
    };
    let hint = chars_substring(v, i5, i6);
    let i7 = match p_line_ending(v, i6) {
        Ok(x) => x,
        Err(e) => {
            return Err(e);
        },
    };
    Ok((old_range, new_range, hint, i7))
}

/// One content line after its prefix character.
fn p_content_line(v: &Vec<char>, i: usize) -> (r: Result<(String, usize), PErr>)
    requires
        i <= v@.len(),
    ensures
        match r {
            Ok((t, j)) => i <= j <= v@.len() && sp_content_line(suf(v@, i as int)) == PRes::<
                Seq<char>,
            >::Parsed(t@, suf(v@, j as int)),
            Err((e, k)) => i <= e <= v@.len() && sp_content_line(suf(v@, i as int)) == PRes::<
                Seq<char>,
            >::Failed(suf(v@, e as int), k),
        },
{
    let j = match p_not_line_ending(v, i) {
        Ok(x) => x,
        Err(e) => {
            return Err(e);
        },
    };
    let t = chars_substring(v, i, j);
    let j2 = match p_line_ending(v, j) {
        Ok(x) => x,
        Err(e) => {
            return Err(e);
        },
    };
    Ok((t, j2))
}

/// One classified content line.
fn p_chunk_line(v: &Vec<char>, i: usize) -> (r: Result<(Line, usize), PErr>)
    requires
        i <= v@.len(),
    ensures
        match r {
            Ok((l, j)) => i <= j <= v@.len() && sp_chunk_line(suf(v@, i as int)) == PRes::<
                SpLine,
            >::Parsed(l@, suf(v@, j as int)),
            Err((e, k)) => i <= e <= v@.len() && sp_chunk_line(suf(v@, i as int)) == PRes::<
                SpLine,
            >::Failed(suf(v@, e as int), k),
        },
{
    let n = v.len();
    proof {
        if i < v@.len() {
            assert(suf(v@, i as int).skip(1) =~= suf(v@, i as int + 1));
        }
    }
    if i < n && v[i] == '+' {
        let guarded = match p_tag(v, i + 1, "++ ") {
            Ok(_) => true,
            Err(_) => false,
        };
        if !guarded {
            match p_content_line(v, i + 1) {
                Ok((t, j)) => {
                    return Ok((Line::Add(t), j));
                },
                Err(_) => {
                    return Err((i, ParseErrorKind::Char));
                },
            }
        } else {
            return Err((i, ParseErrorKind::Char));
        }
    }
    if i < n && v[i] == '-' {
        let guarded = match p_tag(v, i + 1, "-- ") {
            Ok(_) => true,
            Err(_) => false,
        };
        if !guarded {
            match p_content_line(v, i + 1) {
                Ok((t, j)) => {
                    return Ok((Line::Remove(t), j));
                },
                Err(_) => {
                    return Err((i, ParseErrorKind::Char));
                },
            }
        } else {
            return Err((i, ParseErrorKind::Char));
        }
    }
    if i < n && v[i] == ' ' {
        match p_content_line(v, i + 1) {
            Ok((t, j)) => Ok((Line::Context(t), j)),
            Err(e) => Err(e),
        }
    } else {
        Err((i, ParseErrorKind::Char))
    }
}

/// One hunk: a header and one or more content lines.
fn p_chunk(v: &Vec<char>, i: usize) -> (r: Result<(Hunk, usize), PErr>)
    requires
        i <= v@.len(),
    ensures
        match r {
            Ok((h, j)) => i <= j <= v@.len() && sp_chunk(suf(v@, i as int)) == PRes::<
                SpHunk,
            >::Parsed(h@, suf(v@, j as int)),
            Err((e, k)) => i <= e <= v@.len() && sp_chunk(suf(v@, i as int)) == PRes::<
                SpHunk,
            >::Failed(suf(v@, e as int), k),
        },
{
    let (old_range, new_range, hint, i1) = match p_chunk_header(v, i) {
        Ok(x) => x,
        Err(e) => {
            return Err(e);
        },
    };
    let (l0, i2) = match p_chunk_line(v, i1) {
        Ok(x) => x,
        Err(e) => {
            return Err(e);
        },
    };
    let ghost sp_l0 = l0@;
    let mut lines: Vec<Line> = Vec::new();
    lines.push(l0);
    let mut cur: usize = i2;
    proof {
        assert(lines@.map_values(|l: Line| l@) =~= seq![sp_l0]);
    }
    loop
        invariant
            i2 <= cur <= v@.len(),
            lines@.len() >= 1,
            lines@.map_values(|l: Line| l@) + sp_lines_more(suf(v@, cur as int)).0 =~= seq![sp_l0]
                + sp_lines_more(suf(v@, i2 as int)).0,
            sp_lines_more(suf(v@, cur as int)).1 == sp_lines_more(suf(v@, i2 as int)).1,
        ensures
            i2 <= cur <= v@.len(),
            lines@.map_values(|l: Line| l@) =~= seq![sp_l0] + sp_lines_more(
                suf(v@, i2 as int),
            ).0,
            suf(v@, cur as int) == sp_lines_more(suf(v@, i2 as int)).1,
        decreases v@.len() - cur,
    {
        match p_chunk_line(v, cur) {
            Err(_) => {
                proof {
                    assert(sp_lines_more(suf(v@, cur as int)).0 =~= Seq::<SpLine>::empty());
                    assert(lines@.map_values(|l: Line| l@) + Seq::<SpLine>::empty() =~= lines@
                        .map_values(|l: Line| l@));
                }
                break;
            },
            Ok((l, j)) => {
                proof {
                    lemma_chunk_line_lt(suf(v@, cur as int));
                    assert(sp_lines_more(suf(v@, cur as int)).0 == seq![l@] + sp_lines_more(
                        suf(v@, j as int),
                    ).0);
                    let f = |x: Line| x@;
                    assert(lines@.push(l).map_values(f) =~= lines@.map_values(f).push(l@));
                    assert(lines@.map_values(f).push(l@) + sp_lines_more(suf(v@, j as int)).0
                        =~= lines@.map_values(f) + (seq![l@] + sp_lines_more(
                        suf(v@, j as int),
                    ).0));
                }
                lines.push(l);
                cur = j;
            },
        }
    }
    let h = Hunk { old_range, new_range, range_hint: hint, lines };
    Ok((h, cur))
}

/// One or more hunks.
fn p_chunks(v: &Vec<char>, i: usize) -> (r: Result<(Vec<Hunk>, usize), PErr>)
    requires
        i <= v@.len(),
    ensures
        match r {
            Ok((hs, j)) => i <= j <= v@.len() && sp_chunks(suf(v@, i as int)) == PRes::<
                Seq<SpHunk>,
            >::Parsed(hs@.map_values(|h: Hunk| h@), suf(v@, j as int)),
            Err((e, k)) => i <= e <= v@.len() && sp_chunks(suf(v@, i as int)) == PRes::<
                Seq<SpHunk>,
            >::Failed(suf(v@, e as int), k),
        },
{
    let (h0, i1) = match p_chunk(v, i) {
        Ok(x) => x,
        Err(e) => {
            return Err(e);
        },
    };
    let ghost sp_h0 = h0@;
    let mut hunks: Vec<Hunk> = Vec::new();
    hunks.push(h0);
    let mut cur: usize = i1;
    proof {
        assert(hunks@.map_values(|h: Hunk| h@) =~= seq![sp_h0]);
    }
    loop
        invariant
            i1 <= cur <= v@.len(),
            hunks@.len() >= 1,
            hunks@.map_values(|h: Hunk| h@) + sp_chunks_more(suf(v@, cur as int)).0 =~= seq![sp_h0]
                + sp_chunks_more(suf(v@, i1 as int)).0,
            sp_chunks_more(suf(v@, cur as int)).1 == sp_chunks_more(suf(v@, i1 as int)).1,
        ensures
            i1 <= cur <= v@.len(),
            hunks@.map_values(|h: Hunk| h@) =~= seq![sp_h0] + sp_chunks_more(
                suf(v@, i1 as int),
            ).0,
            suf(v@, cur as int) == sp_chunks_more(suf(v@, i1 as int)).1,
        decreases v@.len() - cur,
    {
        match p_chunk(v, cur) {
            Err(_) => {
                proof {
                    assert(sp_chunks_more(suf(v@, cur as int)).0 =~= Seq::<SpHunk>::empty());
                    assert(hunks@.map_values(|h: Hunk| h@) + Seq::<SpHunk>::empty() =~= hunks@
                        .map_values(|h: Hunk| h@));
                }
                break;
            },
            Ok((h, j)) => {
                proof {
                    lemma_chunk_lt(suf(v@, cur as int));
                    assert(sp_chunks_more(suf(v@, cur as int)).0 == seq![h@] + sp_chunks_more(
                        suf(v@, j as int),
                    ).0);
                    let f = |x: Hunk| x@;
                    assert(hunks@.push(h).map_values(f) =~= hunks@.map_values(f).push(h@));
                    assert(hunks@.map_values(f).push(h@) + sp_chunks_more(suf(v@, j as int)).0
                        =~= hunks@.map_values(f) + (seq![h@] + sp_chunks_more(
                        suf(v@, j as int),
                    ).0));
                }
                hunks.push(h);
                cur = j;
            },
        }
    }
    Ok((hunks, cur))
}

/// The optional no-newline marker with its optional line ending.
fn p_marker(v: &Vec<char>, i: usize) -> (r: (bool, usize))
    requires
        i <= v@.len(),
    ensures
        i <= r.1 <= v@.len(),
        sp_marker(suf(v@, i as int)) == (r.0, suf(v@, r.1 as int)),
{
    match p_tag(v, i, "\\ No newline at end of file") {
        Err(_) => (false, i),
        Ok(j) => match p_line_ending(v, j) {
            Ok(j2) => (true, j2),
            Err(_) => (true, j),
        },
    }
}

/// Any number of trailing line endings.
fn p_blank_lines(v: &Vec<char>, i: usize) -> (j: usize)
    requires
        i <= v@.len(),
    ensures
        i <= j <= v@.len(),
        sp_blank_lines(suf(v@, i as int)) == suf(v@, j as int),
{
    let mut cur: usize = i;
    loop
        invariant
            i <= cur <= v@.len(),
            sp_blank_lines(suf(v@, i as int)) == sp_blank_lines(suf(v@, cur as int)),
        ensures
            i <= cur <= v@.len(),
            sp_blank_lines(suf(v@, i as int)) == suf(v@, cur as int),
        decreases v@.len() - cur,
    {
        match p_line_ending(v, cur) {
            Ok(j) => {
                cur = j;
            },
            Err(_) => {
                break;
            },
        }
    }
    cur
}

/// One complete patch.
fn p_patch(v: &Vec<char>, i: usize) -> (r: Result<(Patch, usize), PErr>)
    requires
        i <= v@.len(),
    ensures
        match r {
            Ok((p, j)) => i <= j <= v@.len() && sp_patch(suf(v@, i as int)) == PRes::<
                SpPatch,
            >::Parsed(p@, suf(v@, j as int)),
            Err((e, k)) => i <= e <= v@.len() && sp_patch(suf(v@, i as int)) == PRes::<
                SpPatch,
            >::Failed(suf(v@, e as int), k),
        },
{
    let (old, new, i1) = match p_headers(v, i) {
        Ok(x) => x,
        Err(e) => {
            return Err(e);
        },
    };
    let (hunks, i2) = match p_chunks(v, i1) {
        Ok(x) => x,
        Err(e) => {
            return Err(e);
        },
    };
    let (mark, i3) = p_marker(v, i2);
    let i4 = p_blank_lines(v, i3);
    let p = Patch { old, new, hunks, end_newline: !mark };
    Ok((p, i4))
}


/// The reported error value corresponds to the grammar failure at `rest`:
/// same category, the fragment is the unparsed rest of the input, and the
/// line and byte offset describe the end of the consumed prefix.
pub open spec fn error_reports(
    s: Seq<char>,
    e: ParseError,
    rest: Seq<char>,
    kind: ParseErrorKind,
) -> bool {
    &&& e.kind == kind
    &&& e.fragment@ == rest
    &&& e.line == sp_line_of(s.take(s.len() - rest.len()))
    &&& e.offset == vstd::utf8::encode_utf8(s.take(s.len() - rest.len())).len() as usize
}

/// Builds the reported error for a failure at index `e` of the input.
fn make_error(v: &Vec<char>, s: &str, e: usize, k: ParseErrorKind) -> (r: ParseError)
    requires
        v@ == s@,
        e <= v@.len(),
    ensures
        error_reports(s@, r, suf(v@, e as int), k),
{
    let frag = chars_substring(v, e, v.len());
    let prefix = s.substring_char(0, e);
    let offset = prefix.len();
    let line = line_of_prefix(v, e);
    proof {
        assert(frag@ =~= suf(v@, e as int));
        assert(prefix@ =~= v@.take(e as int));
        assert(v@.take(e as int) =~= s@.take(s@.len() - suf(v@, e as int).len()));
    }
    ParseError { line, offset, fragment: frag, kind: k }
}

impl Patch {
    /// Attempt to parse a patch from the given string; anything at all left
    /// over after one complete patch is an error.
    pub fn from_single(s: &str) -> (r: Result<Patch, ParseError>)
        ensures
            match r {
                Ok(p) => sp_parse_one(s@) matches Ok(sp) && sp == p@,
                Err(e) => sp_parse_one(s@) matches Err((rest, kind)) && error_reports(
                    s@,
                    e,
                    rest,
                    kind,
                ),
            },
    {
        let v = str_to_chars(s);
        proof {
            assert(suf(v@, 0) =~= s@);
        }
        match p_patch(&v, 0) {
            Err((e, k)) => Err(make_error(&v, s, e, k)),
            Ok((p, j)) => {
                if j == v.len() {
                    proof {
                        assert(suf(v@, j as int).len() == 0);
                    }
                    Ok(p)
                } else {
                    Err(make_error(&v, s, j, ParseErrorKind::TrailingInput))
                }
            },
        }
    }

    /// Attempt to parse as many patches as possible from the given string,
    /// which must contain at least one patch and nothing else. This is
    /// useful for a complete diff of many files.
    pub fn from_multiple(s: &str) -> (r: Result<Vec<Patch>, ParseError>)
        ensures
            match r {
                Ok(ps) => sp_parse_all(s@) matches Ok(sps) && sps == ps@.map_values(
                    |p: Patch| p@,
                ),
                Err(e) => sp_parse_all(s@) matches Err((rest, kind)) && error_reports(
                    s@,
                    e,
                    rest,
                    kind,
                ),
            },
    {
        let v = str_to_chars(s);
        proof {
            assert(suf(v@, 0) =~= s@);
        }
        let (p0, i1) = match p_patch(&v, 0) {
            Ok(x) => x,
            Err((e, k)) => {
                return Err(make_error(&v, s, e, k));
            },
        };
        let ghost sp_p0 = p0@;
        let mut patches: Vec<Patch> = Vec::new();
        patches.push(p0);
        let mut cur: usize = i1;
        let mut stop_pos: usize = 0;
        let mut stop_kind: ParseErrorKind = ParseErrorKind::Tag;
        proof {
            assert(patches@.map_values(|p: Patch| p@) =~= seq![sp_p0]);
        }
        loop
            invariant
                i1 <= cur <= v@.len(),
                patches@.len() >= 1,
                patches@.map_values(|p: Patch| p@) + sp_patches_more(suf(v@, cur as int)).0
                    =~= seq![sp_p0] + sp_patches_more(suf(v@, i1 as int)).0,
                sp_patches_more(suf(v@, cur as int)).1 == sp_patches_more(suf(v@, i1 as int)).1,
                sp_patches_more(suf(v@, cur as int)).2 == sp_patches_more(suf(v@, i1 as int)).2,
            ensures
                i1 <= cur <= v@.len(),
                stop_pos <= v@.len(),
                patches@.map_values(|p: Patch| p@) =~= seq![sp_p0] + sp_patches_more(
                    suf(v@, i1 as int),
                ).0,
                suf(v@, cur as int) == sp_patches_more(suf(v@, i1 as int)).1,
                sp_patches_more(suf(v@, i1 as int)).2 == (
                    suf(v@, stop_pos as int),
                    stop_kind,
                ),
            decreases v@.len() - cur,
        {
            match p_patch(&v, cur) {
                Err((e, k)) => {
                    proof {
                        assert(sp_patches_more(suf(v@, cur as int)).0 =~= Seq::<
                            SpPatch,
                        >::empty());
                        assert(patches@.map_values(|p: Patch| p@) + Seq::<SpPatch>::empty()
                            =~= patches@.map_values(|p: Patch| p@));
                    }
                    stop_pos = e;
                    stop_kind = k;
                    break;
                },
                Ok((p, j)) => {
                    proof {
                        lemma_patch_lt(suf(v@, cur as int));
                        assert(sp_patches_more(suf(v@, cur as int)).0 == seq![p@]
                            + sp_patches_more(suf(v@, j as int)).0);
                        let f = |x: Patch| x@;
                        assert(patches@.push(p).map_values(f) =~= patches@.map_values(f).push(
                            p@,
                        ));
                        assert(patches@.map_values(f).push(p@) + sp_patches_more(
                            suf(v@, j as int),
                        ).0 =~= patches@.map_values(f) + (seq![p@] + sp_patches_more(
                            suf(v@, j as int),
                        ).0));
                    }
                    patches.push(p);
                    cur = j;
                },
            }
        }
        if cur == v.len() {
            proof {
                assert(suf(v@, cur as int).len() == 0);
            }
            Ok(patches)
        } else {
            Err(make_error(&v, s, stop_pos, stop_kind))
        }
    }
}


/// Turns an index-based parse outcome into the remaining input text.
fn remaining(v: &Vec<char>, j: usize) -> (rest: String)
    requires
        j <= v@.len(),
    ensures
        rest@ == suf(v@, j as int),
{
    let rest = chars_substring(v, j, v.len());
    proof {
        assert(rest@ =~= suf(v@, j as int));
    }
    rest
}

/// A quoted token at the start of the input, decoded; yields the decoded
/// text and the remaining input, or nothing when no quoted token is there.
pub fn quoted(s: &str) -> (r: Option<(String, String)>)
    ensures
        match r {
            Some((d, rest)) => sp_quoted(s@) == Some((d@, rest@)),
            None => sp_quoted(s@) is None,
        },
{
    let v = str_to_chars(s);
    proof {
        assert(suf(v@, 0) =~= s@);
    }
    match p_quoted(&v, 0) {
        Some((d, j)) => Some((d, remaining(&v, j))),
        None => None,
    }
}

/// One or more plain or escaped quoted-string characters at the start of
/// the input, decoded; nothing when not even one is there.
pub fn unescaped_str(s: &str) -> (r: Option<(String, String)>)
    ensures
        match r {
            Some((d, rest)) => sp_qchars(s@) == (d@, rest@) && d@.len() >= 1,
            None => sp_qchars(s@).0.len() == 0,
        },
{
    let v = str_to_chars(s);
    proof {
        assert(suf(v@, 0) =~= s@);
    }
    let (d, j) = p_qchars(&v, 0);
    if j == 0 {
        None
    } else {
        Some((d, remaining(&v, j)))
    }
}

/// A bare token at the start of the input: the longest non-empty run of
/// characters other than tab, carriage return and line feed.
pub fn bare(s: &str) -> (r: Option<(String, String)>)
    ensures
        match r {
            Some((t, rest)) => t@.len() == sp_bare_len(s@) && t@.len() >= 1 && t@ == s@.take(
                sp_bare_len(s@) as int,
            ) && rest@ == s@.skip(sp_bare_len(s@) as int),
            None => sp_bare_len(s@) == 0,
        },
{
    let v = str_to_chars(s);
    proof {
        assert(suf(v@, 0) =~= s@);
    }
    let j = scan_bare_len(&v, 0);
    if j == 0 {
        None
    } else {
        let t = chars_substring(&v, 0, j);
        proof {
            assert(t@ =~= s@.take(j as int));
        }
        Some((t, remaining(&v, j)))
    }
}

/// A file name token at the start of the input: quoted, or else bare.
pub fn filename(s: &str) -> (r: Option<(String, String)>)
    ensures
        match r {
            Some((t, rest)) => sp_filename(s@) == PRes::<Seq<char>>::Parsed(t@, rest@),
            None => sp_filename(s@) is Failed,
        },
{
    let v = str_to_chars(s);
    proof {
        assert(suf(v@, 0) =~= s@);
    }
    match p_filename(&v, 0) {
        Ok((t, j)) => Some((t, remaining(&v, j))),
        Err(_) => None,
    }
}

/// The content of one header line at the start of the input: a file name
/// and optional metadata, leaving the line ending unconsumed.
pub fn header_line_content(s: &str) -> (r: Option<(File, String)>)
    ensures
        match r {
            Some((f, rest)) => sp_header_line_content(s@) == PRes::<SpFile>::Parsed(f@, rest@),
            None => sp_header_line_content(s@) is Failed,
        },
{
    let v = str_to_chars(s);
    proof {
        assert(suf(v@, 0) =~= s@);
    }
    match p_header_line_content(&v, 0) {
        Ok((f, j)) => Some((f, remaining(&v, j))),
        Err(_) => None,
    }
}

/// The two header lines at the start of the input, after any preamble.
pub fn headers(s: &str) -> (r: Option<(File, File, String)>)
    ensures
        match r {
            Some((fo, fn_, rest)) => sp_headers(s@) == PRes::<(SpFile, SpFile)>::Parsed(
                (fo@, fn_@),
                rest@,
            ),
            None => sp_headers(s@) is Failed,
        },
{
    let v = str_to_chars(s);
    proof {
        assert(suf(v@, 0) =~= s@);
    }
    match p_headers(&v, 0) {
        Ok((fo, fn_, j)) => Some((fo, fn_, remaining(&v, j))),
        Err(_) => None,
    }
}

/// A hunk range at the start of the input; a missing count defaults to
/// one.
pub fn range(s: &str) -> (r: Option<(Range, String)>)
    ensures
        match r {
            Some((x, rest)) => sp_range(s@) == PRes::<Range>::Parsed(x, rest@),
            None => sp_range(s@) is Failed,
        },
{
    let v = str_to_chars(s);
    proof {
        assert(suf(v@, 0) =~= s@);
    }
    match p_range(&v, 0) {
        Ok((x, j)) => Some((x, remaining(&v, j))),
        Err(_) => None,
    }
}

/// A hunk header line at the start of the input: the two ranges and the
/// verbatim hint.
pub fn chunk_header(s: &str) -> (r: Option<(Range, Range, String, String)>)
    ensures
        match r {
            Some((r1, r2, hint, rest)) => sp_chunk_header(s@) == PRes::<
                (Range, Range, Seq<char>),
            >::Parsed((r1, r2, hint@), rest@),
            None => sp_chunk_header(s@) is Failed,
        },
{
    let v = str_to_chars(s);
    proof {
        assert(suf(v@, 0) =~= s@);
    }
    match p_chunk_header(&v, 0) {
        Ok((r1, r2, hint, j)) => Some((r1, r2, hint, remaining(&v, j))),
        Err(_) => None,
    }
}

/// One hunk at the start of the input: a hunk header and one or more
/// content lines.
pub fn chunk(s: &str) -> (r: Option<(Hunk, String)>)
    ensures
        match r {
            Some((h, rest)) => sp_chunk(s@) == PRes::<SpHunk>::Parsed(h@, rest@),
            None => sp_chunk(s@) is Failed,
        },
{
    let v = str_to_chars(s);
    proof {
        assert(suf(v@, 0) =~= s@);
    }
    match p_chunk(&v, 0) {
        Ok((h, j)) => Some((h, remaining(&v, j))),
        Err(_) => None,
    }
}

} // verus!

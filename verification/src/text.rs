//! Character-level helpers shared by the parser and the serializer:
//! conversion between strings and character vectors, decimal numbers, line
//! counting, and character classification.

use vstd::prelude::*;

verus! {

/// Relies on `String::push`: appends the given character to the end of the
/// string.
#[verifier::external_body]
pub(crate) fn push_char(s: &mut String, c: char)
    ensures
        final(s)@ == old(s)@.push(c),
{
    s.push(c);
}

/// The characters of `s`, in order, as a vector.
pub(crate) fn str_to_chars(s: &str) -> (v: Vec<char>)
    ensures
        v@ == s@,
{
    let n = s.unicode_len();
    let mut v: Vec<char> = Vec::new();
    let mut i: usize = 0;
    while i < n
        invariant
            n == s@.len(),
            i <= n,
            v@ == s@.take(i as int),
        decreases n - i,
    {
        let c = s.get_char(i);
        v.push(c);
        i = i + 1;
        proof {
            assert(v@ =~= s@.take(i as int));
        }
    }
    proof {
        assert(v@ =~= s@);
    }
    v
}

/// The characters `v[i..j]`, collected into a string.
pub(crate) fn chars_substring(v: &Vec<char>, i: usize, j: usize) -> (s: String)
    requires
        i <= j <= v@.len(),
    ensures
        s@ == v@.subrange(i as int, j as int),
{
    let mut s = String::new();
    let mut k: usize = i;
    while k < j
        invariant
            i <= k <= j <= v@.len(),
            s@ == v@.subrange(i as int, k as int),
        decreases j - k,
    {
        push_char(&mut s, v[k]);
        k = k + 1;
        proof {
            assert(s@ =~= v@.subrange(i as int, k as int));
        }
    }
    s
}

/// True for the ten ASCII decimal digits.
pub open spec fn is_digit_char(c: char) -> bool {
    '0' <= c && c <= '9'
}

/// The numeric value of an ASCII decimal digit.
pub open spec fn digit_val(c: char) -> int {
    c as u32 - 48
}

/// The number denoted by a run of decimal digits, most significant first.
pub open spec fn dec_val(s: Seq<char>) -> nat
    decreases s.len(),
{
    if s.len() == 0 {
        0
    } else if is_digit_char(s[s.len() - 1]) {
        (10 * dec_val(s.take(s.len() - 1)) + digit_val(s[s.len() - 1])) as nat
    } else {
        10 * dec_val(s.take(s.len() - 1))
    }
}

/// The digit character for a value below ten.
pub open spec fn digit_char(d: int) -> char {
    if d == 0 {
        '0'
    } else if d == 1 {
        '1'
    } else if d == 2 {
        '2'
    } else if d == 3 {
        '3'
    } else if d == 4 {
        '4'
    } else if d == 5 {
        '5'
    } else if d == 6 {
        '6'
    } else if d == 7 {
        '7'
    } else if d == 8 {
        '8'
    } else {
        '9'
    }
}

/// The decimal rendering of a number, without padding.
pub open spec fn dec_str(n: nat) -> Seq<char>
    decreases n,
{
    if n < 10 {
        seq![digit_char(n as int)]
    } else {
        dec_str(n / 10).push(digit_char((n % 10) as int))
    }
}

/// A decimal rendering is a non-empty run of digits.
pub proof fn lemma_dec_str_digits(n: nat)
    ensures
        dec_str(n).len() >= 1,
        forall|i: int| 0 <= i < dec_str(n).len() ==> is_digit_char(#[trigger] dec_str(n)[i]),
    decreases n,
{
    if n >= 10 {
        lemma_dec_str_digits(n / 10);
    }
}

/// Rendering a number and reading the digits back yields the number.
pub proof fn lemma_dec_val_dec_str(n: nat)
    ensures
        dec_val(dec_str(n)) == n,
    decreases n,
{
    if n < 10 {
        let s = dec_str(n);
        assert(is_digit_char(digit_char(n as int)));
        assert(digit_val(digit_char(n as int)) == n);
        assert(s.take(s.len() - 1) =~= Seq::<char>::empty());
        assert(dec_val(Seq::<char>::empty()) == 0);
        assert(dec_val(s) == n);
    } else {
        lemma_dec_val_dec_str(n / 10);
        let s = dec_str(n);
        let t = dec_str(n / 10);
        let d = digit_char((n % 10) as int);
        assert(s == t.push(d));
        assert(s.len() == t.len() + 1);
        assert(s[s.len() - 1] == d);
        assert(is_digit_char(d));
        assert(digit_val(d) == n % 10);
        assert(s.take(s.len() - 1) =~= t);
        assert(dec_val(s) == 10 * dec_val(t) + digit_val(d));
    }
}

/// The digit character for a value below ten, as executable code.
pub(crate) fn digit_char_exec(d: u64) -> (c: char)
    requires
        d < 10,
    ensures
        c == digit_char(d as int),
{
    if d == 0 {
        '0'
    } else if d == 1 {
        '1'
    } else if d == 2 {
        '2'
    } else if d == 3 {
        '3'
    } else if d == 4 {
        '4'
    } else if d == 5 {
        '5'
    } else if d == 6 {
        '6'
    } else if d == 7 {
        '7'
    } else if d == 8 {
        '8'
    } else {
        '9'
    }
}

/// Appends the decimal rendering of `n` to `out`.
pub(crate) fn append_dec_u64(out: &mut String, n: u64)
    ensures
        final(out)@ == old(out)@ + dec_str(n as nat),
    decreases n,
{
    if n < 10 {
        push_char(out, digit_char_exec(n));
    } else {
        append_dec_u64(out, n / 10);
        push_char(out, digit_char_exec(n % 10));
    }
    proof {
        assert(final(out)@ =~= old(out)@ + dec_str(n as nat));
    }
}

/// The number of newline characters in a sequence.
pub open spec fn count_nl(s: Seq<char>) -> nat
    decreases s.len(),
{
    if s.len() == 0 {
        0
    } else if s[s.len() - 1] == '\n' {
        count_nl(s.take(s.len() - 1)) + 1
    } else {
        count_nl(s.take(s.len() - 1))
    }
}

/// The 1-based line number of the position right after `prefix`, clamped to
/// the machine word.
pub open spec fn sp_line_of(prefix: Seq<char>) -> nat {
    if count_nl(prefix) + 1 <= usize::MAX {
        count_nl(prefix) + 1
    } else {
        usize::MAX as nat
    }
}

/// There are no more newlines in a prefix than characters.
pub proof fn lemma_count_nl_le_len(s: Seq<char>)
    ensures
        count_nl(s) <= s.len(),
    decreases s.len(),
{
    if s.len() > 0 {
        lemma_count_nl_le_len(s.take(s.len() - 1));
    }
}

/// The 1-based line number of the position `v[..e]`, as executable code.
pub(crate) fn line_of_prefix(v: &Vec<char>, e: usize) -> (line: usize)
    requires
        e <= v@.len(),
    ensures
        line == sp_line_of(v@.take(e as int)),
{
    let mut count: usize = 0;
    let mut k: usize = 0;
    while k < e
        invariant
            k <= e <= v@.len(),
            count == count_nl(v@.take(k as int)),
            count <= k,
        decreases e - k,
    {
        proof {
            assert(v@.take(k as int + 1).take(k as int) =~= v@.take(k as int));
            lemma_count_nl_le_len(v@.take(k as int));
        }
        if v[k] == '\n' {
            count = count + 1;
        }
        k = k + 1;
    }
    if count < usize::MAX {
        count + 1
    } else {
        count
    }
}


/// The sequence with its leading whitespace removed.
pub open spec fn sp_trim_start(s: Seq<char>) -> Seq<char>
    decreases s.len(),
{
    if s.len() > 0 && is_ws_char(s[0]) {
        sp_trim_start(s.skip(1))
    } else {
        s
    }
}

/// True exactly for the characters with the Unicode `White_Space` property,
/// the set that `char::is_whitespace` recognizes.
pub open spec fn is_ws_char(c: char) -> bool {
    c == ' ' || ('\u{9}' <= c && c <= '\u{D}') || c == '\u{85}' || c == '\u{A0}' || c
        == '\u{1680}' || ('\u{2000}' <= c && c <= '\u{200A}') || c == '\u{2028}' || c == '\u{2029}'
        || c == '\u{202F}' || c == '\u{205F}' || c == '\u{3000}'
}

/// Whitespace test over the Unicode `White_Space` set, as executable code.
pub(crate) fn is_ws_exec(c: char) -> (b: bool)
    ensures
        b == is_ws_char(c),
{
    c == ' ' || ('\u{9}' <= c && c <= '\u{D}') || c == '\u{85}' || c == '\u{A0}' || c
        == '\u{1680}' || ('\u{2000}' <= c && c <= '\u{200A}') || c == '\u{2028}' || c == '\u{2029}'
        || c == '\u{202F}' || c == '\u{205F}' || c == '\u{3000}'
}

} // verus!


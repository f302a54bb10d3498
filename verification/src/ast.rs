//! The data model of a parsed patch: files, metadata, hunks, ranges and
//! content lines, together with the spec-level view of each type.

use vstd::prelude::*;

verus! {

/// An absolute timestamp with a fixed offset from UTC, as found in the
/// header of a unified diff: calendar date, time of day, sub-second
/// nanoseconds, and the offset from UTC in seconds.
#[derive(Clone, Copy, PartialEq, Eq, Debug)]
pub struct Timestamp {
    /// Calendar year.
    pub year: i32,
    /// Month of the year, counted from 1.
    pub month: u32,
    /// Day of the month, counted from 1.
    pub day: u32,
    /// Hour of the day, from 0.
    pub hour: u32,
    /// Minute of the hour, from 0.
    pub minute: u32,
    /// Second of the minute, from 0.
    pub second: u32,
    /// Nanoseconds since the start of the second; values of one billion or
    /// more stand for a leap second.
    pub nanosecond: u32,
    /// Offset of the local time from UTC, in seconds.
    pub offset_seconds: i32,
}

/// Additional metadata provided with a file path in a header line.
#[derive(Clone, PartialEq, Eq, Debug)]
pub enum FileMetadata {
    /// A complete datetime, e.g. `2002-02-21 23:30:39.942229878 -0800`.
    DateTime(Timestamp),
    /// Any other string provided after the file path, e.g. a git hash or an
    /// unrecognized timestamp.
    Other(String),
}

/// The file path and any additional info of either the old file or the new
/// file of a patch.
#[derive(Clone, PartialEq, Eq, Debug)]
pub struct File {
    /// The parsed path or file name of the file.
    ///
    /// This library makes no attempt to verify the format of that path, so
    /// this field can potentially be any string.
    pub path: String,
    /// Any additional information provided with the file path.
    pub meta: Option<FileMetadata>,
}

/// A range of lines in one version of a file.
#[derive(Clone, Copy, PartialEq, Eq, Debug)]
pub struct Range {
    /// The start line of the hunk in the old or new file.
    pub start: u64,
    /// The hunk size (number of lines) in the old or new file.
    pub count: u64,
}

/// A line of the old file, the new file, or both, without its one-character
/// prefix and without its line ending.
#[derive(Clone, PartialEq, Eq, Debug)]
pub enum Line {
    /// A line added to the old file in the new file.
    Add(String),
    /// A line removed from the old file in the new file.
    Remove(String),
    /// A line provided for context in the diff; from both the old and the
    /// new file.
    Context(String),
}

/// One area where the two files differ.
#[derive(Clone, PartialEq, Eq, Debug)]
pub struct Hunk {
    /// The range of lines in the old file that this hunk represents.
    pub old_range: Range,
    /// The range of lines in the new file that this hunk represents.
    pub new_range: Range,
    /// Any trailing text after the hunk's range information.
    pub range_hint: String,
    /// Each line of text in the hunk, prefixed with the type of change it
    /// represents.
    pub lines: Vec<Line>,
}

/// A complete patch summarizing the differences between two files.
#[derive(Clone, PartialEq, Eq, Debug)]
pub struct Patch {
    /// The file information of the `-` side of the diff, line prefix `---`.
    pub old: File,
    /// The file information of the `+` side of the diff, line prefix `+++`.
    pub new: File,
    /// Hunks of differences; each hunk shows one area where the files
    /// differ. Always non-empty in a parsed patch.
    pub hunks: Vec<Hunk>,
    /// True if the last line of the file ends in a newline character.
    ///
    /// This is false only if at the end of the patch we encounter the text
    /// `\ No newline at end of file`.
    pub end_newline: bool,
}

/// The category of grammar rule that failed when parsing was aborted.
#[derive(Clone, Copy, PartialEq, Eq, Debug)]
pub enum ParseErrorKind {
    /// No `---` header introduction was found anywhere in the remaining
    /// input.
    TakeUntil,
    /// A fixed token such as `--- ` or `@@ -` was expected.
    Tag,
    /// A line ending was expected, or a carriage return stood alone.
    CrLf,
    /// A one-character line prefix (`+`, `-` or a space) was expected.
    Char,
    /// A decimal number was expected, or one did not fit in 64 bits.
    Digit,
    /// A file name was expected.
    IsNot,
    /// A single patch was requested but input remained after it.
    TrailingInput,
}

/// Type returned when an error occurs while parsing a patch.
#[derive(Clone, PartialEq, Eq, Debug)]
pub struct ParseError {
    /// The 1-based line where the parsing error occurred.
    pub line: usize,
    /// The 0-based byte offset within the input where the parsing error
    /// occurred.
    pub offset: usize,
    /// The remaining unparsed input at the failure point.
    pub fragment: String,
    /// The category of grammar rule that failed.
    pub kind: ParseErrorKind,
}

/// Spec-level mirror of [`FileMetadata`], over sequences of characters.
pub enum SpMeta {
    DateTime(Timestamp),
    Other(Seq<char>),
}

/// Spec-level mirror of [`File`].
pub struct SpFile {
    pub path: Seq<char>,
    pub meta: Option<SpMeta>,
}

/// Spec-level mirror of [`Line`].
pub enum SpLine {
    Add(Seq<char>),
    Remove(Seq<char>),
    Context(Seq<char>),
}

/// Spec-level mirror of [`Hunk`].
pub struct SpHunk {
    pub old_range: Range,
    pub new_range: Range,
    pub range_hint: Seq<char>,
    pub lines: Seq<SpLine>,
}

/// Spec-level mirror of [`Patch`].
pub struct SpPatch {
    pub old: SpFile,
    pub new: SpFile,
    pub hunks: Seq<SpHunk>,
    pub end_newline: bool,
}

impl View for FileMetadata {
    type V = SpMeta;

    open spec fn view(&self) -> SpMeta {
        match self {
            FileMetadata::DateTime(ts) => SpMeta::DateTime(*ts),
            FileMetadata::Other(s) => SpMeta::Other(s@),
        }
    }
}

impl View for File {
    type V = SpFile;

    open spec fn view(&self) -> SpFile {
        SpFile {
            path: self.path@,
            meta: match self.meta {
                Some(m) => Some(m@),
                None => None,
            },
        }
    }
}

impl View for Line {
    type V = SpLine;

    open spec fn view(&self) -> SpLine {
        match self {
            Line::Add(s) => SpLine::Add(s@),
            Line::Remove(s) => SpLine::Remove(s@),
            Line::Context(s) => SpLine::Context(s@),
        }
    }
}

impl View for Hunk {
    type V = SpHunk;

    open spec fn view(&self) -> SpHunk {
        SpHunk {
            old_range: self.old_range,
            new_range: self.new_range,
            range_hint: self.range_hint@,
            lines: self.lines@.map_values(|l: Line| l@),
        }
    }
}

impl View for Patch {
    type V = SpPatch;

    open spec fn view(&self) -> SpPatch {
        SpPatch {
            old: self.old@,
            new: self.new@,
            hunks: self.hunks@.map_values(|h: Hunk| h@),
            end_newline: self.end_newline,
        }
    }
}


impl Hunk {
    /// A nicer way to access the optional hint: the hint without its
    /// leading whitespace, or nothing when only whitespace is there.
    pub fn hint(&self) -> (r: Option<&str>)
        ensures
            match r {
                Some(h) => h@ == crate::text::sp_trim_start(self.range_hint@) && h@.len() > 0,
                None => crate::text::sp_trim_start(self.range_hint@).len() == 0,
            },
    {
        let s = self.range_hint.as_str();
        let n = s.unicode_len();
        let mut k: usize = 0;
        proof {
            assert(s@.skip(0) =~= s@);
        }
        while k < n && crate::text::is_ws_exec(s.get_char(k))
            invariant
                k <= n == s@.len(),
                crate::text::sp_trim_start(s@) == crate::text::sp_trim_start(
                    s@.skip(k as int),
                ),
            decreases n - k,
        {
            proof {
                assert(s@.skip(k as int).skip(1) =~= s@.skip(k as int + 1));
            }
            k = k + 1;
        }
        proof {
            assert(crate::text::sp_trim_start(s@.skip(k as int)) == s@.skip(k as int));
        }
        if k == n {
            None
        } else {
            let h = s.substring_char(k, n);
            proof {
                assert(h@ =~= s@.skip(k as int));
            }
            Some(h)
        }
    }
}

} // verus!

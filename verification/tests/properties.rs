//! Tests of the library's stated properties: default counts, metadata
//! classification, the no-newline marker, quoting round-trips, multi-patch
//! splitting, the minimal example, and the error model.

use patch::{
    maybe_escape_quote, range, FileMetadata, Line, ParseErrorKind, Patch, Range,
};

#[test]
fn default_count() {
    let r = range("5").unwrap();
    assert_eq!(r.0, Range { start: 5, count: 1 });
    let r = range("5,3").unwrap();
    assert_eq!(r.0, Range { start: 5, count: 3 });
}

#[test]
fn metadata_classification() {
    let sample = "\
--- a\t2002-02-21 23:30:39.942229878 -0800
+++ b\t08f78e0addd5bf7b7aa8887e406493e75e8d2b55
@@ -1 +1 @@
 x\n";
    let p = Patch::from_single(sample).unwrap();
    assert!(matches!(p.old.meta, Some(FileMetadata::DateTime(_))));
    assert_eq!(
        p.new.meta,
        Some(FileMetadata::Other("08f78e0addd5bf7b7aa8887e406493e75e8d2b55".to_string()))
    );
}

#[test]
fn no_newline_marker() {
    let with_marker = "--- a\n+++ b\n@@ -1 +1 @@\n x\n\\ No newline at end of file\n";
    let p = Patch::from_single(with_marker).unwrap();
    assert_eq!(p.end_newline, false);

    let without_marker = "--- a\n+++ b\n@@ -1 +1 @@\n x\n";
    let p = Patch::from_single(without_marker).unwrap();
    assert_eq!(p.end_newline, true);
}

#[test]
fn quoting_round_trip() {
    // A path with a space must be quoted; one without special characters
    // passes through verbatim.
    assert_eq!(maybe_escape_quote("My Work/after.py"), "\"My Work/after.py\"");
    assert_eq!(maybe_escape_quote("after.py"), "after.py");
    assert_eq!(maybe_escape_quote("a\tb\\c"), "\"a\\tb\\\\c\"");
    assert_eq!(maybe_escape_quote("a\"b\0c\r\n"), "\"a\\\"b\\0c\\r\\n\"");

    // The quoted form re-parses to the identical unquoted value.
    let sample = "--- \"My Work/after.py\"\n+++ b\n@@ -1,1 +1,1 @@\n x\n";
    let p = Patch::from_single(sample).unwrap();
    assert_eq!(p.old.path, "My Work/after.py");
    assert_eq!(format!("{}\n", p.render()), sample);
}

#[test]
fn multi_patch_splitting() {
    let sample = "\
--- a.txt
+++ b.txt
@@ -1 +1 @@
-old a
+new a
--- c.txt
+++ d.txt
@@ -2,2 +2,2 @@
 keep
-old c
\\ No newline at end of file
";
    let patches = Patch::from_multiple(sample).unwrap();
    assert_eq!(patches.len(), 2);
    assert_eq!(patches[0].old.path, "a.txt");
    assert_eq!(patches[0].hunks.len(), 1);
    assert_eq!(patches[0].end_newline, true);
    assert_eq!(patches[1].new.path, "d.txt");
    assert_eq!(patches[1].hunks[0].lines.len(), 2);
    assert_eq!(patches[1].end_newline, false);
}

#[test]
fn minimal_example() {
    let sample = "\
--- before.py
+++ path/to/after.py
@@ -1,4 +1,4 @@
-bacon
-eggs
-ham
+python
+eggy
+hamster
 guido\n";
    let p = Patch::from_single(sample).unwrap();
    assert_eq!(p.old.path, "before.py");
    assert_eq!(p.new.path, "path/to/after.py");
    assert_eq!(p.hunks.len(), 1);
    assert_eq!(p.hunks[0].old_range, Range { start: 1, count: 4 });
    assert_eq!(p.hunks[0].new_range, Range { start: 1, count: 4 });
    assert_eq!(p.hunks[0].lines.len(), 7);
    let removes = p.hunks[0].lines.iter().filter(|l| matches!(l, Line::Remove(_))).count();
    let adds = p.hunks[0].lines.iter().filter(|l| matches!(l, Line::Add(_))).count();
    let contexts = p.hunks[0].lines.iter().filter(|l| matches!(l, Line::Context(_))).count();
    assert_eq!((removes, adds, contexts), (3, 3, 1));
    assert_eq!(p.end_newline, true);
}

#[test]
fn triple_plus_minus_with_spaces_is_an_error() {
    // A content line of the exact shape `--- x` cannot be told apart from a
    // new patch's old-file header; the parse of the whole input fails with
    // a reported error rather than succeeding.
    let sample = r#"--- main.c
+++ main.c
@@ -1,4 +1,7 @@
+#include<stdio.h>
+
 int main() {
 double a;
--- a;
+++ a;
+printf("%d\n", a);
 }
"#;
    assert!(Patch::from_multiple(sample).is_err());
}

#[test]
fn error_take_until() {
    let e = Patch::from_single("no patch here\n").unwrap_err();
    assert_eq!(e.kind, ParseErrorKind::TakeUntil);
    assert_eq!(e.line, 1);
    assert_eq!(e.offset, 0);
    assert_eq!(e.fragment, "no patch here\n");
}

#[test]
fn error_tag() {
    let e = Patch::from_single("---x\n+++ b\n@@ -1 +1 @@\n x\n").unwrap_err();
    assert_eq!(e.kind, ParseErrorKind::Tag);
    assert_eq!(e.offset, 0);
}

#[test]
fn error_crlf() {
    // A carriage return not followed by a line feed is not a line ending.
    let e = Patch::from_single("--- a\rx\n+++ b\n@@ -1 +1 @@\n x\n").unwrap_err();
    assert_eq!(e.kind, ParseErrorKind::CrLf);
    assert_eq!(e.line, 1);
    assert_eq!(e.offset, 5);
}

#[test]
fn error_char() {
    let e = Patch::from_single("--- a\n+++ b\n@@ -1 +1 @@\nxyz\n").unwrap_err();
    assert_eq!(e.kind, ParseErrorKind::Char);
    assert_eq!(e.line, 4);
    assert_eq!(e.offset, 24);
    assert_eq!(e.fragment, "xyz\n");
}

#[test]
fn error_digit() {
    let e = Patch::from_single("--- a\n+++ b\n@@ -x +1 @@\n x\n").unwrap_err();
    assert_eq!(e.kind, ParseErrorKind::Digit);
    assert_eq!(e.line, 3);
    assert_eq!(e.offset, 16);
}

#[test]
fn error_digit_overflow() {
    // A start line that does not fit in 64 bits is a reported error.
    let e = Patch::from_single("--- a\n+++ b\n@@ -99999999999999999999 +1 @@\n x\n")
        .unwrap_err();
    assert_eq!(e.kind, ParseErrorKind::Digit);
    assert_eq!(e.line, 3);
}

#[test]
fn error_isnot() {
    // Nothing that could be a file name follows the header introduction.
    let e = Patch::from_single("--- \n+++ b\n@@ -1 +1 @@\n x\n").unwrap_err();
    assert_eq!(e.kind, ParseErrorKind::IsNot);
    assert_eq!(e.offset, 4);
}

#[test]
fn error_trailing_input() {
    let sample = "--- a\n+++ b\n@@ -1 +1 @@\n x\ntrailing junk\n";
    let e = Patch::from_single(sample).unwrap_err();
    assert_eq!(e.kind, ParseErrorKind::TrailingInput);
    assert_eq!(e.line, 5);
    assert_eq!(e.offset, 27);
    assert_eq!(e.fragment, "trailing junk\n");
}

#[test]
fn error_offset_counts_bytes() {
    // The offset is a byte offset: the path holds a two-byte character.
    let e = Patch::from_single("--- \u{e9}\rx\n+++ b\n@@ -1 +1 @@\n x\n").unwrap_err();
    assert_eq!(e.kind, ParseErrorKind::CrLf);
    assert_eq!(e.offset, 6);
}

#[test]
fn render_canonicalizes_second_level_timestamps() {
    // An input timestamp without sub-second digits renders without them
    // too, and the rendered patch re-parses to an equal structure.
    let sample = "--- a\t2002-02-21 23:30:50 -0800\n+++ b\n@@ -1,1 +1,1 @@\n x\n";
    let p = Patch::from_single(sample).unwrap();
    assert_eq!(format!("{}\n", p.render()), sample);
    let p2 = Patch::from_single(&format!("{}\n", p.render())).unwrap();
    assert_eq!(p, p2);
}

#[test]
fn round_trip_with_quoting_and_marker() {
    let sample =
        "--- \"a b\"\t\"meta with space\"\n+++ x\n@@ -1,2 +1,1 @@ hint\n-gone\n kept\n\\ No newline at end of file\n";
    let p = Patch::from_single(sample).unwrap();
    let rendered = format!("{}\n", p.render());
    assert_eq!(rendered, sample);
    let p2 = Patch::from_single(&rendered).unwrap();
    assert_eq!(p, p2);
}

#[test]
fn error_message_text() {
    let e = Patch::from_single("no patch here\n").unwrap_err();
    assert_eq!(e.message(), "Line 1: Error while parsing: no patch here\n");
}

#[test]
fn lexer_rejects_what_is_no_token() {
    assert!(patch::quoted("bare").is_none());
    assert!(patch::quoted("\"unterminated").is_none());
    assert!(patch::quoted("\"bad \\x escape\"").is_none());
    assert!(patch::bare("\tleading tab").is_none());
    assert!(patch::filename("\n").is_none());
    assert!(patch::unescaped_str("\"").is_none());
    assert!(patch::range("x").is_none());
    assert!(patch::chunk_header("@@ -1 +1 @\n").is_none());
    assert!(patch::chunk("@@ -1 +1 @@\nno lines\n").is_none());
    assert!(patch::headers("--- only one line\n").is_none());
}

#[test]
fn multi_patch_round_trip() {
    let sample = "\
--- a.txt
+++ b.txt
@@ -1,1 +1,1 @@
-old a
+new a
--- c.txt\t08f78e0addd5bf7b7aa8887e406493e75e8d2b55
+++ d.txt\t2002-02-21 23:30:50 -0800
@@ -2,2 +2,2 @@
 keep
-old c
\\ No newline at end of file
";
    let patches = Patch::from_multiple(sample).unwrap();
    let rendered = patch::render_all(&patches);
    assert_eq!(rendered, sample);
    let patches2 = Patch::from_multiple(&rendered).unwrap();
    assert_eq!(patches, patches2);
}

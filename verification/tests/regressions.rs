//! Regression tests for corner cases found in the wild.

use patch::{File, FileMetadata, Hunk, Line, Patch, Range};

#[test]
fn hunk_header_context_is_not_a_line_15() {
    let sample = "\
--- old.txt
+++ new.txt
@@ -0,0 +0,0 @@ spoopadoop
 x
";
    let patch = Patch::from_single(sample).unwrap();
    assert_eq!(patch.hunks[0].lines, [Line::Context("x".to_string())]);
}

#[test]
fn crlf_breaks_stuff_17() {
    let sample = "\
--- old.txt\r
+++ new.txt\r
@@ -0,0 +0,0 @@\r
 x\r
";
    let patch = Patch::from_single(sample).unwrap();
    assert_eq!(
        patch,
        Patch {
            old: File { path: "old.txt".to_string(), meta: None },
            new: File { path: "new.txt".to_string(), meta: None },
            hunks: vec![Hunk {
                old_range: Range { start: 0, count: 0 },
                new_range: Range { start: 0, count: 0 },
                range_hint: "".to_string(),
                lines: vec![Line::Context("x".to_string())],
            }],
            end_newline: true,
        }
    );
}

#[test]
fn unquoted_filenames_with_spaces_11() {
    let sample = "\
--- unquoted no space\t
+++ unquoted no space\twith metadata
@@ -0,0 +0,0 @@
 x
";
    let patch = Patch::from_single(sample).unwrap();
    assert_eq!(patch.old, File { path: "unquoted no space".to_string(), meta: None });
    assert_eq!(
        patch.new,
        File {
            path: "unquoted no space".to_string(),
            meta: Some(FileMetadata::Other("with metadata".to_string())),
        }
    );
}

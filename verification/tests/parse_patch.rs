//! End-to-end tests of parsing and re-rendering single and concatenated
//! patches.

use patch::{File, FileMetadata, Patch, Timestamp};

#[test]
fn parse_patch_test_parse() {
    let sample = "\
--- before.py
+++ after.py
@@ -1,4 +1,4 @@
-bacon
-eggs
-ham
+python
+eggy
+hamster
 guido\n";
    let patch = Patch::from_single(sample).unwrap();
    assert_eq!(patch.old, File { path: "before.py".to_string(), meta: None });
    assert_eq!(patch.new, File { path: "after.py".to_string(), meta: None });
    assert_eq!(patch.end_newline, true);

    assert_eq!(format!("{}\n", patch.render()), sample);
}

#[test]
fn test_parse_no_newline_indicator() {
    let sample = "\
--- before.py
+++ after.py
@@ -1,4 +1,4 @@
-bacon
-eggs
-ham
+python
+eggy
+hamster
 guido
\\ No newline at end of file\n";
    let patch = Patch::from_single(sample).unwrap();
    assert_eq!(patch.old, File { path: "before.py".to_string(), meta: None });
    assert_eq!(patch.new, File { path: "after.py".to_string(), meta: None });
    assert_eq!(patch.end_newline, false);

    assert_eq!(format!("{}\n", patch.render()), sample);
}

#[test]
fn parse_patch_test_parse_timestamps() {
    let sample = "\
--- before.py\t2002-02-21 23:30:39.942229878 -0800
+++ after.py\t2002-02-21 23:30:50 -0800
@@ -1,4 +1,4 @@
-bacon
-eggs
-ham
+python
+eggy
+hamster
 guido
\\ No newline at end of file";
    let patch = Patch::from_single(sample).unwrap();
    assert_eq!(
        patch.old,
        File {
            path: "before.py".to_string(),
            meta: Some(FileMetadata::DateTime(Timestamp {
                year: 2002,
                month: 2,
                day: 21,
                hour: 23,
                minute: 30,
                second: 39,
                nanosecond: 942229878,
                offset_seconds: -28800,
            })),
        }
    );
    assert_eq!(
        patch.new,
        File {
            path: "after.py".to_string(),
            meta: Some(FileMetadata::DateTime(Timestamp {
                year: 2002,
                month: 2,
                day: 21,
                hour: 23,
                minute: 30,
                second: 50,
                nanosecond: 0,
                offset_seconds: -28800,
            })),
        }
    );
    assert_eq!(patch.end_newline, false);

    // Rendering adds no trailing newline.
    assert_eq!(patch.render(), sample);
}

#[test]
fn test_parse_other() {
    let sample = "\
--- before.py\t08f78e0addd5bf7b7aa8887e406493e75e8d2b55
+++ after.py\te044048282ce75186ecc7a214fd3d9ba478a2816
@@ -1,4 +1,4 @@
-bacon
-eggs
-ham
+python
+eggy
+hamster
 guido\n";
    let patch = Patch::from_single(sample).unwrap();
    assert_eq!(
        patch.old,
        File {
            path: "before.py".to_string(),
            meta: Some(FileMetadata::Other(
                "08f78e0addd5bf7b7aa8887e406493e75e8d2b55".to_string()
            )),
        }
    );
    assert_eq!(
        patch.new,
        File {
            path: "after.py".to_string(),
            meta: Some(FileMetadata::Other(
                "e044048282ce75186ecc7a214fd3d9ba478a2816".to_string()
            )),
        }
    );
    assert_eq!(patch.end_newline, true);

    assert_eq!(format!("{}\n", patch.render()), sample);
}

#[test]
fn test_parse_escaped() {
    let sample = "\
--- before.py\t\"asdf \\\\ \\n \\t \\0 \\r \\\" \"
+++ \"My Work/after.py\"\t\"My project is cool! Wow!!; SELECT * FROM USERS;\"
@@ -1,4 +1,4 @@
-bacon
-eggs
-ham
+python
+eggy
+hamster
 guido\n";
    let patch = Patch::from_single(sample).unwrap();
    assert_eq!(
        patch.old,
        File {
            path: "before.py".to_string(),
            meta: Some(FileMetadata::Other("asdf \\ \n \t \0 \r \" ".to_string())),
        }
    );
    assert_eq!(
        patch.new,
        File {
            path: "My Work/after.py".to_string(),
            meta: Some(FileMetadata::Other(
                "My project is cool! Wow!!; SELECT * FROM USERS;".to_string()
            )),
        }
    );
    assert_eq!(patch.end_newline, true);

    assert_eq!(format!("{}\n", patch.render()), sample);
}

#[test]
fn test_parse_triple_plus_minus() {
    // Lines starting with +++ or --- must not be read as regular
    // addition/removal lines that could be part of a hunk.
    let sample = r#"--- main.c
+++ main.c
@@ -1,4 +1,7 @@
+#include<stdio.h>
+
 int main() {
 double a;
---a;
+++a;
+printf("%d\n", a);
 }
"#;
    let patches = Patch::from_multiple(sample).unwrap();
    assert_eq!(patches.len(), 1);

    let patch = &patches[0];
    assert_eq!(patch.old, File { path: "main.c".to_string(), meta: None });
    assert_eq!(patch.new, File { path: "main.c".to_string(), meta: None });
    assert_eq!(patch.end_newline, true);

    assert_eq!(patch.hunks.len(), 1);
    assert_eq!(patch.hunks[0].lines.len(), 8);

    assert_eq!(format!("{}\n", patch.render()), sample);
}

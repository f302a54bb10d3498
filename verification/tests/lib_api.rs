//! Tests of the library's main entry point on complete sample patches.

use patch::{FileMetadata, Patch, Timestamp};

#[test]
fn test_parse() {
    let sample = "\
--- before.py
+++ after.py
@@ -1,4 +1,4 @@
-bacon
-eggs
-ham
+python
+eggy
+hamster
 guido\n";
    match Patch::from_single(sample) {
        Ok(p) => {
            assert_eq!(&p.old.path, "before.py");
            assert_eq!(&p.new.path, "after.py");
            assert_eq!(p.end_newline, true);
        },
        Err(e) => {
            println!("{:?}", e);
            panic!("failed to parse sample patch");
        },
    }
}

#[test]
fn test_parse_no_newline() {
    let sample = "\
--- before.py
+++ after.py
@@ -1,4 +1,4 @@
-bacon
-eggs
-ham
+python
+eggy
+hamster
 guido
\\ No newline at end of file";
    match Patch::from_single(sample) {
        Ok(p) => {
            assert_eq!(&p.old.path, "before.py");
            assert_eq!(&p.new.path, "after.py");
            assert_eq!(p.end_newline, false);
        },
        Err(e) => {
            println!("{:?}", e);
            panic!("failed to parse sample patch");
        },
    }
}

#[test]
fn lib_test_parse_timestamps() {
    let sample = "\
--- before.py\t2002-02-21 23:30:39.942229878 -0800
+++ after.py\t2002-02-21 23:30:50.442260588 -0800
@@ -1,4 +1,4 @@
-bacon
-eggs
-ham
+python
+eggy
+hamster
 guido\n";
    match Patch::from_single(sample) {
        Ok(p) => {
            assert_eq!(&p.old.path, "before.py");
            assert_eq!(&p.new.path, "after.py");
            assert_eq!(
                p.old.meta,
                Some(FileMetadata::DateTime(Timestamp {
                    year: 2002,
                    month: 2,
                    day: 21,
                    hour: 23,
                    minute: 30,
                    second: 39,
                    nanosecond: 942229878,
                    offset_seconds: -28800,
                }))
            );
            assert_eq!(
                p.new.meta,
                Some(FileMetadata::DateTime(Timestamp {
                    year: 2002,
                    month: 2,
                    day: 21,
                    hour: 23,
                    minute: 30,
                    second: 50,
                    nanosecond: 442260588,
                    offset_seconds: -28800,
                }))
            );
            assert_eq!(p.end_newline, true);
        },
        Err(e) => {
            println!("{:?}", e);
            panic!("failed to parse sample patch");
        },
    }
}

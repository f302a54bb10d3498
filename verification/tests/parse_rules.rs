//! Tests of the individual grammar rules through their public entry
//! points: the escape codec, the token lexer, the header parser and the
//! hunk parser.

use patch::{
    bare, chunk, chunk_header, filename, header_line_content, headers, quoted, range,
    unescaped_str, File, FileMetadata, Hunk, Line, Patch, Range, Timestamp,
};

fn ts(
    year: i32,
    month: u32,
    day: u32,
    hour: u32,
    minute: u32,
    second: u32,
    nanosecond: u32,
    offset_seconds: i32,
) -> Timestamp {
    Timestamp { year, month, day, hour, minute, second, nanosecond, offset_seconds }
}

#[test]
fn test_unescape() {
    let r = unescaped_str("file \\\"name\\\"").unwrap();
    assert_eq!(r.0, "file \"name\"".to_string());
    assert_eq!(r.1, "");
}

#[test]
fn test_quoted() {
    let r = quoted("\"file name\"").unwrap();
    assert_eq!(r.0, "file name".to_string());
    assert_eq!(r.1, "");
}

#[test]
fn test_bare() {
    let r = bare("file-name ").unwrap();
    assert_eq!(r, ("file-name ".to_string(), "".to_string()));
    let r = bare("file-name\t").unwrap();
    assert_eq!(r, ("file-name".to_string(), "\t".to_string()));
    let r = bare("file-name\n").unwrap();
    assert_eq!(r, ("file-name".to_string(), "\n".to_string()));
}

#[test]
fn test_filename() {
    // bare
    let r = filename("asdf\t").unwrap();
    assert_eq!(r, ("asdf".to_string(), "\t".to_string()));

    // quoted
    let r = filename(r#""a/My Project/src/foo.rs" "#).unwrap();
    assert_eq!(r, ("a/My Project/src/foo.rs".to_string(), " ".to_string()));
    let r = filename(r#""\"asdf\" fdsh \\\t\r" "#).unwrap();
    assert_eq!(r, ("\"asdf\" fdsh \\\t\r".to_string(), " ".to_string()));
    let r = filename(r#""a s\"\nd\0f" "#).unwrap();
    assert_eq!(r, ("a s\"\nd\0f".to_string(), " ".to_string()));
}

#[test]
fn test_header_line_contents() {
    let r = header_line_content("lao\n").unwrap();
    assert_eq!(r.0, File { path: "lao".to_string(), meta: None });
    assert_eq!(r.1, "\n");

    let r = header_line_content("lao\t2002-02-21 23:30:39.942229878 -0800\n").unwrap();
    assert_eq!(
        r.0,
        File {
            path: "lao".to_string(),
            meta: Some(FileMetadata::DateTime(ts(2002, 2, 21, 23, 30, 39, 942229878, -28800))),
        }
    );
    assert_eq!(r.1, "\n");

    let r = header_line_content("lao\t2002-02-21 23:30:39 -0800\n").unwrap();
    assert_eq!(
        r.0,
        File {
            path: "lao".to_string(),
            meta: Some(FileMetadata::DateTime(ts(2002, 2, 21, 23, 30, 39, 0, -28800))),
        }
    );
    assert_eq!(r.1, "\n");

    let r = header_line_content("lao\t08f78e0addd5bf7b7aa8887e406493e75e8d2b55\n").unwrap();
    assert_eq!(
        r.0,
        File {
            path: "lao".to_string(),
            meta: Some(FileMetadata::Other(
                "08f78e0addd5bf7b7aa8887e406493e75e8d2b55".to_string()
            )),
        }
    );
    assert_eq!(r.1, "\n");
}

#[test]
fn test_headers() {
    let sample = "--- lao\t2002-02-21 23:30:39.942229878 -0800\n+++ tzu\t2002-02-21 23:30:50.442260588 -0800\n";
    let (old, new, rest) = headers(sample).unwrap();
    assert_eq!(
        old,
        File {
            path: "lao".to_string(),
            meta: Some(FileMetadata::DateTime(ts(2002, 2, 21, 23, 30, 39, 942229878, -28800))),
        }
    );
    assert_eq!(
        new,
        File {
            path: "tzu".to_string(),
            meta: Some(FileMetadata::DateTime(ts(2002, 2, 21, 23, 30, 50, 442260588, -28800))),
        }
    );
    assert_eq!(rest, "");

    let sample2 = "--- lao\n+++ tzu\n";
    let (old, new, rest) = headers(sample2).unwrap();
    assert_eq!(old, File { path: "lao".to_string(), meta: None });
    assert_eq!(new, File { path: "tzu".to_string(), meta: None });
    assert_eq!(rest, "");

    let sample2b = "--- lao\n+++ tzu\t\n";
    let (old, new, rest) = headers(sample2b).unwrap();
    assert_eq!(old, File { path: "lao".to_string(), meta: None });
    assert_eq!(new, File { path: "tzu".to_string(), meta: None });
    assert_eq!(rest, "");

    let sample3 = "--- lao\t08f78e0addd5bf7b7aa8887e406493e75e8d2b55\n+++ tzu\te044048282ce75186ecc7a214fd3d9ba478a2816\n";
    let (old, new, rest) = headers(sample3).unwrap();
    assert_eq!(
        old,
        File {
            path: "lao".to_string(),
            meta: Some(FileMetadata::Other(
                "08f78e0addd5bf7b7aa8887e406493e75e8d2b55".to_string()
            )),
        }
    );
    assert_eq!(
        new,
        File {
            path: "tzu".to_string(),
            meta: Some(FileMetadata::Other(
                "e044048282ce75186ecc7a214fd3d9ba478a2816".to_string()
            )),
        }
    );
    assert_eq!(rest, "");
}

#[test]
fn test_headers_crlf() {
    let sample = "--- lao\t2002-02-21 23:30:39.942229878 -0800\r\n+++ tzu\t2002-02-21 23:30:50.442260588 -0800\r\n";
    let (old, new, rest) = headers(sample).unwrap();
    assert_eq!(
        old,
        File {
            path: "lao".to_string(),
            meta: Some(FileMetadata::DateTime(ts(2002, 2, 21, 23, 30, 39, 942229878, -28800))),
        }
    );
    assert_eq!(
        new,
        File {
            path: "tzu".to_string(),
            meta: Some(FileMetadata::DateTime(ts(2002, 2, 21, 23, 30, 50, 442260588, -28800))),
        }
    );
    assert_eq!(rest, "");
}

#[test]
fn test_range() {
    let r = range("1,7").unwrap();
    assert_eq!(r.0, Range { start: 1, count: 7 });
    assert_eq!(r.1, "");

    let r = range("2").unwrap();
    assert_eq!(r.0, Range { start: 2, count: 1 });
    assert_eq!(r.1, "");
}

#[test]
fn test_chunk_header() {
    let (r1, r2, hint, rest) = chunk_header("@@ -1,7 +1,6 @@ foo bar\n").unwrap();
    assert_eq!(r1, Range { start: 1, count: 7 });
    assert_eq!(r2, Range { start: 1, count: 6 });
    assert_eq!(hint, " foo bar");
    assert_eq!(rest, "");
}

#[test]
fn test_chunk() {
    let sample = "\
@@ -1,7 +1,6 @@
-The Way that can be told of is not the eternal Way;
-The name that can be named is not the eternal name.
 The Nameless is the origin of Heaven and Earth;
-The Named is the mother of all things.
+The named is the mother of all things.
+
 Therefore let there always be non-being,
   so we may see their subtlety,
 And let there always be being,\n";
    let expected = Hunk {
        old_range: Range { start: 1, count: 7 },
        new_range: Range { start: 1, count: 6 },
        range_hint: "".to_string(),
        lines: vec![
            Line::Remove("The Way that can be told of is not the eternal Way;".to_string()),
            Line::Remove("The name that can be named is not the eternal name.".to_string()),
            Line::Context("The Nameless is the origin of Heaven and Earth;".to_string()),
            Line::Remove("The Named is the mother of all things.".to_string()),
            Line::Add("The named is the mother of all things.".to_string()),
            Line::Add("".to_string()),
            Line::Context("Therefore let there always be non-being,".to_string()),
            Line::Context("  so we may see their subtlety,".to_string()),
            Line::Context("And let there always be being,".to_string()),
        ],
    };
    let (h, rest) = chunk(sample).unwrap();
    assert_eq!(h, expected);
    assert_eq!(rest, "");
}

#[test]
fn test_patch() {
    let sample = "\
--- lao\t2002-02-21 23:30:39.942229878 -0800
+++ tzu\t2002-02-21 23:30:50.442260588 -0800
@@ -1,7 +1,6 @@
-The Way that can be told of is not the eternal Way;
-The name that can be named is not the eternal name.
 The Nameless is the origin of Heaven and Earth;
-The Named is the mother of all things.
+The named is the mother of all things.
+
 Therefore let there always be non-being,
   so we may see their subtlety,
 And let there always be being,
@@ -9,3 +8,6 @@
 The two are the same,
 But after they are produced,
   they have different names.
+They both may be called deep and profound.
+Deeper and more profound,
+The door of all subtleties!\n";

    let expected = Patch {
        old: File {
            path: "lao".to_string(),
            meta: Some(FileMetadata::DateTime(ts(2002, 2, 21, 23, 30, 39, 942229878, -28800))),
        },
        new: File {
            path: "tzu".to_string(),
            meta: Some(FileMetadata::DateTime(ts(2002, 2, 21, 23, 30, 50, 442260588, -28800))),
        },
        hunks: vec![
            Hunk {
                old_range: Range { start: 1, count: 7 },
                new_range: Range { start: 1, count: 6 },
                range_hint: "".to_string(),
                lines: vec![
                    Line::Remove(
                        "The Way that can be told of is not the eternal Way;".to_string(),
                    ),
                    Line::Remove(
                        "The name that can be named is not the eternal name.".to_string(),
                    ),
                    Line::Context("The Nameless is the origin of Heaven and Earth;".to_string()),
                    Line::Remove("The Named is the mother of all things.".to_string()),
                    Line::Add("The named is the mother of all things.".to_string()),
                    Line::Add("".to_string()),
                    Line::Context("Therefore let there always be non-being,".to_string()),
                    Line::Context("  so we may see their subtlety,".to_string()),
                    Line::Context("And let there always be being,".to_string()),
                ],
            },
            Hunk {
                old_range: Range { start: 9, count: 3 },
                new_range: Range { start: 8, count: 6 },
                range_hint: "".to_string(),
                lines: vec![
                    Line::Context("The two are the same,".to_string()),
                    Line::Context("But after they are produced,".to_string()),
                    Line::Context("  they have different names.".to_string()),
                    Line::Add("They both may be called deep and profound.".to_string()),
                    Line::Add("Deeper and more profound,".to_string()),
                    Line::Add("The door of all subtleties!".to_string()),
                ],
            },
        ],
        end_newline: true,
    };

    let parsed = Patch::from_single(sample).unwrap();
    assert_eq!(parsed, expected);

    assert_eq!(format!("{}\n", expected.render()), sample);
}

//! Tests of the hunk hint accessor.

use patch::{Hunk, Range};

#[test]
fn test_hint_helper() {
    let mut h = Hunk {
        old_range: Range { start: 0, count: 0 },
        new_range: Range { start: 0, count: 0 },
        range_hint: "".to_string(),
        lines: vec![],
    };
    for (input, expected) in vec![
        ("", None),
        (" ", None),
        ("  ", None),
        ("x", Some("x")),
        (" x", Some("x")),
        ("x ", Some("x ")),
        (" x ", Some("x ")),
        ("  abc def ", Some("abc def ")),
    ] {
        h.range_hint = input.to_string();
        assert_eq!(h.hint(), expected);
    }
}

use merlion_render::diag::{Diagnostic, Fix, Severity, Span};
use merlion_render::parse::repair::{apply_fixes, is_fence_line};

fn fix(start: u32, end: u32, text: &str) -> Diagnostic {
    Diagnostic {
        severity: Severity::Repair,
        code: "R000",
        span: Span::default(),
        message: String::new(),
        fix: Some(Fix {
            span: Span {
                line: 1,
                column: 1,
                byte_start: start,
                byte_end: end,
            },
            replacement: String::from(text),
        }),
    }
}

fn note() -> Diagnostic {
    Diagnostic {
        severity: Severity::Warning,
        code: "W000",
        span: Span::default(),
        message: String::from("no fix"),
        fix: None,
    }
}

#[test]
fn applies_in_any_order() {
    let src = "abcdef";
    let d = [fix(0, 1, "A"), fix(4, 6, "EF!"), fix(2, 2, "+")];
    assert_eq!(apply_fixes(src, &d), "Ab+cdEF!");
}

#[test]
fn insertions_at_one_offset_keep_order() {
    let d = [fix(3, 3, "1"), fix(3, 3, "2")];
    assert_eq!(apply_fixes("abc", &d), "abc12");
}

#[test]
fn skips_overlaps_and_bad_ranges() {
    let d = [
        fix(1, 4, "X"),
        fix(2, 3, "Y"),
        fix(5, 99, "Z"),
        fix(2, 1, "W"),
    ];
    // The later-starting fix wins an overlap.
    assert_eq!(apply_fixes("abcdef", &d), "abYdef");
    // Off a char boundary.
    assert_eq!(apply_fixes("é", &[fix(1, 2, "x")]), "é");
}

#[test]
fn fence_lines() {
    for l in [
        "```",
        "```mermaid",
        "  ```mermaid  ",
        "~~~",
        "````",
        "~~~ mermaid",
    ] {
        assert!(is_fence_line(l), "{l:?}");
    }
    for l in ["``", "A-->B", "```mermaid A-->B", "~~~~ x y", ""] {
        assert!(!is_fence_line(l), "{l:?}");
    }
}

#[test]
fn no_fixes_leave_the_source_unchanged() {
    assert_eq!(apply_fixes("a-->b", &[]), "a-->b");
    assert_eq!(apply_fixes("a-->b", &[note()]), "a-->b");
}

#[test]
fn replacements_keep_multibyte_text() {
    let d = [note(), fix(0, 2, "e"), fix(3, 3, "ü")];
    assert_eq!(apply_fixes("éaé", &d), "eaüé");
}

#[test]
fn mixed_fences_are_not_fences() {
    assert!(!is_fence_line("`~`"));
    assert!(is_fence_line("```c++"));
}

use tshl::engine::sanitize_captures;
use tshl::events::HighlightError;
use tshl::Highlighter;
use tshl::RawCapture;

/// The text of a rendered document with the markup removed and the escapes
/// undone: what the reader's eye would see.
fn strip_markup(s: &str) -> String {
    let mut out = String::new();
    let mut in_tag = false;
    let mut rest = s.chars().peekable();
    while let Some(c) = rest.next() {
        if in_tag {
            if c == '>' {
                in_tag = false;
            }
        } else if c == '<' && (rest.peek() == Some(&'s') || rest.peek() == Some(&'/')) {
            in_tag = true;
        } else {
            out.push(c);
        }
    }
    out.replace("&lt;", "<").replace("&gt;", ">").replace("&amp;", "&")
}

#[test]
fn unknown_language_is_refused() {
    let h = Highlighter::new();
    let r = h.highlight("cobol", "x");
    assert!(matches!(r, Err(HighlightError::UnknownLanguage)));
}

#[test]
fn supported_languages_are_cpp_and_rust() {
    let h = Highlighter::new();
    let mut langs = h.supported_languages();
    langs.sort();
    assert_eq!(langs, vec!["cpp".to_string(), "rust".to_string()]);
}

#[test]
fn rust_source_round_trips_through_markup() {
    let h = Highlighter::new();
    let code = "fn main() {\n    let x = 1 < 2 && 3 > 1;\n}\n";
    let out = h.highlight("rust", code).unwrap();
    assert_eq!(strip_markup(&out), code);
}

#[test]
fn cpp_source_round_trips_through_markup() {
    let h = Highlighter::new();
    let code = "#include <iostream>\nint main() { return 0; }\n";
    let out = h.highlight("cpp", code).unwrap();
    assert_eq!(strip_markup(&out), code);
}

#[test]
fn rust_keywords_are_styled() {
    let h = Highlighter::new();
    let out = h.highlight("rust", "fn main() {}").unwrap();
    assert!(out.contains("<span class=\"tshl-"));
    assert!(out.contains("</span>"));
}

#[test]
fn both_grammars_share_the_keyword_style() {
    // one palette for the whole registry: the keyword category renders with
    // the same token whichever grammar emitted it
    let h = Highlighter::new();
    let rust_out = h.highlight("rust", "if true {}").unwrap();
    let cpp_out = h.highlight("cpp", "int f() { if (1) {} return 0; }").unwrap();
    let needle = "class=\"tshl-keyword";
    assert!(rust_out.contains(needle), "rust output: {rust_out}");
    assert!(cpp_out.contains(needle), "cpp output: {cpp_out}");
}

#[test]
fn every_output_line_has_matched_markers() {
    let h = Highlighter::new();
    let code = "/* a\n   multi-line comment\n*/\nfn f() -> u32 {\n    7\n}\n";
    let out = h.highlight("rust", code).unwrap();
    for line in out.split('\n') {
        let opens = line.matches("<span ").count();
        let closes = line.matches("</span>").count();
        assert_eq!(opens, closes, "unbalanced line: {line}");
    }
}

#[test]
fn empty_source_renders_to_one_empty_line() {
    let h = Highlighter::new();
    let out = h.highlight("rust", "").unwrap();
    assert_eq!(out, "");
}

#[test]
fn multibyte_source_round_trips() {
    let h = Highlighter::new();
    let code = "// caf\u{e9} na\u{ef}ve \u{2603}\nfn caf\u{e9}() {}\n";
    let out = h.highlight("rust", code).unwrap();
    assert_eq!(strip_markup(&out), code);
}

#[test]
fn sanitizer_drops_malformed_oracle_captures() {
    let raw = vec![
        (0usize, 5usize, 0usize),  // kept, remapped to palette index 4
        (3, 3, 0),                 // empty range: dropped
        (2, 10, 1),                // past the end of the source: dropped
        (0, 4, 7),                 // unknown local capture index: dropped
    ];
    let remap = vec![4usize, 2usize];
    let caps = sanitize_captures(&raw, &remap, 8, 5);
    assert_eq!(caps, vec![RawCapture { start: 0, end: 5, index: 4 }]);
}

use tshl::events::{Fragment, OutputLine};
use tshl::markup::{line_to_markup, style_token_bytes};
use tshl::palette::Palette;

fn names(list: &[&str]) -> Vec<Vec<u8>> {
    list.iter().map(|s| s.as_bytes().to_vec()).collect()
}

#[test]
fn palette_deduplicates_shared_names() {
    let mut p = Palette::new();
    p.merge_names(&names(&["keyword", "function.method", "comment"]));
    p.merge_names(&names(&["keyword", "string", "comment"]));
    assert_eq!(p.names.len(), 4);
    assert!(p.index_of(&b"keyword".to_vec()).is_some());
    assert!(p.index_of(&b"string".to_vec()).is_some());
    assert!(p.index_of(&b"cobol".to_vec()).is_none());
}

#[test]
fn palette_index_is_registration_order_independent() {
    // the same two vocabularies, merged in either order, give every shared
    // name the same index
    let first = names(&["keyword", "function.method", "comment"]);
    let second = names(&["keyword", "string", "type.builtin"]);

    let mut p1 = Palette::new();
    p1.merge_names(&first);
    p1.merge_names(&second);

    let mut p2 = Palette::new();
    p2.merge_names(&second);
    p2.merge_names(&first);

    assert_eq!(p1.names, p2.names);
    for n in first.iter().chain(second.iter()) {
        assert_eq!(p1.index_of(n), p2.index_of(n));
    }
}

#[test]
fn merged_vocabulary_collapses_to_one_index() {
    // a composite built from two sources that both use "keyword": one palette
    // entry, whichever source emitted it
    let cpp_like = names(&["keyword", "operator"]);
    let c_like = names(&["keyword", "number"]);
    let mut p = Palette::new();
    p.merge_names(&cpp_like);
    let idx_from_first = p.index_of(&b"keyword".to_vec()).unwrap();
    p.merge_names(&c_like);
    let idx_after_merge = p.index_of(&b"keyword".to_vec()).unwrap();
    // "keyword" sorts before "number" and "operator", so its index is stable
    assert_eq!(idx_from_first, idx_after_merge);
    assert_eq!(p.names.len(), 3);
}

#[test]
fn style_token_rewrites_dots() {
    let tok = style_token_bytes(&b"function.method".to_vec());
    assert_eq!(tok, b"class=\"tshl-function_method\"".to_vec());
    let plain = style_token_bytes(&b"keyword".to_vec());
    assert_eq!(plain, b"class=\"tshl-keyword\"".to_vec());
}

#[test]
fn markup_escapes_reserved_bytes() {
    let styles = vec![b"class=\"tshl-keyword\"".to_vec()];
    let line = OutputLine {
        frags: vec![
            Fragment::Open(0),
            Fragment::Byte(b'a'),
            Fragment::Byte(b'<'),
            Fragment::Byte(b'&'),
            Fragment::Byte(b'>'),
            Fragment::Close(0),
        ],
    };
    let m = line_to_markup(&line, &styles);
    assert_eq!(
        m,
        b"<span class=\"tshl-keyword\">a&lt;&amp;&gt;</span>".to_vec()
    );
}

#[test]
fn style_token_lookup_by_index() {
    let h = tshl::Highlighter::new();
    let n = h.palette.names.len();
    assert!(n > 0);
    for i in 0..n {
        let tok = h.style_token_of(i).unwrap();
        assert!(tok.starts_with(b"class=\"tshl-"));
    }
    assert!(h.style_token_of(n).is_none());
}

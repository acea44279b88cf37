use vstd::prelude::*;

use vstd::string::StrSliceExecFns;
use vstd::string::StringSliceAdditionalSpecFns;
use vstd::utf8::encode_utf8;

use crate::events::{HighlightError, OutputLine, RawCapture};
use crate::markup::{doc_markup, document_markup, lines_styled, style_token, style_token_bytes};
use crate::oracle::{
    collect_captures, cpp_language, cpp_query, parser_new, parser_parse, parser_set_language,
    query_capture_names, rust_language, rust_query, string_from_utf8,
};
use crate::palette::{bytes_eq, Palette};
use crate::render::{render, render_spec};
use crate::render_props::{
    balanced, joined, lemma_render_accepts, lemma_render_balanced, lemma_render_round_trip,
    lemma_render_styled,
};
use crate::resolve::{
    caps_bounded, caps_indexed, caps_sorted, resolve, resolve_spec, sort_captures,
};
use crate::stream_props::{lemma_resolve_round_trip, lemma_resolve_spec_props};

verus! {

/// One registered language: its id, its compiled grammar and query, and the
/// re-indexing of the query's local capture numbers into the shared palette.
pub struct LanguageEntry {
    pub id: String,
    pub id_bytes: Vec<u8>,
    pub language: tree_sitter::Language,
    pub query: tree_sitter::Query,
    pub remap: Vec<usize>,
}

pub open spec fn entry_wf(e: LanguageEntry, plen: int) -> bool {
    &&& e.id_bytes@ == encode_utf8(e.id@)
    &&& forall|j: int| 0 <= j < e.remap@.len() ==> (#[trigger] e.remap@[j]) < plen
}

/// The engine: an immutable registry of languages sharing one style palette.
/// Built once; every highlight call is a pure function of it.
pub struct Highlighter {
    pub entries: Vec<LanguageEntry>,
    pub palette: Palette,
    pub styles: Vec<Vec<u8>>,
}

impl Highlighter {
    pub open spec fn wf(&self) -> bool {
        &&& self.palette.wf()
        &&& self.styles@.len() == self.palette.view_names().len()
        &&& forall|i: int|
            0 <= i < self.styles@.len() ==> self.styles.deep_view()[i] == style_token(
                self.palette.view_names()[i],
            )
        &&& forall|i: int|
            0 <= i < self.entries@.len() ==> entry_wf(
                #[trigger] self.entries@[i],
                self.styles@.len() as int,
            )
    }

    /// A language id is registered when some entry carries it.
    pub open spec fn registered(&self, id: Seq<u8>) -> bool {
        exists|i: int|
            0 <= i < self.entries@.len() && (#[trigger] self.entries@[i]).id_bytes@ == id
    }

    /// The markup this engine gives to one resolved capture set over a source.
    pub open spec fn rendered_doc(&self, caps: Seq<RawCapture>, src: Seq<u8>) -> Seq<u8> {
        doc_markup(
            render_spec(resolve_spec(caps, src.len() as usize), src).unwrap(),
            self.styles.deep_view(),
        )
    }

    /// Builds the engine: compiles the highlight queries bundled with the
    /// built-in grammars, merges both vocabularies into one palette, and
    /// re-indexes each query's captures against it. The registry is exactly
    /// the two built-in languages.
    pub fn new() -> (h: Highlighter)
        ensures
            h.wf(),
            h.entries@.len() == 2,
            h.entries@[0].id@ == "cpp"@,
            h.entries@[1].id@ == "rust"@,
            forall|id: Seq<u8>|
                h.registered(id) <==> (id == encode_utf8("cpp"@) || id == encode_utf8("rust"@)),
    {
        let cpp_lang = cpp_language();
        let cpp_q = match cpp_query() {
            Ok(q) => q,
            Err(_) => {
                proof {
                    assert(false);
                }
                vstd::pervasive::unreached()
            },
        };
        let cpp_names = query_capture_names(&cpp_q);
        let rust_lang = rust_language();
        let rust_q = match rust_query() {
            Ok(q) => q,
            Err(_) => {
                proof {
                    assert(false);
                }
                vstd::pervasive::unreached()
            },
        };
        let rust_names = query_capture_names(&rust_q);
        let mut palette = Palette::new();
        palette.merge_names(&cpp_names);
        palette.merge_names(&rust_names);
        let cpp_remap = build_remap(&palette, &cpp_names);
        let rust_remap = build_remap(&palette, &rust_names);
        let styles = build_styles(&palette);
        let mut entries: Vec<LanguageEntry> = Vec::new();
        let cpp_entry = LanguageEntry {
            id: "cpp".to_owned(),
            id_bytes: ("cpp").as_bytes_vec(),
            language: cpp_lang,
            query: cpp_q,
            remap: cpp_remap,
        };
        let rust_entry = LanguageEntry {
            id: "rust".to_owned(),
            id_bytes: ("rust").as_bytes_vec(),
            language: rust_lang,
            query: rust_q,
            remap: rust_remap,
        };
        entries.push(cpp_entry);
        entries.push(rust_entry);
        let h = Highlighter { entries, palette, styles };
        proof {
            assert(h.entries@[0].id_bytes@ == encode_utf8("cpp"@));
            assert(h.entries@[1].id_bytes@ == encode_utf8("rust"@));
            assert forall|id: Seq<u8>|
                h.registered(id) <==> (id == encode_utf8("cpp"@) || id == encode_utf8(
                    "rust"@,
                )) by {
                if h.registered(id) {
                    let i = choose|i: int|
                        0 <= i < h.entries@.len() && (#[trigger] h.entries@[i]).id_bytes@ == id;
                    assert(i == 0 || i == 1);
                }
                if id == encode_utf8("cpp"@) {
                    assert(h.entries@[0].id_bytes@ == id);
                }
                if id == encode_utf8("rust"@) {
                    assert(h.entries@[1].id_bytes@ == id);
                }
            }
        }
        h
    }

    /// The registered language ids.
    pub fn supported_languages(&self) -> (r: Vec<String>)
        ensures
            r@.len() == self.entries@.len(),
            forall|i: int| 0 <= i < r@.len() ==> (#[trigger] r@[i])@ == self.entries@[i].id@,
    {
        let mut r: Vec<String> = Vec::new();
        let mut k: usize = 0;
        while k < self.entries.len()
            invariant
                k <= self.entries@.len(),
                r@.len() == k,
                forall|i: int| 0 <= i < k ==> (#[trigger] r@[i])@ == self.entries@[i].id@,
            decreases self.entries@.len() - k,
        {
            r.push(self.entries[k].id.clone());
            k = k + 1;
        }
        r
    }

    /// The externally visible style token of one palette index, if there is
    /// an index-th category.
    pub fn style_token_of(&self, index: usize) -> (r: Option<Vec<u8>>)
        requires
            self.wf(),
        ensures
            match r {
                Some(tok) => index < self.palette.view_names().len() && tok@ == style_token(
                    self.palette.view_names()[index as int],
                ),
                None => index >= self.palette.view_names().len(),
            },
    {
        if index < self.styles.len() {
            proof {
                assert(self.styles.deep_view()[index as int] == self.styles@[index as int]@);
            }
            Some(crate::palette::copy_bytes(&self.styles[index]))
        } else {
            None
        }
    }

    /// The resolver and renderer on an already-sanitised capture set: sorts
    /// the captures, resolves them to a nested event stream, and renders the
    /// output lines. The result round-trips the source bytes exactly and
    /// every line is balanced on its own.
    pub fn highlight_lines(&self, caps: &Vec<RawCapture>, src: &Vec<u8>) -> (lines: Vec<
        OutputLine,
    >)
        requires
            self.wf(),
            caps_bounded(caps@, src@.len() as usize),
            caps_indexed(caps@, self.styles@.len() as usize),
        ensures
            exists|sorted: Seq<RawCapture>|
                caps_sorted(sorted) && #[trigger] sorted.to_multiset() == caps@.to_multiset()
                    && Some(lines@.map_values(|l: OutputLine| l@)) == render_spec(
                    resolve_spec(sorted, src@.len() as usize),
                    src@,
                ),
            joined(lines@.map_values(|l: OutputLine| l@)) == src@,
            forall|i: int| 0 <= i < lines@.len() ==> balanced((#[trigger] lines@[i])@),
            lines_styled(lines@.map_values(|l: OutputLine| l@), self.styles@.len() as int),
    {
        let ghost plen = (self.styles@.len() as usize);
        let sorted = sort_captures(caps);
        proof {
            caps@.to_multiset_ensures();
            sorted@.to_multiset_ensures();
            assert forall|i: int| 0 <= i < sorted@.len() implies {
                &&& (#[trigger] sorted@[i]).start < sorted@[i].end
                &&& sorted@[i].end <= src@.len() as usize
                &&& sorted@[i].index < plen
            } by {
                let c = sorted@[i];
                assert(sorted@.contains(c));
                assert(sorted@.to_multiset().count(c) > 0);
                assert(caps@.to_multiset().count(c) > 0);
                assert(caps@.contains(c));
                let w = choose|w: int| 0 <= w < caps@.len() && caps@[w] == c;
                assert(caps@[w] == c);
            }
        }
        let len = src.len();
        let events = resolve(&sorted, len);
        proof {
            lemma_resolve_spec_props(sorted@, len, plen);
            lemma_render_accepts(events@, src@, plen);
        }
        let lines = match render(&events, src) {
            Ok(l) => l,
            Err(_) => {
                proof {
                    assert(false);
                }
                Vec::new()
            },
        };
        proof {
            let lv = lines@.map_values(|l: OutputLine| l@);
            lemma_render_balanced(events@, src@, lv, plen);
            lemma_render_round_trip(events@, src@, lv, plen);
            lemma_render_styled(events@, src@, lv, plen);
            lemma_resolve_round_trip(sorted@, src@, plen);
            assert(caps_sorted(sorted@) && sorted@.to_multiset() == caps@.to_multiset() && Some(lv)
                == render_spec(resolve_spec(sorted@, src@.len() as usize), src@));
            assert forall|i: int| 0 <= i < lines@.len() implies balanced(
                (#[trigger] lines@[i])@,
            ) by {
                assert(lv[i] == lines@[i]@);
            }
        }
        lines
    }

    /// Highlights one source text as the given language. Fails with
    /// `UnknownLanguage` exactly when the id is not registered, and with
    /// `TreeSitterError` when the external parser or query engine fails or
    /// the rendered bytes do not form a string; otherwise the result is the
    /// rendered markup of some capture set over the source.
    pub fn highlight(&self, lang: &str, code: &str) -> (r: Result<String, HighlightError>)
        requires
            self.wf(),
        ensures
            (r == Err::<String, HighlightError>(HighlightError::UnknownLanguage)) <==> !self.registered(
                lang.spec_bytes(),
            ),
            match r {
                Ok(out) => exists|caps: Seq<RawCapture>|
                    {
                        &&& caps_sorted(caps)
                        &&& caps_bounded(caps, code.spec_bytes().len() as usize)
                        &&& #[trigger] caps_indexed(caps, self.styles@.len() as usize)
                        &&& encode_utf8(out@) == self.rendered_doc(caps, code.spec_bytes())
                    },
                Err(e) => e == HighlightError::UnknownLanguage || e
                    == HighlightError::TreeSitterError,
            },
    {
        let lang_bytes = lang.as_bytes_vec();
        let mut idx: usize = 0;
        let mut found = false;
        while idx < self.entries.len() && !found
            invariant
                idx <= self.entries@.len(),
                found ==> idx < self.entries@.len() && self.entries@[idx as int].id_bytes@
                    == lang_bytes@,
                !found ==> forall|i: int|
                    0 <= i < idx ==> (#[trigger] self.entries@[i]).id_bytes@ != lang_bytes@,
            decreases self.entries@.len() - idx, (if found { 0int } else { 1int }),
        {
            if bytes_eq(&self.entries[idx].id_bytes, &lang_bytes) {
                found = true;
            } else {
                idx = idx + 1;
            }
        }
        if !found {
            proof {
                assert(!self.registered(lang.spec_bytes()));
            }
            return Err(HighlightError::UnknownLanguage);
        }
        proof {
            assert(self.registered(lang.spec_bytes()));
        }
        let src = code.as_bytes_vec();
        let entry = &self.entries[idx];
        let mut parser = parser_new();
        if !parser_set_language(&mut parser, &entry.language) {
            return Err(HighlightError::TreeSitterError);
        }
        let tree = match parser_parse(&mut parser, &src) {
            Some(t) => t,
            None => {
                return Err(HighlightError::TreeSitterError);
            },
        };
        let raw = collect_captures(&entry.query, &tree, &src);
        proof {
            assert(entry_wf(self.entries@[idx as int], self.styles@.len() as int));
        }
        let caps = sanitize_captures(&raw, &entry.remap, src.len(), self.styles.len());
        let lines = self.highlight_lines(&caps, &src);
        let bytes = document_markup(&lines, &self.styles);
        match string_from_utf8(bytes) {
            Some(s) => {
                proof {
                    let lv = lines@.map_values(|l: OutputLine| l@);
                    let sorted = choose|sorted: Seq<RawCapture>|
                        caps_sorted(sorted) && #[trigger] sorted.to_multiset()
                            == caps@.to_multiset() && Some(lv) == render_spec(
                            resolve_spec(sorted, src@.len() as usize),
                            src@,
                        );
                    caps@.to_multiset_ensures();
                    sorted.to_multiset_ensures();
                    assert forall|i: int| 0 <= i < sorted.len() implies {
                        &&& (#[trigger] sorted[i]).start < sorted[i].end
                        &&& sorted[i].end <= src@.len() as usize
                        &&& sorted[i].index < self.styles@.len() as usize
                    } by {
                        let c = sorted[i];
                        assert(sorted.contains(c));
                        assert(sorted.to_multiset().count(c) > 0);
                        assert(caps@.to_multiset().count(c) > 0);
                        assert(caps@.contains(c));
                        let w = choose|w: int| 0 <= w < caps@.len() && caps@[w] == c;
                        assert(caps@[w] == c);
                    }
                    assert(caps_indexed(sorted, self.styles@.len() as usize));
                    assert(encode_utf8(s@) == self.rendered_doc(sorted, code.spec_bytes()));
                }
                Ok(s)
            },
            None => Err(HighlightError::TreeSitterError),
        }
    }
}

/// The captures that survive sanitising, in input order: a triple whose range
/// is non-empty and inside the source and whose local index the re-indexing
/// knows becomes a capture on its palette index; everything else is dropped.
pub open spec fn sanitize_spec(
    raw: Seq<(usize, usize, usize)>,
    remap: Seq<usize>,
    len: usize,
) -> Seq<RawCapture>
    decreases raw.len(),
{
    if raw.len() == 0 {
        Seq::empty()
    } else {
        let pre = sanitize_spec(raw.drop_last(), remap, len);
        let t = raw.last();
        if t.0 < t.1 && t.1 <= len && t.2 < remap.len() {
            pre.push(RawCapture { start: t.0, end: t.1, index: remap[t.2 as int] })
        } else {
            pre
        }
    }
}

/// Keeps the captures that name a sane range inside the source and a capture
/// index the query re-indexing knows, and rewrites each local index to its
/// palette index. Nothing else of the oracle's output is trusted.
pub fn sanitize_captures(
    raw: &Vec<(usize, usize, usize)>,
    remap: &Vec<usize>,
    len: usize,
    plen: usize,
) -> (r: Vec<RawCapture>)
    requires
        forall|j: int| 0 <= j < remap@.len() ==> (#[trigger] remap@[j]) < plen,
    ensures
        r@ == sanitize_spec(raw@, remap@, len),
        caps_bounded(r@, len),
        caps_indexed(r@, plen),
{
    let mut r: Vec<RawCapture> = Vec::new();
    let mut k: usize = 0;
    proof {
        assert(raw@.take(0) =~= Seq::<(usize, usize, usize)>::empty());
    }
    while k < raw.len()
        invariant
            k <= raw@.len(),
            forall|j: int| 0 <= j < remap@.len() ==> (#[trigger] remap@[j]) < plen,
            r@ == sanitize_spec(raw@.take(k as int), remap@, len),
            caps_bounded(r@, len),
            caps_indexed(r@, plen),
        decreases raw@.len() - k,
    {
        let (s, e, i) = raw[k];
        if s < e && e <= len && i < remap.len() {
            let ghost pre = r@;
            r.push(RawCapture { start: s, end: e, index: remap[i] });
            proof {
                assert(forall|j: int| 0 <= j < pre.len() ==> r@[j] == pre[j]);
                assert(r@.last() == RawCapture { start: s, end: e, index: remap@[i as int] });
            }
        }
        k = k + 1;
        proof {
            assert(raw@.take(k as int).drop_last() =~= raw@.take(k as int - 1));
            assert(raw@.take(k as int).last() == raw@[k as int - 1]);
            assert(r@ =~= sanitize_spec(raw@.take(k as int), remap@, len));
        }
    }
    proof {
        assert(raw@.take(k as int) =~= raw@);
    }
    r
}

/// The palette index of each of one query's local capture names; every name
/// was merged first, so each lookup succeeds and lands on the merged name.
pub fn build_remap(palette: &Palette, names: &Vec<Vec<u8>>) -> (r: Vec<usize>)
    requires
        palette.wf(),
        forall|j: int| 0 <= j < names@.len() ==> palette.has(#[trigger] names.deep_view()[j]),
    ensures
        r@.len() == names@.len(),
        forall|j: int| 0 <= j < r@.len() ==> (#[trigger] r@[j]) < palette.view_names().len(),
        forall|j: int|
            0 <= j < r@.len() ==> palette.view_names()[#[trigger] r@[j] as int]
                == names.deep_view()[j],
    {
    let mut r: Vec<usize> = Vec::new();
    let mut k: usize = 0;
    while k < names.len()
        invariant
            k <= names@.len(),
            palette.wf(),
            forall|j: int| 0 <= j < names@.len() ==> palette.has(#[trigger] names.deep_view()[j]),
            r@.len() == k,
            forall|j: int| 0 <= j < k ==> (#[trigger] r@[j]) < palette.view_names().len(),
            forall|j: int|
                0 <= j < k ==> palette.view_names()[#[trigger] r@[j] as int]
                    == names.deep_view()[j],
        decreases names@.len() - k,
    {
        proof {
            assert(names.deep_view()[k as int] == names@[k as int]@);
            assert(palette.has(names@[k as int]@));
        }
        let idx = match palette.index_of(&names[k]) {
            Some(i) => i,
            None => {
                proof {
                    assert(false);
                }
                0
            },
        };
        r.push(idx);
        k = k + 1;
    }
    r
}

/// One style token per palette entry, in palette order.
pub fn build_styles(palette: &Palette) -> (r: Vec<Vec<u8>>)
    ensures
        r@.len() == palette.view_names().len(),
        forall|i: int|
            0 <= i < r@.len() ==> r.deep_view()[i] == style_token(palette.view_names()[i]),
{
    let mut r: Vec<Vec<u8>> = Vec::new();
    let mut k: usize = 0;
    while k < palette.names.len()
        invariant
            k <= palette.names@.len(),
            r@.len() == k,
            forall|i: int|
                0 <= i < k ==> #[trigger] r.deep_view()[i] == style_token(
                    palette.view_names()[i],
                ),
        decreases palette.names@.len() - k,
    {
        let tok = style_token_bytes(&palette.names[k]);
        let ghost pre = r.deep_view();
        r.push(tok);
        k = k + 1;
        proof {
            assert(palette.view_names()[k as int - 1] == palette.names@[k as int - 1]@);
            assert forall|i: int|
                0 <= i < k implies #[trigger] r.deep_view()[i] == style_token(
                palette.view_names()[i],
            ) by {
                assert(r.deep_view()[i] == r@[i]@);
                if i < k - 1 {
                    assert(pre[i] == r@[i]@);
                } else {
                    assert(r@[i]@ == style_token(palette.view_names()[k as int - 1]));
                }
            }
        }
    }
    r
}

} // verus!

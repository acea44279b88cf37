use vstd::prelude::*;

use crate::events::{Fragment, OutputLine};

verus! {

/// A reserved byte, escaped: `&`, `<` and `>` become entities, every other
/// byte stands for itself.
pub open spec fn escape_byte(b: u8) -> Seq<u8> {
    if b == 38 {
        seq![38u8, 97u8, 109u8, 112u8, 59u8]  // &amp;
    } else if b == 60 {
        seq![38u8, 108u8, 116u8, 59u8]  // &lt;
    } else if b == 62 {
        seq![38u8, 103u8, 116u8, 59u8]  // &gt;
    } else {
        seq![b]
    }
}

/// `class="tshl-`
pub open spec fn style_prefix() -> Seq<u8> {
    seq![99u8, 108u8, 97u8, 115u8, 115u8, 61u8, 34u8, 116u8, 115u8, 104u8, 108u8, 45u8]
}

/// The externally visible style token of a category name: its structural
/// dots rewritten to a selector-safe form, framed as a class attribute.
pub open spec fn style_token(name: Seq<u8>) -> Seq<u8> {
    style_prefix() + name.map_values(|b: u8| if b == 46 { 95u8 } else { b }) + seq![34u8]
}

/// `<span ` ++ style ++ `>`
pub open spec fn open_marker(style: Seq<u8>) -> Seq<u8> {
    seq![60u8, 115u8, 112u8, 97u8, 110u8, 32u8] + style + seq![62u8]
}

/// `</span>`
pub open spec fn close_marker() -> Seq<u8> {
    seq![60u8, 47u8, 115u8, 112u8, 97u8, 110u8, 62u8]
}

pub open spec fn frag_markup(f: Fragment, styles: Seq<Seq<u8>>) -> Seq<u8> {
    match f {
        Fragment::Open(i) => open_marker(styles[i as int]),
        Fragment::Close(_) => close_marker(),
        Fragment::Byte(b) => escape_byte(b),
    }
}

pub open spec fn line_markup(fs: Seq<Fragment>, styles: Seq<Seq<u8>>) -> Seq<u8>
    decreases fs.len(),
{
    if fs.len() == 0 {
        Seq::empty()
    } else {
        line_markup(fs.drop_last(), styles) + frag_markup(fs.last(), styles)
    }
}

/// The whole document: the markup of every line, with a line feed between
/// consecutive lines.
pub open spec fn doc_markup(lines: Seq<Seq<Fragment>>, styles: Seq<Seq<u8>>) -> Seq<u8>
    decreases lines.len(),
{
    if lines.len() == 0 {
        Seq::empty()
    } else if lines.len() == 1 {
        line_markup(lines.last(), styles)
    } else {
        doc_markup(lines.drop_last(), styles) + seq![10u8] + line_markup(lines.last(), styles)
    }
}

/// Builds the style token of one category name.
pub fn style_token_bytes(name: &Vec<u8>) -> (r: Vec<u8>)
    ensures
        r@ == style_token(name@),
{
    let mut r: Vec<u8> = Vec::new();
    r.push(99u8);
    r.push(108u8);
    r.push(97u8);
    r.push(115u8);
    r.push(115u8);
    r.push(61u8);
    r.push(34u8);
    r.push(116u8);
    r.push(115u8);
    r.push(104u8);
    r.push(108u8);
    r.push(45u8);
    proof {
        assert(r@ =~= style_prefix());
    }
    let mut i: usize = 0;
    while i < name.len()
        invariant
            i <= name@.len(),
            r@ == style_prefix() + name@.take(i as int).map_values(
                |b: u8| if b == 46 { 95u8 } else { b },
            ),
        decreases name@.len() - i,
    {
        let b = name[i];
        if b == 46u8 {
            r.push(95u8);
        } else {
            r.push(b);
        }
        i = i + 1;
        proof {
            assert(r@ =~= style_prefix() + name@.take(i as int).map_values(
                |b: u8| if b == 46 { 95u8 } else { b },
            ));
        }
    }
    r.push(34u8);
    proof {
        assert(name@.take(name@.len() as int) =~= name@);
        assert(r@ =~= style_token(name@));
    }
    r
}

fn push_escaped(dst: &mut Vec<u8>, b: u8)
    ensures
        final(dst)@ == old(dst)@ + escape_byte(b),
{
    if b == 38u8 {
        dst.push(38u8);
        dst.push(97u8);
        dst.push(109u8);
        dst.push(112u8);
        dst.push(59u8);
    } else if b == 60u8 {
        dst.push(38u8);
        dst.push(108u8);
        dst.push(116u8);
        dst.push(59u8);
    } else if b == 62u8 {
        dst.push(38u8);
        dst.push(103u8);
        dst.push(116u8);
        dst.push(59u8);
    } else {
        dst.push(b);
    }
    proof {
        assert(dst@ =~= old(dst)@ + escape_byte(b));
    }
}

fn push_close_marker(dst: &mut Vec<u8>)
    ensures
        final(dst)@ == old(dst)@ + close_marker(),
{
    dst.push(60u8);
    dst.push(47u8);
    dst.push(115u8);
    dst.push(112u8);
    dst.push(97u8);
    dst.push(110u8);
    dst.push(62u8);
    proof {
        assert(dst@ =~= old(dst)@ + close_marker());
    }
}

fn push_open_marker(dst: &mut Vec<u8>, style: &Vec<u8>)
    ensures
        final(dst)@ == old(dst)@ + open_marker(style@),
{
    dst.push(60u8);
    dst.push(115u8);
    dst.push(112u8);
    dst.push(97u8);
    dst.push(110u8);
    dst.push(32u8);
    let mut i: usize = 0;
    while i < style.len()
        invariant
            i <= style@.len(),
            dst@ == old(dst)@ + seq![60u8, 115u8, 112u8, 97u8, 110u8, 32u8] + style@.take(i as int),
        decreases style@.len() - i,
    {
        dst.push(style[i]);
        i = i + 1;
        proof {
            assert(dst@ =~= old(dst)@ + seq![60u8, 115u8, 112u8, 97u8, 110u8, 32u8] + style@.take(
                i as int,
            ));
        }
    }
    dst.push(62u8);
    proof {
        assert(style@.take(style@.len() as int) =~= style@);
        assert(dst@ =~= old(dst)@ + open_marker(style@));
    }
}

/// Every style index a line mentions stays inside the style table.
pub open spec fn line_styled(fs: Seq<Fragment>, n: int) -> bool {
    forall|k: int|
        0 <= k < fs.len() ==> match #[trigger] fs[k] {
            Fragment::Open(i) => i < n,
            _ => true,
        }
}

/// Renders one output line as escaped markup with style markers.
pub fn line_to_markup(line: &OutputLine, styles: &Vec<Vec<u8>>) -> (r: Vec<u8>)
    requires
        line_styled(line@, styles@.len() as int),
    ensures
        r@ == line_markup(line@, styles.deep_view()),
{
    let mut r: Vec<u8> = Vec::new();
    let mut k: usize = 0;
    proof {
        assert(line@.take(0) =~= Seq::<Fragment>::empty());
        assert(r@ =~= line_markup(line@.take(0), styles.deep_view()));
    }
    while k < line.frags.len()
        invariant
            k <= line@.len(),
            line@ == line.frags@,
            line_styled(line@, styles@.len() as int),
            r@ == line_markup(line@.take(k as int), styles.deep_view()),
        decreases line@.len() - k,
    {
        let ghost pre = r@;
        match line.frags[k] {
            Fragment::Open(i) => {
                proof {
                    assert(line@[k as int] == line.frags@[k as int]);
                }
                push_open_marker(&mut r, &styles[i]);
                proof {
                    assert(styles.deep_view()[i as int] == styles@[i as int]@);
                }
            },
            Fragment::Close(_) => {
                push_close_marker(&mut r);
            },
            Fragment::Byte(b) => {
                push_escaped(&mut r, b);
            },
        }
        k = k + 1;
        proof {
            assert(line@.take(k as int).drop_last() =~= line@.take(k as int - 1));
            assert(line@.take(k as int).last() == line@[k as int - 1]);
        }
    }
    proof {
        assert(line@.take(k as int) =~= line@);
    }
    r
}

pub open spec fn lines_styled(lines: Seq<Seq<Fragment>>, n: int) -> bool {
    forall|i: int| 0 <= i < lines.len() ==> line_styled(#[trigger] lines[i], n)
}

/// Renders a whole document: every line's markup, joined with line feeds.
pub fn document_markup(lines: &Vec<OutputLine>, styles: &Vec<Vec<u8>>) -> (r: Vec<u8>)
    requires
        lines_styled(lines@.map_values(|l: OutputLine| l@), styles@.len() as int),
    ensures
        r@ == doc_markup(lines@.map_values(|l: OutputLine| l@), styles.deep_view()),
{
    let ghost lv = lines@.map_values(|l: OutputLine| l@);
    let mut r: Vec<u8> = Vec::new();
    let mut k: usize = 0;
    proof {
        assert(lv.take(0) =~= Seq::<Seq<Fragment>>::empty());
    }
    while k < lines.len()
        invariant
            k <= lines@.len(),
            lv == lines@.map_values(|l: OutputLine| l@),
            lines_styled(lv, styles@.len() as int),
            r@ == doc_markup(lv.take(k as int), styles.deep_view()),
        decreases lines@.len() - k,
    {
        if k > 0 {
            r.push(10u8);
        }
        proof {
            assert(lv[k as int] == lines@[k as int]@);
        }
        let mut piece = line_to_markup(&lines[k], styles);
        let ghost rpre = r@;
        let mut j: usize = 0;
        while j < piece.len()
            invariant
                j <= piece@.len(),
                r@ == rpre + piece@.take(j as int),
            decreases piece@.len() - j,
        {
            r.push(piece[j]);
            j = j + 1;
            proof {
                assert(r@ =~= rpre + piece@.take(j as int));
            }
        }
        k = k + 1;
        proof {
            assert(piece@.take(piece@.len() as int) =~= piece@);
            assert(lv.take(k as int).drop_last() =~= lv.take(k as int - 1));
            assert(lv.take(k as int).last() == lv[k as int - 1]);
            if k == 1 {
                assert(r@ =~= doc_markup(lv.take(k as int), styles.deep_view()));
            } else {
                assert(r@ =~= doc_markup(lv.take(k as int), styles.deep_view()));
            }
        }
    }
    proof {
        assert(lv.take(k as int) =~= lv);
    }
    r
}

} // verus!

use vstd::prelude::*;

use crate::events::{event_wf, events_wf, run, Event, Fragment};
use crate::markup::{line_styled, lines_styled};
use crate::render::{
    break_line, closes_down, closes_of, init_render, opens_of, put_bytes, render_fold,
    render_spec, RenderState,
};

verus! {

/// Runs the marker discipline over one line's fragments: `Some` of the stack
/// of indices left open, or `None` on a close that does not match.
pub open spec fn frun(fs: Seq<Fragment>, st: Seq<usize>) -> Option<Seq<usize>>
    decreases fs.len(),
{
    if fs.len() == 0 {
        Some(st)
    } else {
        match frun(fs.drop_last(), st) {
            None => None,
            Some(s) => match fs.last() {
                Fragment::Open(i) => Some(s.push(i)),
                Fragment::Close(i) => if s.len() > 0 && s.last() == i {
                    Some(s.drop_last())
                } else {
                    None
                },
                Fragment::Byte(_) => Some(s),
            },
        }
    }
}

/// A line is balanced: every marker it opens it also closes, in stack order.
pub open spec fn balanced(fs: Seq<Fragment>) -> bool {
    frun(fs, Seq::empty()) == Some(Seq::<usize>::empty())
}

/// The source bytes a line carries.
pub open spec fn fbytes(fs: Seq<Fragment>) -> Seq<u8>
    decreases fs.len(),
{
    if fs.len() == 0 {
        Seq::empty()
    } else {
        fbytes(fs.drop_last()) + (match fs.last() {
            Fragment::Byte(b) => seq![b],
            _ => Seq::<u8>::empty(),
        })
    }
}

/// The bytes of a sequence of lines, with the line feeds put back between
/// them.
pub open spec fn joined(ls: Seq<Seq<Fragment>>) -> Seq<u8>
    decreases ls.len(),
{
    if ls.len() == 0 {
        Seq::empty()
    } else if ls.len() == 1 {
        fbytes(ls.last())
    } else {
        joined(ls.drop_last()) + seq![10u8] + fbytes(ls.last())
    }
}

proof fn lemma_frun_concat(x: Seq<Fragment>, y: Seq<Fragment>, st: Seq<usize>)
    ensures
        frun(x + y, st) == (match frun(x, st) {
            None => None,
            Some(m) => frun(y, m),
        }),
    decreases y.len(),
{
    if y.len() == 0 {
        assert(x + y =~= x);
    } else {
        assert((x + y).drop_last() =~= x + y.drop_last());
        assert((x + y).last() == y.last());
        lemma_frun_concat(x, y.drop_last(), st);
    }
}

proof fn lemma_fbytes_concat(x: Seq<Fragment>, y: Seq<Fragment>)
    ensures
        fbytes(x + y) == fbytes(x) + fbytes(y),
    decreases y.len(),
{
    if y.len() == 0 {
        assert(x + y =~= x);
        assert(fbytes(x) + fbytes(y) =~= fbytes(x));
    } else {
        assert((x + y).drop_last() =~= x + y.drop_last());
        assert((x + y).last() == y.last());
        lemma_fbytes_concat(x, y.drop_last());
        assert(fbytes(x + y) =~= fbytes(x) + fbytes(y));
    }
}

proof fn lemma_frun_closes(st: Seq<usize>, j: int)
    requires
        0 <= j <= st.len(),
    ensures
        frun(closes_down(st, j), st.take(j)) == Some(Seq::<usize>::empty()),
    decreases j,
{
    if j == 0 {
        assert(st.take(0) =~= Seq::<usize>::empty());
    } else {
        let one = seq![Fragment::Close(st[j - 1])];
        assert(one.drop_last() =~= Seq::<Fragment>::empty());
        assert(frun(Seq::<Fragment>::empty(), st.take(j)) == Some(st.take(j)));
        assert(st.take(j).len() == j && st.take(j).last() == st[j - 1]);
        assert(st.take(j).drop_last() =~= st.take(j - 1));
        assert(frun(one, st.take(j)) == Some(st.take(j - 1)));
        lemma_frun_concat(one, closes_down(st, j - 1), st.take(j));
        lemma_frun_closes(st, j - 1);
    }
}

proof fn lemma_frun_opens(st: Seq<usize>)
    ensures
        frun(opens_of(st), Seq::empty()) == Some(st),
    decreases st.len(),
{
    if st.len() == 0 {
        assert(st =~= Seq::<usize>::empty());
    } else {
        lemma_frun_opens(st.drop_last());
        let fs = opens_of(st);
        assert(fs.drop_last() =~= opens_of(st.drop_last()));
        assert(st.drop_last().push(st.last()) =~= st);
    }
}

proof fn lemma_fbytes_closes(st: Seq<usize>, j: int)
    requires
        0 <= j <= st.len(),
    ensures
        fbytes(closes_down(st, j)) == Seq::<u8>::empty(),
    decreases j,
{
    if j > 0 {
        let one = seq![Fragment::Close(st[j - 1])];
        assert(one.drop_last() =~= Seq::<Fragment>::empty());
        assert(fbytes(Seq::<Fragment>::empty()) == Seq::<u8>::empty());
        assert(fbytes(one) =~= Seq::<u8>::empty());
        lemma_fbytes_concat(one, closes_down(st, j - 1));
        lemma_fbytes_closes(st, j - 1);
        assert(fbytes(closes_down(st, j)) =~= Seq::<u8>::empty());
    }
}

proof fn lemma_fbytes_opens(st: Seq<usize>)
    ensures
        fbytes(opens_of(st)) == Seq::<u8>::empty(),
    decreases st.len(),
{
    if st.len() > 0 {
        lemma_fbytes_opens(st.drop_last());
        let fs = opens_of(st);
        assert(fs.drop_last() =~= opens_of(st.drop_last()));
        assert(fs.last() == Fragment::Open(st.last()));
        assert(fbytes(fs) =~= Seq::<u8>::empty());
    }
}

proof fn lemma_joined_push(ls: Seq<Seq<Fragment>>, x: Seq<Fragment>)
    ensures
        joined(ls.push(x)) == if ls.len() == 0 {
            fbytes(x)
        } else {
            joined(ls) + seq![10u8] + fbytes(x)
        },
{
    assert(ls.push(x).drop_last() =~= ls);
    assert(ls.push(x).last() == x);
    if ls.len() == 0 {
    }
}

/// Everything the round-trip and balance arguments track through the fold.
pub open spec fn fold_good(s: RenderState) -> bool {
    &&& forall|i: int| 0 <= i < s.lines.len() ==> balanced(#[trigger] s.lines[i])
    &&& frun(s.cur, Seq::empty()) == Some(s.stack)
}

/// Every style index the state mentions stays inside the style table.
pub open spec fn fold_styled(s: RenderState, n: int) -> bool {
    &&& lines_styled(s.lines, n)
    &&& line_styled(s.cur, n)
    &&& forall|i: int| 0 <= i < s.stack.len() ==> (#[trigger] s.stack[i]) < n
}

proof fn lemma_closes_styled(st: Seq<usize>, j: int, n: int)
    requires
        0 <= j <= st.len(),
    ensures
        line_styled(closes_down(st, j), n),
    decreases j,
{
    if j > 0 {
        lemma_closes_styled(st, j - 1, n);
        let one = seq![Fragment::Close(st[j - 1])];
        assert forall|k: int| 0 <= k < closes_down(st, j).len() implies match #[trigger] closes_down(
            st,
            j,
        )[k] {
            Fragment::Open(i) => i < n,
            _ => true,
        } by {
            if k >= 1 {
                assert(closes_down(st, j)[k] == closes_down(st, j - 1)[k - 1]);
            }
        }
    }
}

proof fn lemma_opens_styled(st: Seq<usize>, n: int)
    requires
        forall|i: int| 0 <= i < st.len() ==> (#[trigger] st[i]) < n,
    ensures
        line_styled(opens_of(st), n),
    decreases st.len(),
{
    if st.len() > 0 {
        lemma_opens_styled(st.drop_last(), n);
        let fs = opens_of(st);
        assert(fs.drop_last() == opens_of(st.drop_last()));
        assert forall|k: int| 0 <= k < fs.len() implies match #[trigger] fs[k] {
            Fragment::Open(i) => i < n,
            _ => true,
        } by {
            if k < fs.len() - 1 {
                assert(fs[k] == opens_of(st.drop_last())[k]);
            } else {
                assert(fs[k] == Fragment::Open(st.last()));
            }
        }
    }
}

proof fn lemma_styled_push(fs: Seq<Fragment>, f: Fragment, n: int)
    requires
        line_styled(fs, n),
        match f {
            Fragment::Open(i) => i < n,
            _ => true,
        },
    ensures
        line_styled(fs.push(f), n),
{
    assert forall|k: int| 0 <= k < fs.push(f).len() implies match #[trigger] fs.push(f)[k] {
        Fragment::Open(i) => i < n,
        _ => true,
    } by {
        if k < fs.len() {
            assert(fs.push(f)[k] == fs[k]);
        }
    }
}

proof fn lemma_styled_concat(a: Seq<Fragment>, b: Seq<Fragment>, n: int)
    requires
        line_styled(a, n),
        line_styled(b, n),
    ensures
        line_styled(a + b, n),
{
    assert forall|k: int| 0 <= k < (a + b).len() implies match #[trigger] (a + b)[k] {
        Fragment::Open(i) => i < n,
        _ => true,
    } by {
        if k < a.len() {
            assert((a + b)[k] == a[k]);
        } else {
            assert((a + b)[k] == b[k - a.len()]);
        }
    }
}

proof fn lemma_break_line_styled(s: RenderState, n: int)
    requires
        fold_styled(s, n),
    ensures
        fold_styled(break_line(s), n),
{
    lemma_closes_styled(s.stack, s.stack.len() as int, n);
    lemma_styled_concat(s.cur, closes_of(s.stack), n);
    lemma_opens_styled(s.stack, n);
    let r = break_line(s);
    assert forall|i: int| 0 <= i < r.lines.len() implies line_styled(#[trigger] r.lines[i], n) by {
        if i < s.lines.len() {
            assert(r.lines[i] == s.lines[i]);
        } else {
            assert(r.lines[i] == s.cur + closes_of(s.stack));
        }
    }
}

proof fn lemma_put_bytes_styled(s: RenderState, src: Seq<u8>, a: usize, b: usize, n: int)
    requires
        fold_styled(s, n),
        a <= b,
        b <= src.len(),
    ensures
        fold_styled(put_bytes(s, src, a, b), n),
    decreases b - a,
{
    if a < b {
        let s2 = if src[a as int] == 10u8 {
            break_line(s)
        } else {
            RenderState { lines: s.lines, cur: s.cur.push(Fragment::Byte(src[a as int])), stack: s.stack }
        };
        if src[a as int] == 10u8 {
            lemma_break_line_styled(s, n);
        } else {
            lemma_styled_push(s.cur, Fragment::Byte(src[a as int]), n);
        }
        lemma_put_bytes_styled(s2, src, (a + 1) as usize, b, n);
    }
}

proof fn lemma_render_fold_styled(evs: Seq<Event>, src: Seq<u8>, plen: usize)
    requires
        events_wf(evs, src.len() as usize, plen),
        src.len() <= usize::MAX,
        render_fold(evs, src) is Some,
    ensures
        fold_styled(render_fold(evs, src).unwrap(), plen as int),
    decreases evs.len(),
{
    if evs.len() == 0 {
    } else {
        let pre = evs.drop_last();
        let e = evs.last();
        assert(forall|k: int| 0 <= k < pre.len() ==> pre[k] == evs[k]);
        assert(events_wf(pre, src.len() as usize, plen)) by {
            assert(forall|k: int|
                0 <= k < pre.len() ==> event_wf(#[trigger] pre[k], src.len() as usize, plen));
        }
        lemma_render_fold_styled(pre, src, plen);
        let s = render_fold(pre, src).unwrap();
        assert(event_wf(e, src.len() as usize, plen)) by {
            assert(evs[evs.len() - 1] == e);
        }
        match e {
            Event::Open(i) => {
                lemma_styled_push(s.cur, Fragment::Open(i), plen as int);
                assert forall|k: int|
                    0 <= k < s.stack.push(i).len() implies (#[trigger] s.stack.push(i)[k])
                    < plen by {
                    if k < s.stack.len() {
                        assert(s.stack.push(i)[k] == s.stack[k]);
                    }
                }
            },
            Event::Close(i) => {
                lemma_styled_push(s.cur, Fragment::Close(i), plen as int);
                assert(forall|k: int|
                    0 <= k < s.stack.drop_last().len() ==> (#[trigger] s.stack.drop_last()[k])
                        < plen);
            },
            Event::Text(a, b) => {
                lemma_put_bytes_styled(s, src, a, b, plen as int);
            },
        }
    }
}

/// Every style index in a successful render's output stays inside the style
/// table the events were resolved against.
pub proof fn lemma_render_styled(
    evs: Seq<Event>,
    src: Seq<u8>,
    lines: Seq<Seq<Fragment>>,
    plen: usize,
)
    requires
        events_wf(evs, src.len() as usize, plen),
        src.len() <= usize::MAX,
        render_spec(evs, src) == Some(lines),
    ensures
        lines_styled(lines, plen as int),
{
    lemma_render_fold_styled(evs, src, plen);
    let s = render_fold(evs, src).unwrap();
    assert forall|i: int| 0 <= i < lines.len() implies line_styled(#[trigger] lines[i], plen as int) by {
        if i < s.lines.len() {
            assert(lines[i] == s.lines[i]);
        } else {
            assert(lines[i] == s.cur);
        }
    }
}

/// The bytes a render state has absorbed so far.
pub open spec fn state_bytes(s: RenderState) -> Seq<u8> {
    joined(s.lines.push(s.cur))
}

proof fn lemma_break_line(s: RenderState)
    requires
        fold_good(s),
    ensures
        fold_good(break_line(s)),
        break_line(s).stack == s.stack,
        state_bytes(break_line(s)) == state_bytes(s) + seq![10u8],
{
    let line = s.cur + closes_of(s.stack);
    lemma_frun_concat(s.cur, closes_of(s.stack), Seq::empty());
    assert(s.stack.take(s.stack.len() as int) =~= s.stack);
    lemma_frun_closes(s.stack, s.stack.len() as int);
    assert(balanced(line));
    lemma_frun_opens(s.stack);
    let r = break_line(s);
    assert(forall|i: int| 0 <= i < r.lines.len() ==> balanced(#[trigger] r.lines[i])) by {
        assert(forall|i: int|
            0 <= i < s.lines.len() ==> r.lines[i] == #[trigger] s.lines[i]);
        assert(r.lines.last() == line);
    }
    // bytes: the closes and reopens carry nothing; the break carries the feed
    lemma_fbytes_concat(s.cur, closes_of(s.stack));
    lemma_fbytes_closes(s.stack, s.stack.len() as int);
    lemma_fbytes_opens(s.stack);
    lemma_joined_push(s.lines, s.cur);
    lemma_joined_push(s.lines, line);
    lemma_joined_push(s.lines.push(line), opens_of(s.stack));
    assert(fbytes(line) =~= fbytes(s.cur));
    assert(state_bytes(r) =~= state_bytes(s) + seq![10u8]);
}

proof fn lemma_push_fragment(s: RenderState, f: Fragment)
    requires
        fold_good(s),
    ensures
        ({
            let cur2 = s.cur.push(f);
            &&& frun(cur2, Seq::empty()) == (match f {
                Fragment::Open(i) => Some(s.stack.push(i)),
                Fragment::Close(i) => if s.stack.len() > 0 && s.stack.last() == i {
                    Some(s.stack.drop_last())
                } else {
                    None
                },
                Fragment::Byte(_) => Some(s.stack),
            })
            &&& fbytes(cur2) == fbytes(s.cur) + (match f {
                Fragment::Byte(b) => seq![b],
                _ => Seq::<u8>::empty(),
            })
        }),
{
    assert(s.cur.push(f).drop_last() =~= s.cur);
    assert(s.cur.push(f).last() == f);
    match f {
        Fragment::Byte(b) => {},
        _ => {
            assert(fbytes(s.cur.push(f)) =~= fbytes(s.cur));
        },
    }
}

proof fn lemma_put_bytes_good(s: RenderState, src: Seq<u8>, a: usize, b: usize)
    requires
        fold_good(s),
        a <= b,
        b <= src.len(),
    ensures
        ({
            let r = put_bytes(s, src, a, b);
            &&& fold_good(r)
            &&& r.stack == s.stack
            &&& state_bytes(r) == state_bytes(s) + src.subrange(a as int, b as int)
        }),
    decreases b - a,
{
    if a >= b {
        assert(state_bytes(s) + src.subrange(a as int, b as int) =~= state_bytes(s));
    } else {
        let s2 = if src[a as int] == 10u8 {
            break_line(s)
        } else {
            RenderState { lines: s.lines, cur: s.cur.push(Fragment::Byte(src[a as int])), stack: s.stack }
        };
        if src[a as int] == 10u8 {
            lemma_break_line(s);
        } else {
            lemma_push_fragment(s, Fragment::Byte(src[a as int]));
            lemma_joined_push(s.lines, s.cur);
            lemma_joined_push(s.lines, s2.cur);
            assert(state_bytes(s2) =~= state_bytes(s) + seq![src[a as int]]);
        }
        lemma_put_bytes_good(s2, src, (a + 1) as usize, b);
        assert(state_bytes(put_bytes(s, src, a, b)) =~= state_bytes(s) + src.subrange(
            a as int,
            b as int,
        ));
    }
}

/// The fold keeps every finished line balanced, mirrors the event stack, and
/// absorbs exactly the text-event bytes.
proof fn lemma_render_fold_good(evs: Seq<Event>, src: Seq<u8>, st: Seq<usize>, plen: usize)
    requires
        run(evs, Seq::empty()) == Some(st),
        events_wf(evs, src.len() as usize, plen),
        src.len() <= usize::MAX,
    ensures
        ({
            let f = render_fold(evs, src);
            &&& f is Some
            &&& fold_good(f.unwrap())
            &&& f.unwrap().stack == st
            &&& state_bytes(f.unwrap()) == crate::events::event_bytes(evs, src)
        }),
    decreases evs.len(),
{
    if evs.len() == 0 {
        let s0 = init_render();
        assert(state_bytes(s0) =~= Seq::<u8>::empty());
        assert(joined(s0.lines.push(s0.cur)) == fbytes(s0.cur));
    } else {
        let pre = evs.drop_last();
        let e = evs.last();
        let st_pre = run(pre, Seq::empty());
        assert(st_pre is Some);
        assert(forall|k: int| 0 <= k < pre.len() ==> pre[k] == evs[k]);
        assert(events_wf(pre, src.len() as usize, plen)) by {
            assert(forall|k: int|
                0 <= k < pre.len() ==> event_wf(#[trigger] pre[k], src.len() as usize, plen));
        }
        lemma_render_fold_good(pre, src, st_pre.unwrap(), plen);
        let s = render_fold(pre, src).unwrap();
        assert(event_wf(e, src.len() as usize, plen)) by {
            assert(evs[evs.len() - 1] == e);
        }
        match e {
            Event::Open(i) => {
                lemma_push_fragment(s, Fragment::Open(i));
                lemma_joined_push(s.lines, s.cur);
                lemma_joined_push(s.lines, s.cur.push(Fragment::Open(i)));
                assert(state_bytes(render_fold(evs, src).unwrap()) =~= crate::events::event_bytes(
                    evs,
                    src,
                ));
            },
            Event::Close(i) => {
                lemma_push_fragment(s, Fragment::Close(i));
                lemma_joined_push(s.lines, s.cur);
                lemma_joined_push(s.lines, s.cur.push(Fragment::Close(i)));
                assert(state_bytes(render_fold(evs, src).unwrap()) =~= crate::events::event_bytes(
                    evs,
                    src,
                ));
            },
            Event::Text(a, b) => {
                lemma_put_bytes_good(s, src, a, b);
            },
        }
    }
}

/// The renderer accepts every stream whose closes follow the stack discipline
/// and end with nothing open, and whose text ranges stay inside the source.
pub proof fn lemma_render_accepts(evs: Seq<Event>, src: Seq<u8>, plen: usize)
    requires
        run(evs, Seq::empty()) == Some(Seq::<usize>::empty()),
        events_wf(evs, src.len() as usize, plen),
        src.len() <= usize::MAX,
    ensures
        render_spec(evs, src) is Some,
{
    lemma_render_fold_good(evs, src, Seq::empty(), plen);
}

/// Balance: every output line of a successful render opens and closes its
/// markers in matched, properly nested pairs, returning to zero depth at the
/// end of the line.
pub proof fn lemma_render_balanced(evs: Seq<Event>, src: Seq<u8>, lines: Seq<Seq<Fragment>>, plen: usize)
    requires
        run(evs, Seq::empty()) == Some(Seq::<usize>::empty()),
        events_wf(evs, src.len() as usize, plen),
        src.len() <= usize::MAX,
        render_spec(evs, src) == Some(lines),
    ensures
        forall|i: int| 0 <= i < lines.len() ==> balanced(#[trigger] lines[i]),
{
    lemma_render_fold_good(evs, src, Seq::empty(), plen);
    let s = render_fold(evs, src).unwrap();
    assert(forall|i: int| 0 <= i < s.lines.len() ==> lines[i] == #[trigger] s.lines[i]);
    assert(lines.last() == s.cur);
}

/// Round trip: the bytes of the output lines, joined with line feeds, are
/// exactly the bytes the text events carried.
pub proof fn lemma_render_round_trip(evs: Seq<Event>, src: Seq<u8>, lines: Seq<Seq<Fragment>>, plen: usize)
    requires
        run(evs, Seq::empty()) == Some(Seq::<usize>::empty()),
        events_wf(evs, src.len() as usize, plen),
        src.len() <= usize::MAX,
        render_spec(evs, src) == Some(lines),
    ensures
        joined(lines) == crate::events::event_bytes(evs, src),
{
    lemma_render_fold_good(evs, src, Seq::empty(), plen);
}

} // verus!

use vstd::prelude::*;

use crate::events::{
    chain, event_bytes, event_wf, events_wf, lemma_chain_lo_le_hi, lemma_event_bytes_of_chain,
    run, texts, Event, RawCapture,
};
use crate::resolve::{
    caps_bounded, caps_indexed, caps_sorted, close_ended, emit_text, open_capture, resolve_caps,
    resolve_spec, stack_idxs, truncate_over, ResolveState,
};

verus! {

/// The walk's running invariant: the cursor never passes the end of any open
/// capture, every open capture is a sane range inside the source, and ends
/// never increase from the bottom of the stack to its top.
pub open spec fn stack_wf(st: Seq<RawCapture>, cursor: usize, len: usize) -> bool {
    &&& cursor <= len
    &&& forall|i: int|
        0 <= i < st.len() ==> {
            &&& (#[trigger] st[i]).start < st[i].end
            &&& st[i].end <= len
            &&& st[i].end >= cursor
        }
    &&& forall|i: int, j: int| 0 <= i < j < st.len() ==> (#[trigger] st[i]).end >= (#[trigger] st[j]).end
}

/// Everything that holds of a reachable walk state.
pub open spec fn state_good(s: ResolveState, len: usize, plen: usize) -> bool {
    &&& stack_wf(s.stack, s.cursor, len)
    &&& chain(texts(s.events), 0, s.cursor)
    &&& run(s.events, Seq::empty()) == Some(stack_idxs(s.stack))
    &&& caps_indexed(s.stack, plen) && events_wf(s.events, len, plen)
}

proof fn lemma_idxs_push(st: Seq<RawCapture>, c: RawCapture)
    ensures
        stack_idxs(st.push(c)) == stack_idxs(st).push(c.index),
{
    assert(stack_idxs(st.push(c)) =~= stack_idxs(st).push(c.index));
}

proof fn lemma_idxs_drop_last(st: Seq<RawCapture>)
    requires
        st.len() > 0,
    ensures
        stack_idxs(st).len() == st.len(),
        stack_idxs(st).last() == st.last().index,
        stack_idxs(st).drop_last() == stack_idxs(st.drop_last()),
{
    assert(stack_idxs(st).drop_last() =~= stack_idxs(st.drop_last()));
}

/// Pushing a text event extends the chain; pushing a close leaves the texts
/// alone and pops the run stack; pushing an open pushes it.
proof fn lemma_push_text(evs: Seq<Event>, a: usize, b: usize, st: Seq<usize>, lo: usize)
    requires
        chain(texts(evs), lo, a),
        a <= b,
        run(evs, Seq::empty()) == Some(st),
    ensures
        chain(texts(evs.push(Event::Text(a, b))), lo, b),
        run(evs.push(Event::Text(a, b)), Seq::empty()) == Some(st),
{
    let evs2 = evs.push(Event::Text(a, b));
    assert(evs2.drop_last() =~= evs);
    assert(texts(evs2).drop_last() =~= texts(evs));
}

proof fn lemma_push_close(evs: Seq<Event>, i: usize, st: Seq<usize>, cursor: usize)
    requires
        chain(texts(evs), 0, cursor),
        run(evs, Seq::empty()) == Some(st),
        st.len() > 0,
        st.last() == i,
    ensures
        chain(texts(evs.push(Event::Close(i))), 0, cursor),
        run(evs.push(Event::Close(i)), Seq::empty()) == Some(st.drop_last()),
{
    let evs2 = evs.push(Event::Close(i));
    assert(evs2.drop_last() =~= evs);
    assert(texts(evs2) =~= texts(evs));
}

proof fn lemma_push_open(evs: Seq<Event>, i: usize, st: Seq<usize>, cursor: usize)
    requires
        chain(texts(evs), 0, cursor),
        run(evs, Seq::empty()) == Some(st),
    ensures
        chain(texts(evs.push(Event::Open(i))), 0, cursor),
        run(evs.push(Event::Open(i)), Seq::empty()) == Some(st.push(i)),
{
    let evs2 = evs.push(Event::Open(i));
    assert(evs2.drop_last() =~= evs);
    assert(texts(evs2) =~= texts(evs));
}

proof fn lemma_events_wf_push(evs: Seq<Event>, e: Event, len: usize, plen: usize)
    requires
        events_wf(evs, len, plen),
        event_wf(e, len, plen),
    ensures
        events_wf(evs.push(e), len, plen),
{
    assert forall|k: int| 0 <= k < evs.push(e).len() implies event_wf(#[trigger] evs.push(e)[k], len, plen) by {
        if k < evs.len() {
            assert(evs.push(e)[k] == evs[k]);
        }
    }
}

proof fn lemma_close_ended_good(s: ResolveState, upto: usize, len: usize, plen: usize)
    requires
        state_good(s, len, plen),
        s.cursor <= upto <= len,
    ensures
        ({
            let r = close_ended(s, upto);
            &&& state_good(r, len, plen)
            &&& s.cursor <= r.cursor <= upto
            &&& r.stack.len() > 0 ==> r.stack.last().end > upto
            &&& forall|i: int| 0 <= i < r.stack.len() ==> #[trigger] r.stack[i] == s.stack[i]
            &&& r.stack.len() <= s.stack.len()
        }),
    decreases s.stack.len(),
{
    if s.stack.len() > 0 && s.stack.last().end <= upto {
        let c = s.stack.last();
        let s1 = emit_text(s, c.end);
        let s2 = ResolveState {
            cursor: s1.cursor,
            stack: s.stack.drop_last(),
            events: s1.events.push(Event::Close(c.index)),
        };
        lemma_idxs_drop_last(s.stack);
        if s.cursor < c.end {
            lemma_push_text(s.events, s.cursor, c.end, stack_idxs(s.stack), 0);
            lemma_events_wf_push(s.events, Event::Text(s.cursor, c.end), len, plen);
        }
        lemma_push_close(s1.events, c.index, stack_idxs(s.stack), c.end);
        lemma_events_wf_push(s1.events, Event::Close(c.index), len, plen);
        assert(state_good(s2, len, plen));
        lemma_close_ended_good(s2, upto, len, plen);
    }
}

proof fn lemma_truncate_over_good(s: ResolveState, cap_end: usize, len: usize, plen: usize)
    requires
        state_good(s, len, plen),
    ensures
        ({
            let r = truncate_over(s, cap_end);
            &&& state_good(r, len, plen)
            &&& r.cursor == s.cursor
            &&& r.stack.len() > 0 ==> r.stack.last().end >= cap_end
            &&& forall|i: int| 0 <= i < r.stack.len() ==> #[trigger] r.stack[i] == s.stack[i]
            &&& r.stack.len() <= s.stack.len()
        }),
    decreases s.stack.len(),
{
    if s.stack.len() > 0 && s.stack.last().end < cap_end {
        let c = s.stack.last();
        let s2 = ResolveState {
            cursor: s.cursor,
            stack: s.stack.drop_last(),
            events: s.events.push(Event::Close(c.index)),
        };
        lemma_idxs_drop_last(s.stack);
        lemma_push_close(s.events, c.index, stack_idxs(s.stack), s.cursor);
        lemma_events_wf_push(s.events, Event::Close(c.index), len, plen);
        assert(state_good(s2, len, plen));
        lemma_truncate_over_good(s2, cap_end, len, plen);
    }
}

proof fn lemma_open_capture_good(s: ResolveState, c: RawCapture, len: usize, plen: usize)
    requires
        state_good(s, len, plen),
        s.cursor <= c.start,
        c.start < c.end,
        c.end <= len,
        c.index < plen,
    ensures
        ({
            let r = open_capture(s, c);
            &&& state_good(r, len, plen)
            &&& r.cursor == c.start
        }),
{
    let s1 = close_ended(s, c.start);
    lemma_close_ended_good(s, c.start, len, plen);
    let s2 = emit_text(s1, c.start);
    if s1.cursor < c.start {
        lemma_push_text(s1.events, s1.cursor, c.start, stack_idxs(s1.stack), 0);
        lemma_events_wf_push(s1.events, Event::Text(s1.cursor, c.start), len, plen);
    }
    assert(state_good(s2, len, plen));
    let s3 = truncate_over(s2, c.end);
    lemma_truncate_over_good(s2, c.end, len, plen);
    lemma_push_open(s3.events, c.index, stack_idxs(s3.stack), s3.cursor);
    lemma_events_wf_push(s3.events, Event::Open(c.index), len, plen);
    lemma_idxs_push(s3.stack, c);
    let r = open_capture(s, c);
    // the new capture's end is no larger than anything still open
    assert forall|i: int, j: int| 0 <= i < j < r.stack.len() implies (#[trigger] r.stack[i]).end
        >= (#[trigger] r.stack[j]).end by {
        if j < r.stack.len() - 1 {
            assert(r.stack[i] == s3.stack[i] && r.stack[j] == s3.stack[j]);
        } else {
            assert(r.stack[j] == c);
            if s3.stack.len() > 0 {
                assert(s3.stack[i].end >= s3.stack.last().end);
            }
        }
    }
    assert(state_good(r, len, plen));
}

/// Every state the walk reaches is good, and its cursor sits at the start of
/// the last capture processed.
proof fn lemma_resolve_caps_good(cs: Seq<RawCapture>, len: usize, plen: usize)
    requires
        caps_sorted(cs),
        caps_bounded(cs, len),
        caps_indexed(cs, plen),
    ensures
        ({
            let s = resolve_caps(cs);
            &&& state_good(s, len, plen)
            &&& s.cursor == if cs.len() == 0 { 0 } else { cs.last().start }
        }),
    decreases cs.len(),
{
    if cs.len() == 0 {
        assert(texts(resolve_caps(cs).events) =~= Seq::<(usize, usize)>::empty());
        assert(stack_idxs(Seq::<RawCapture>::empty()) =~= Seq::<usize>::empty());
    } else {
        let pre = cs.drop_last();
        let c = cs.last();
        assert(forall|i: int| 0 <= i < pre.len() ==> pre[i] == cs[i]);
        lemma_resolve_caps_good(pre, len, plen);
        let s = resolve_caps(pre);
        if pre.len() > 0 {
            assert(pre.last().start <= c.start) by {
                assert(crate::resolve::cap_le(cs[pre.len() - 1], cs[pre.len() as int]));
            }
        }
        assert(s.cursor <= c.start);
        lemma_open_capture_good(s, c, len, plen);
    }
}

/// The resolver's guarantees over a whole run: the text events tile the whole
/// source, every open is closed in stack order with nothing left open, and
/// every event stays inside the source and the palette.
pub proof fn lemma_resolve_spec_props(cs: Seq<RawCapture>, len: usize, plen: usize)
    requires
        caps_sorted(cs),
        caps_bounded(cs, len),
        caps_indexed(cs, plen),
    ensures
        chain(texts(resolve_spec(cs, len)), 0, len),
        run(resolve_spec(cs, len), Seq::empty()) == Some(Seq::<usize>::empty()),
        events_wf(resolve_spec(cs, len), len, plen),
{
    lemma_resolve_caps_good(cs, len, plen);
    let s = resolve_caps(cs);
    assert(s.cursor <= len);
    lemma_close_ended_good(s, len, len, plen);
    let s1 = close_ended(s, len);
    assert(s1.stack.len() == 0);
    assert(stack_idxs(s1.stack) =~= Seq::<usize>::empty());
    if s1.cursor < len {
        lemma_push_text(s1.events, s1.cursor, len, Seq::empty(), 0);
        lemma_events_wf_push(s1.events, Event::Text(s1.cursor, len), len, plen);
    }
}

/// Nesting from containment: when capture `b` lies fully inside capture `a`
/// and `a` precedes `b` in the capture order, the resolved stream opens `a`,
/// then `b`, closes `b`, and only then closes `a` — `b` renders strictly
/// inside `a`'s markers. The order hypothesis holds of every containing pair
/// except byte-identical ranges listed against the palette order; for those,
/// instantiate with the smaller palette index as `a`: the ranges are the same
/// set of bytes, so the pair still nests, outer role to the smaller index.
pub proof fn lemma_nesting_from_containment(a: RawCapture, b: RawCapture, len: usize)
    requires
        a.start < a.end,
        b.start < b.end,
        a.start <= b.start,
        b.end <= a.end,
        a.end <= len,
        crate::resolve::cap_le(a, b),
    ensures
        ({
            let pre = if 0 < a.start {
                seq![Event::Text(0, a.start)]
            } else {
                Seq::<Event>::empty()
            };
            let gap = if a.start < b.start {
                seq![Event::Text(a.start, b.start)]
            } else {
                Seq::<Event>::empty()
            };
            let tail = if b.end < a.end {
                seq![Event::Text(b.end, a.end)]
            } else {
                Seq::<Event>::empty()
            };
            let rest = if a.end < len {
                seq![Event::Text(a.end, len)]
            } else {
                Seq::<Event>::empty()
            };
            resolve_spec(seq![a, b], len) == pre + seq![Event::Open(a.index)] + gap + seq![
                Event::Open(b.index),
                Event::Text(b.start, b.end),
                Event::Close(b.index),
            ] + tail + seq![Event::Close(a.index)] + rest
        }),
{
    let cs = seq![a, b];
    assert(cs.drop_last() =~= seq![a]);
    assert(cs.last() == b);
    assert(seq![a].drop_last() =~= Seq::<RawCapture>::empty());
    assert(seq![a].last() == a);
    let s0 = crate::resolve::init_state();
    assert(resolve_caps(Seq::<RawCapture>::empty()) == s0);
    // first capture: nothing to settle, move to its start, open it
    assert(close_ended(s0, a.start) == s0);
    let s0t = emit_text(s0, a.start);
    assert(truncate_over(s0t, a.end) == s0t);
    let s1 = open_capture(s0, a);
    assert(s1.cursor == a.start && s1.stack =~= seq![a]);
    // second capture: `a` stays open because it reaches past `b`
    assert(s1.stack.last() == a);
    assert(!(a.end <= b.start));
    assert(close_ended(s1, b.start) == s1);
    let s1t = emit_text(s1, b.start);
    assert(!(a.end < b.end));
    assert(truncate_over(s1t, b.end) == s1t);
    let s2 = open_capture(s1, b);
    assert(s2.cursor == b.start && s2.stack =~= seq![a, b]);
    assert(resolve_caps(seq![a]) == s1);
    assert(resolve_caps(cs) == s2);
    // finish: close `b` first, then `a`, then the tail of the source
    assert(s2.stack.last() == b && b.end <= len);
    let s3 = emit_text(s2, b.end);
    let s3c = ResolveState {
        cursor: s3.cursor,
        stack: s2.stack.drop_last(),
        events: s3.events.push(Event::Close(b.index)),
    };
    assert(s2.stack.drop_last() =~= seq![a]);
    assert(close_ended(s2, len) == close_ended(s3c, len));
    assert(s3c.stack.last() == a && a.end <= len);
    let s4 = emit_text(s3c, a.end);
    let s4c = ResolveState {
        cursor: s4.cursor,
        stack: s3c.stack.drop_last(),
        events: s4.events.push(Event::Close(a.index)),
    };
    assert(s3c.stack.drop_last() =~= Seq::<RawCapture>::empty());
    assert(close_ended(s3c, len) == close_ended(s4c, len));
    assert(close_ended(s4c, len) == s4c);
    let fin = emit_text(s4c, len);
    assert(resolve_spec(cs, len) == fin.events);
    assert(({
        let pre = if 0 < a.start {
            seq![Event::Text(0, a.start)]
        } else {
            Seq::<Event>::empty()
        };
        let gap = if a.start < b.start {
            seq![Event::Text(a.start, b.start)]
        } else {
            Seq::<Event>::empty()
        };
        let tail = if b.end < a.end {
            seq![Event::Text(b.end, a.end)]
        } else {
            Seq::<Event>::empty()
        };
        let rest = if a.end < len {
            seq![Event::Text(a.end, len)]
        } else {
            Seq::<Event>::empty()
        };
        fin.events =~= pre + seq![Event::Open(a.index)] + gap + seq![
            Event::Open(b.index),
            Event::Text(b.start, b.end),
            Event::Close(b.index),
        ] + tail + seq![Event::Close(a.index)] + rest
    }));
}

/// Overlap truncation: when `a` and `b` overlap without either containing the
/// other, the later-starting capture wins the disputed region — `a` is closed
/// at `b`'s start and `b` governs its whole range. Nothing is dropped and
/// nothing panics: the text events still tile the entire source.
pub proof fn lemma_overlap_truncation(a: RawCapture, b: RawCapture, len: usize)
    requires
        a.start < b.start,
        b.start < a.end,
        a.end < b.end,
        b.end <= len,
    ensures
        ({
            let pre = if 0 < a.start {
                seq![Event::Text(0, a.start)]
            } else {
                Seq::<Event>::empty()
            };
            let rest = if b.end < len {
                seq![Event::Text(b.end, len)]
            } else {
                Seq::<Event>::empty()
            };
            resolve_spec(seq![a, b], len) == pre + seq![
                Event::Open(a.index),
                Event::Text(a.start, b.start),
                Event::Close(a.index),
                Event::Open(b.index),
                Event::Text(b.start, b.end),
                Event::Close(b.index),
            ] + rest
        }),
{
    let cs = seq![a, b];
    assert(cs.drop_last() =~= seq![a]);
    assert(cs.last() == b);
    assert(seq![a].drop_last() =~= Seq::<RawCapture>::empty());
    assert(seq![a].last() == a);
    let s0 = crate::resolve::init_state();
    assert(resolve_caps(Seq::<RawCapture>::empty()) == s0);
    assert(close_ended(s0, a.start) == s0);
    let s0t = emit_text(s0, a.start);
    assert(truncate_over(s0t, a.end) == s0t);
    let s1 = open_capture(s0, a);
    assert(s1.cursor == a.start && s1.stack =~= seq![a]);
    // `a` is still running at `b`'s start but ends before `b` does: truncate
    assert(s1.stack.last() == a);
    assert(!(a.end <= b.start));
    assert(close_ended(s1, b.start) == s1);
    let s1t = emit_text(s1, b.start);
    assert(a.end < b.end);
    let s1c = ResolveState {
        cursor: s1t.cursor,
        stack: s1t.stack.drop_last(),
        events: s1t.events.push(Event::Close(a.index)),
    };
    assert(s1t.stack.drop_last() =~= Seq::<RawCapture>::empty());
    assert(truncate_over(s1t, b.end) == truncate_over(s1c, b.end));
    assert(truncate_over(s1c, b.end) == s1c);
    let s2 = open_capture(s1, b);
    assert(s2.cursor == b.start && s2.stack =~= seq![b]);
    assert(resolve_caps(seq![a]) == s1);
    assert(resolve_caps(cs) == s2);
    // finish: close `b`, then the tail of the source
    assert(s2.stack.last() == b && b.end <= len);
    let s3 = emit_text(s2, b.end);
    let s3c = ResolveState {
        cursor: s3.cursor,
        stack: s2.stack.drop_last(),
        events: s3.events.push(Event::Close(b.index)),
    };
    assert(s2.stack.drop_last() =~= Seq::<RawCapture>::empty());
    assert(close_ended(s2, len) == close_ended(s3c, len));
    assert(close_ended(s3c, len) == s3c);
    let fin = emit_text(s3c, len);
    assert(resolve_spec(cs, len) == fin.events);
    assert(({
        let pre = if 0 < a.start {
            seq![Event::Text(0, a.start)]
        } else {
            Seq::<Event>::empty()
        };
        let rest = if b.end < len {
            seq![Event::Text(b.end, len)]
        } else {
            Seq::<Event>::empty()
        };
        fin.events =~= pre + seq![
            Event::Open(a.index),
            Event::Text(a.start, b.start),
            Event::Close(a.index),
            Event::Open(b.index),
            Event::Text(b.start, b.end),
            Event::Close(b.index),
        ] + rest
    }));
}

/// Coverage round trip: concatenating the text-event bytes of a resolved
/// stream reproduces the source exactly — no byte dropped, duplicated or
/// reordered.
pub proof fn lemma_resolve_round_trip(cs: Seq<RawCapture>, src: Seq<u8>, plen: usize)
    requires
        caps_sorted(cs),
        caps_bounded(cs, src.len() as usize),
        caps_indexed(cs, plen),
        src.len() <= usize::MAX,
    ensures
        event_bytes(resolve_spec(cs, src.len() as usize), src) == src,
{
    let len = src.len() as usize;
    lemma_resolve_spec_props(cs, len, plen);
    lemma_event_bytes_of_chain(resolve_spec(cs, len), src, len);
    assert(src.subrange(0, len as int) =~= src);
}

} // verus!

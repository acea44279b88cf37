use vstd::prelude::*;

use crate::events::{Event, RawCapture};

verus! {

/// State of the boundary walk: the byte cursor, the stack of captures that
/// are open (their ends never increase from bottom to top), and the events
/// emitted so far.
pub struct ResolveState {
    pub cursor: usize,
    pub stack: Seq<RawCapture>,
    pub events: Seq<Event>,
}

pub open spec fn stack_idxs(st: Seq<RawCapture>) -> Seq<usize> {
    st.map_values(|c: RawCapture| c.index)
}

/// Move the cursor forward to `to`, emitting the bytes passed over.
pub open spec fn emit_text(s: ResolveState, to: usize) -> ResolveState {
    ResolveState {
        cursor: to,
        stack: s.stack,
        events: if s.cursor < to {
            s.events.push(Event::Text(s.cursor, to))
        } else {
            s.events
        },
    }
}

/// Close every open capture that ends at or before `upto`, innermost first,
/// emitting the text up to each end.
pub open spec fn close_ended(s: ResolveState, upto: usize) -> ResolveState
    decreases s.stack.len(),
{
    if s.stack.len() > 0 && s.stack.last().end <= upto {
        let c = s.stack.last();
        let s1 = emit_text(s, c.end);
        let s2 = ResolveState {
            cursor: s1.cursor,
            stack: s.stack.drop_last(),
            events: s1.events.push(Event::Close(c.index)),
        };
        close_ended(s2, upto)
    } else {
        s
    }
}

/// Close, without moving the cursor, every open capture that would overlap a
/// capture ending at `cap_end` without containing it: the later capture wins
/// the disputed region and the earlier one is truncated here.
pub open spec fn truncate_over(s: ResolveState, cap_end: usize) -> ResolveState
    decreases s.stack.len(),
{
    if s.stack.len() > 0 && s.stack.last().end < cap_end {
        let c = s.stack.last();
        truncate_over(
            ResolveState {
                cursor: s.cursor,
                stack: s.stack.drop_last(),
                events: s.events.push(Event::Close(c.index)),
            },
            cap_end,
        )
    } else {
        s
    }
}

/// Process one capture: settle everything that ends before it starts, emit
/// the text up to its start, truncate overlaps it wins against, then open it.
pub open spec fn open_capture(s: ResolveState, c: RawCapture) -> ResolveState {
    let s1 = close_ended(s, c.start);
    let s2 = emit_text(s1, c.start);
    let s3 = truncate_over(s2, c.end);
    ResolveState {
        cursor: s3.cursor,
        stack: s3.stack.push(c),
        events: s3.events.push(Event::Open(c.index)),
    }
}

pub open spec fn init_state() -> ResolveState {
    ResolveState { cursor: 0, stack: Seq::empty(), events: Seq::empty() }
}

/// The walk over a sorted capture sequence.
pub open spec fn resolve_caps(cs: Seq<RawCapture>) -> ResolveState
    decreases cs.len(),
{
    if cs.len() == 0 {
        init_state()
    } else {
        open_capture(resolve_caps(cs.drop_last()), cs.last())
    }
}

/// After the last capture: close whatever is still open and emit the tail of
/// the source.
pub open spec fn finish(s: ResolveState, len: usize) -> Seq<Event> {
    emit_text(close_ended(s, len), len).events
}

/// The whole resolver: the event stream for a sorted capture sequence over a
/// source of `len` bytes.
pub open spec fn resolve_spec(cs: Seq<RawCapture>, len: usize) -> Seq<Event> {
    finish(resolve_caps(cs), len)
}

/// Capture order: by start, then wider (outer) ranges first, then by palette
/// index. Total, and antisymmetric up to equality.
pub open spec fn cap_le(a: RawCapture, b: RawCapture) -> bool {
    ||| a.start < b.start
    ||| (a.start == b.start && a.end > b.end)
    ||| (a.start == b.start && a.end == b.end && a.index <= b.index)
}

pub open spec fn caps_sorted(cs: Seq<RawCapture>) -> bool {
    forall|i: int, j: int| 0 <= i < j < cs.len() ==> cap_le(#[trigger] cs[i], #[trigger] cs[j])
}

/// Every capture is a non-empty range inside the source.
pub open spec fn caps_bounded(cs: Seq<RawCapture>, len: usize) -> bool {
    forall|i: int| 0 <= i < cs.len() ==> (#[trigger] cs[i]).start < cs[i].end && cs[i].end <= len
}

/// Every capture names a palette entry.
pub open spec fn caps_indexed(cs: Seq<RawCapture>, plen: usize) -> bool {
    forall|i: int| 0 <= i < cs.len() ==> (#[trigger] cs[i]).index < plen
}

fn cap_le_exec(a: RawCapture, b: RawCapture) -> (r: bool)
    ensures
        r == cap_le(a, b),
{
    a.start < b.start || (a.start == b.start && (a.end > b.end || (a.end == b.end && a.index
        <= b.index)))
}

/// Insertion sort under the capture order; equal captures stay together, so
/// the result is the unique sorted arrangement of the input.
pub fn sort_captures(caps: &Vec<RawCapture>) -> (r: Vec<RawCapture>)
    ensures
        caps_sorted(r@),
        r@.to_multiset() == caps@.to_multiset(),
{
    broadcast use vstd::seq_lib::group_to_multiset_ensures;

    let mut out: Vec<RawCapture> = Vec::new();
    let mut k: usize = 0;
    proof {
        assert(caps@.take(0) =~= Seq::<RawCapture>::empty());
        assert(out@ =~= Seq::<RawCapture>::empty());
    }
    while k < caps.len()
        invariant
            k <= caps.len(),
            caps_sorted(out@),
            out@.to_multiset() == caps@.take(k as int).to_multiset(),
        decreases caps.len() - k,
    {
        let c = caps[k];
        let mut pos: usize = 0;
        while pos < out.len() && cap_le_exec(out[pos], c)
            invariant
                pos <= out@.len(),
                forall|i: int| 0 <= i < pos ==> cap_le(#[trigger] out@[i], c),
            decreases out@.len() - pos,
        {
            pos = pos + 1;
        }
        let ghost old_out = out@;
        out.insert(pos, c);
        k = k + 1;
        proof {
            broadcast use vstd::multiset::group_multiset_axioms;

            let s2 = out@;
            s2.to_multiset_ensures();
            caps@.take(k as int - 1).to_multiset_ensures();
            assert(s2 == old_out.insert(pos as int, c));
            assert(s2.remove(pos as int) =~= old_out);
            assert(s2[pos as int] == c);
            assert(s2.contains(c));
            assert(s2.to_multiset().count(c) > 0);
            assert(s2.remove(pos as int).to_multiset() =~= s2.to_multiset().remove(c));
            assert(s2.to_multiset() =~= old_out.to_multiset().insert(c));
            assert(caps@.take(k as int) =~= caps@.take(k as int - 1).push(c));
            assert(caps@.take(k as int).to_multiset() =~= caps@.take(
                k as int - 1,
            ).to_multiset().insert(c));
            assert forall|i: int, j: int| 0 <= i < j < s2.len() implies cap_le(
                #[trigger] s2[i],
                #[trigger] s2[j],
            ) by {
                if j == pos {
                    assert(s2[i] == old_out[i]);
                } else if i == pos {
                    assert(s2[j] == old_out[j - 1]);
                    assert(!cap_le(old_out[pos as int], c));
                    assert(cap_le(old_out[pos as int], old_out[j - 1]) || pos == j - 1);
                } else if i < pos && j > pos {
                    assert(s2[i] == old_out[i] && s2[j] == old_out[j - 1]);
                } else if j < pos {
                    assert(s2[i] == old_out[i] && s2[j] == old_out[j]);
                } else {
                    assert(s2[i] == old_out[i - 1] && s2[j] == old_out[j - 1]);
                }
            }
        }
    }
    proof {
        assert(caps@.take(k as int) =~= caps@);
    }
    out
}

/// Turns a sorted capture set into a flat event stream over `[0, len)`.
pub fn resolve(caps: &Vec<RawCapture>, len: usize) -> (events: Vec<Event>)
    requires
        caps_sorted(caps@),
        caps_bounded(caps@, len),
    ensures
        events@ == resolve_spec(caps@, len),
{
    let mut events: Vec<Event> = Vec::new();
    let mut stack: Vec<RawCapture> = Vec::new();
    let mut cursor: usize = 0;
    let mut k: usize = 0;
    while k < caps.len()
        invariant
            k <= caps.len(),
            caps_sorted(caps@),
            caps_bounded(caps@, len),
            resolve_caps(caps@.take(k as int)) == (ResolveState {
                cursor: cursor,
                stack: stack@,
                events: events@,
            }),
            forall|i: int| 0 <= i < stack@.len() ==> (#[trigger] stack@[i]).end <= len,
        decreases caps.len() - k,
    {
        let ghost pre = ResolveState { cursor: cursor, stack: stack@, events: events@ };
        let c = caps[k];
        // close_ended(pre, c.start)
        while stack.len() > 0 && stack[stack.len() - 1].end <= c.start
            invariant
                close_ended(pre, c.start) == close_ended(
                    ResolveState { cursor: cursor, stack: stack@, events: events@ },
                    c.start,
                ),
                forall|i: int| 0 <= i < stack@.len() ==> (#[trigger] stack@[i]).end <= len,
            decreases stack.len(),
        {
            let top = stack[stack.len() - 1];
            if cursor < top.end {
                events.push(Event::Text(cursor, top.end));
            }
            cursor = top.end;
            events.push(Event::Close(top.index));
            let _ = stack.pop();
        }
        proof {
            assert(close_ended(pre, c.start) == (ResolveState {
                cursor: cursor,
                stack: stack@,
                events: events@,
            }));
        }
        // emit_text(s1, c.start)
        if cursor < c.start {
            events.push(Event::Text(cursor, c.start));
        }
        cursor = c.start;
        let ghost s2 = emit_text(close_ended(pre, c.start), c.start);
        proof {
            assert(s2 == (ResolveState { cursor: cursor, stack: stack@, events: events@ }));
        }
        // truncate_over(s2, c.end)
        while stack.len() > 0 && stack[stack.len() - 1].end < c.end
            invariant
                truncate_over(s2, c.end) == truncate_over(
                    ResolveState { cursor: cursor, stack: stack@, events: events@ },
                    c.end,
                ),
                forall|i: int| 0 <= i < stack@.len() ==> (#[trigger] stack@[i]).end <= len,
            decreases stack.len(),
        {
            let top = stack[stack.len() - 1];
            events.push(Event::Close(top.index));
            let _ = stack.pop();
        }
        events.push(Event::Open(c.index));
        stack.push(c);
        k = k + 1;
        proof {
            assert(caps@.take(k as int).drop_last() =~= caps@.take(k as int - 1));
            assert(caps@.take(k as int).last() == c);
            assert(resolve_caps(caps@.take(k as int)) == (ResolveState {
                cursor: cursor,
                stack: stack@,
                events: events@,
            }));
        }
    }
    proof {
        assert(caps@.take(k as int) =~= caps@);
    }
    // finish: close everything still open, then the tail of the source
    let ghost fin = ResolveState { cursor: cursor, stack: stack@, events: events@ };
    while stack.len() > 0
        invariant
            close_ended(fin, len) == close_ended(
                ResolveState { cursor: cursor, stack: stack@, events: events@ },
                len,
            ),
            forall|i: int| 0 <= i < stack@.len() ==> (#[trigger] stack@[i]).end <= len,
        decreases stack.len(),
    {
        let top = stack[stack.len() - 1];
        if cursor < top.end {
            events.push(Event::Text(cursor, top.end));
        }
        cursor = top.end;
        events.push(Event::Close(top.index));
        let _ = stack.pop();
    }
    if cursor < len {
        events.push(Event::Text(cursor, len));
    }
    events
}

} // verus!

use vstd::prelude::*;

verus! {

/// One styled range reported by the capture oracle: byte offsets into the
/// source (`start` inclusive, `end` exclusive) and an index into the shared
/// style palette.
#[derive(Clone, Copy, PartialEq, Eq, Structural, Debug)]
pub struct RawCapture {
    pub start: usize,
    pub end: usize,
    pub index: usize,
}

/// One step of the flattened highlight stream: open a style, close the most
/// recently opened style, or emit the source bytes in `[start, end)`.
#[derive(Clone, Copy, PartialEq, Eq, Structural, Debug)]
pub enum Event {
    Open(usize),
    Close(usize),
    Text(usize, usize),
}

/// One piece of a rendered line: a style marker or a single source byte.
#[derive(Clone, Copy, PartialEq, Eq, Structural, Debug)]
pub enum Fragment {
    Open(usize),
    Close(usize),
    Byte(u8),
}

/// One rendered line of output; its fragments are balanced on their own,
/// independent of the neighbouring lines.
#[derive(Debug)]
pub struct OutputLine {
    pub frags: Vec<Fragment>,
}

impl View for OutputLine {
    type V = Seq<Fragment>;

    open spec fn view(&self) -> Seq<Fragment> {
        self.frags@
    }
}

/// Everything a highlight request can fail with.
#[derive(Clone, Copy, PartialEq, Eq, Structural, Debug)]
pub enum HighlightError {
    /// The requested language id is not registered.
    UnknownLanguage,
    /// The external parser or query engine failed, or handed back bytes that
    /// do not form a string.
    TreeSitterError,
    /// A query could not be compiled against its grammar at registration;
    /// the queries bundled with the built-in grammars compile, so the shipped
    /// registry never reports it.
    GrammarQueryMismatch,
    /// An event stream handed to the renderer broke the stack discipline.
    RenderInvariantViolation,
}

/// The text ranges of an event stream, in emission order.
pub open spec fn texts(evs: Seq<Event>) -> Seq<(usize, usize)>
    decreases evs.len(),
{
    if evs.len() == 0 {
        Seq::empty()
    } else {
        texts(evs.drop_last()) + (match evs.last() {
            Event::Text(a, b) => seq![(a, b)],
            _ => Seq::<(usize, usize)>::empty(),
        })
    }
}

/// The ranges tile `[lo, hi)`: each starts where the one before it ended.
pub open spec fn chain(ts: Seq<(usize, usize)>, lo: usize, hi: usize) -> bool
    decreases ts.len(),
{
    if ts.len() == 0 {
        lo == hi
    } else {
        chain(ts.drop_last(), lo, ts.last().0) && ts.last().0 <= ts.last().1 && ts.last().1 == hi
    }
}

/// Runs the open/close stack discipline over an event stream: `Some` of the
/// final stack of open indices, or `None` as soon as a close does not match
/// the top of the stack.
pub open spec fn run(evs: Seq<Event>, st: Seq<usize>) -> Option<Seq<usize>>
    decreases evs.len(),
{
    if evs.len() == 0 {
        Some(st)
    } else {
        match run(evs.drop_last(), st) {
            None => None,
            Some(s) => match evs.last() {
                Event::Open(i) => Some(s.push(i)),
                Event::Close(i) => if s.len() > 0 && s.last() == i {
                    Some(s.drop_last())
                } else {
                    None
                },
                Event::Text(_, _) => Some(s),
            },
        }
    }
}

/// The source bytes carried by the text events, concatenated in order.
pub open spec fn event_bytes(evs: Seq<Event>, src: Seq<u8>) -> Seq<u8>
    decreases evs.len(),
{
    if evs.len() == 0 {
        Seq::empty()
    } else {
        event_bytes(evs.drop_last(), src) + (match evs.last() {
            Event::Text(a, b) => src.subrange(a as int, b as int),
            _ => Seq::<u8>::empty(),
        })
    }
}

/// Every event stays inside the source and the palette.
pub open spec fn event_wf(e: Event, len: usize, plen: usize) -> bool {
    match e {
        Event::Open(i) => i < plen,
        Event::Close(i) => i < plen,
        Event::Text(a, b) => a <= b && b <= len,
    }
}

pub open spec fn events_wf(evs: Seq<Event>, len: usize, plen: usize) -> bool {
    forall|k: int| 0 <= k < evs.len() ==> event_wf(#[trigger] evs[k], len, plen)
}

/// A chain starts no later than it ends.
pub proof fn lemma_chain_lo_le_hi(ts: Seq<(usize, usize)>, lo: usize, hi: usize)
    requires
        chain(ts, lo, hi),
    ensures
        lo <= hi,
    decreases ts.len(),
{
    if ts.len() > 0 {
        lemma_chain_lo_le_hi(ts.drop_last(), lo, ts.last().0);
    }
}

/// Tiling text events reproduce exactly the tiled part of the source.
pub proof fn lemma_event_bytes_of_chain(evs: Seq<Event>, src: Seq<u8>, hi: usize)
    requires
        chain(texts(evs), 0, hi),
        hi <= src.len(),
    ensures
        event_bytes(evs, src) == src.subrange(0, hi as int),
    decreases evs.len(),
{
    if evs.len() == 0 {
        assert(event_bytes(evs, src) =~= src.subrange(0, hi as int));
    } else {
        match evs.last() {
            Event::Text(a, b) => {
                assert(texts(evs).last() == (a, b));
                assert(texts(evs).drop_last() =~= texts(evs.drop_last()));
                lemma_chain_lo_le_hi(texts(evs.drop_last()), 0, a);
                lemma_event_bytes_of_chain(evs.drop_last(), src, a);
                assert(event_bytes(evs, src) =~= src.subrange(0, hi as int));
            },
            _ => {
                assert(texts(evs) =~= texts(evs.drop_last()));
                lemma_event_bytes_of_chain(evs.drop_last(), src, hi);
                assert(event_bytes(evs, src) =~= src.subrange(0, hi as int));
            },
        }
    }
}

} // verus!

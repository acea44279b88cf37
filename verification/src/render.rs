use vstd::prelude::*;

use crate::events::{Event, Fragment, HighlightError, OutputLine};

verus! {

/// State of the renderer: finished lines, the fragments of the line being
/// built, and the stack of currently open palette indices.
pub struct RenderState {
    pub lines: Seq<Seq<Fragment>>,
    pub cur: Seq<Fragment>,
    pub stack: Seq<usize>,
}

/// Close markers for a stack, innermost (top) first.
pub open spec fn closes_down(st: Seq<usize>, j: int) -> Seq<Fragment>
    decreases j,
{
    if j <= 0 {
        Seq::empty()
    } else {
        seq![Fragment::Close(st[j - 1])] + closes_down(st, j - 1)
    }
}

pub open spec fn closes_of(st: Seq<usize>) -> Seq<Fragment> {
    closes_down(st, st.len() as int)
}

/// Open markers for a stack, in the order the styles were opened.
pub open spec fn opens_of(st: Seq<usize>) -> Seq<Fragment>
    decreases st.len(),
{
    if st.len() == 0 {
        Seq::empty()
    } else {
        opens_of(st.drop_last()).push(Fragment::Open(st.last()))
    }
}

/// End the current line: close every open style so the line is balanced on
/// its own, then start the next line by reopening them in the same order.
pub open spec fn break_line(s: RenderState) -> RenderState {
    RenderState {
        lines: s.lines.push(s.cur + closes_of(s.stack)),
        cur: opens_of(s.stack),
        stack: s.stack,
    }
}

/// Copy the source bytes of `[a, b)` onto the current line, breaking it at
/// every line feed.
pub open spec fn put_bytes(s: RenderState, src: Seq<u8>, a: usize, b: usize) -> RenderState
    decreases b - a,
{
    if a >= b || b > src.len() {
        s
    } else {
        let s2 = if src[a as int] == 10u8 {
            break_line(s)
        } else {
            RenderState { lines: s.lines, cur: s.cur.push(Fragment::Byte(src[a as int])), stack: s.stack }
        };
        put_bytes(s2, src, (a + 1) as usize, b)
    }
}

/// One event. A close that does not match the top of the stack is an
/// internal-consistency breach and refuses the whole render, as does a text
/// range that leaves the source.
pub open spec fn render_step(s: RenderState, e: Event, src: Seq<u8>) -> Option<RenderState> {
    match e {
        Event::Open(i) => Some(
            RenderState { lines: s.lines, cur: s.cur.push(Fragment::Open(i)), stack: s.stack.push(i) },
        ),
        Event::Close(i) => if s.stack.len() > 0 && s.stack.last() == i {
            Some(
                RenderState {
                    lines: s.lines,
                    cur: s.cur.push(Fragment::Close(i)),
                    stack: s.stack.drop_last(),
                },
            )
        } else {
            None
        },
        Event::Text(a, b) => if a <= b && b <= src.len() {
            Some(put_bytes(s, src, a, b))
        } else {
            None
        },
    }
}

pub open spec fn init_render() -> RenderState {
    RenderState { lines: Seq::empty(), cur: Seq::empty(), stack: Seq::empty() }
}

pub open spec fn render_fold(evs: Seq<Event>, src: Seq<u8>) -> Option<RenderState>
    decreases evs.len(),
{
    if evs.len() == 0 {
        Some(init_render())
    } else {
        match render_fold(evs.drop_last(), src) {
            None => None,
            Some(s) => render_step(s, evs.last(), src),
        }
    }
}

/// The whole renderer: the lines for an event stream over a source, or
/// nothing if the stream breaks the stack discipline, leaves the source, or
/// leaves a style open at the end.
pub open spec fn render_spec(evs: Seq<Event>, src: Seq<u8>) -> Option<Seq<Seq<Fragment>>> {
    match render_fold(evs, src) {
        None => None,
        Some(s) => if s.stack.len() == 0 {
            Some(s.lines.push(s.cur))
        } else {
            None
        },
    }
}

/// Renders an event stream against the source bytes into output lines, each
/// balanced on its own; styles open across a line break are closed at the end
/// of the line and reopened on the next.
pub fn render(events: &Vec<Event>, src: &Vec<u8>) -> (r: Result<
    Vec<OutputLine>,
    HighlightError,
>)
    ensures
        match r {
            Ok(lines) => render_spec(events@, src@) == Some(
                lines@.map_values(|l: OutputLine| l@),
            ),
            Err(e) => render_spec(events@, src@) is None && e
                == HighlightError::RenderInvariantViolation,
        },
{
    let mut lines: Vec<OutputLine> = Vec::new();
    let mut cur: Vec<Fragment> = Vec::new();
    let mut stack: Vec<usize> = Vec::new();
    let mut k: usize = 0;
    proof {
        assert(events@.take(0) =~= Seq::<Event>::empty());
        assert(lines@.map_values(|l: OutputLine| l@) =~= Seq::<Seq<Fragment>>::empty());
    }
    while k < events.len()
        invariant
            k <= events.len(),
            render_fold(events@.take(k as int), src@) == Some(
                RenderState {
                    lines: lines@.map_values(|l: OutputLine| l@),
                    cur: cur@,
                    stack: stack@,
                },
            ),
        decreases events.len() - k,
    {
        let ghost pre = RenderState {
            lines: lines@.map_values(|l: OutputLine| l@),
            cur: cur@,
            stack: stack@,
        };
        let e = events[k];
        match e {
            Event::Open(i) => {
                cur.push(Fragment::Open(i));
                stack.push(i);
            },
            Event::Close(i) => {
                if stack.len() > 0 && stack[stack.len() - 1] == i {
                    cur.push(Fragment::Close(i));
                    let _ = stack.pop();
                } else {
                    proof {
                        assert(events@.take(k as int + 1).drop_last() =~= events@.take(k as int));
                        assert(events@.take(k as int + 1).last() == e);
                        lemma_render_fold_none(events@, src@, k as int + 1);
                    }
                    return Err(HighlightError::RenderInvariantViolation);
                }
            },
            Event::Text(a, b) => {
                if a > b || b > src.len() {
                    proof {
                        assert(events@.take(k as int + 1).drop_last() =~= events@.take(k as int));
                        assert(events@.take(k as int + 1).last() == e);
                        lemma_render_fold_none(events@, src@, k as int + 1);
                    }
                    return Err(HighlightError::RenderInvariantViolation);
                }
                let mut i: usize = a;
                while i < b
                    invariant
                        a <= i <= b,
                        b <= src.len(),
                        put_bytes(pre, src@, a, b) == put_bytes(
                            RenderState {
                                lines: lines@.map_values(|l: OutputLine| l@),
                                cur: cur@,
                                stack: stack@,
                            },
                            src@,
                            i,
                            b,
                        ),
                    decreases b - i,
                {
                    let ghost st_i = RenderState {
                        lines: lines@.map_values(|l: OutputLine| l@),
                        cur: cur@,
                        stack: stack@,
                    };
                    let byte = src[i];
                    if byte == 10u8 {
                        // close the open styles, innermost first
                        let ghost base = cur@;
                        let mut j: usize = stack.len();
                        while j > 0
                            invariant
                                j <= stack@.len(),
                                cur@ + closes_down(stack@, j as int) == base + closes_of(stack@),
                            decreases j,
                        {
                            let ghost cur_pre = cur@;
                            cur.push(Fragment::Close(stack[j - 1]));
                            j = j - 1;
                            proof {
                                assert(cur@ + closes_down(stack@, j as int) =~= cur_pre
                                    + closes_down(stack@, j as int + 1));
                            }
                        }
                        proof {
                            assert(cur@ + closes_down(stack@, 0) =~= cur@);
                            assert(cur@ == base + closes_of(stack@));
                        }
                        let ghost lines_pre = lines@.map_values(|l: OutputLine| l@);
                        let ghost closed_line = cur@;
                        lines.push(OutputLine { frags: cur });
                        proof {
                            assert(lines@.map_values(|l: OutputLine| l@) =~= lines_pre.push(
                                closed_line,
                            ));
                        }
                        // reopen them in their original order
                        cur = Vec::new();
                        proof {
                            assert(stack@.take(0) =~= Seq::<usize>::empty());
                        }
                        let mut j2: usize = 0;
                        while j2 < stack.len()
                            invariant
                                j2 <= stack@.len(),
                                cur@ == opens_of(stack@.take(j2 as int)),
                            decreases stack@.len() - j2,
                        {
                            cur.push(Fragment::Open(stack[j2]));
                            j2 = j2 + 1;
                            proof {
                                assert(stack@.take(j2 as int).drop_last() =~= stack@.take(
                                    j2 as int - 1,
                                ));
                                assert(stack@.take(j2 as int).last() == stack@[j2 as int - 1]);
                            }
                        }
                        proof {
                            assert(stack@.take(stack@.len() as int) =~= stack@);
                            assert((RenderState {
                                lines: lines@.map_values(|l: OutputLine| l@),
                                cur: cur@,
                                stack: stack@,
                            }) == break_line(st_i));
                        }
                    } else {
                        cur.push(Fragment::Byte(byte));
                    }
                    i = i + 1;
                    proof {
                        assert(put_bytes(st_i, src@, (i - 1) as usize, b) == put_bytes(
                            RenderState {
                                lines: lines@.map_values(|l: OutputLine| l@),
                                cur: cur@,
                                stack: stack@,
                            },
                            src@,
                            i,
                            b,
                        ));
                    }
                }
            },
        }
        k = k + 1;
        proof {
            assert(events@.take(k as int).drop_last() =~= events@.take(k as int - 1));
            assert(events@.take(k as int).last() == e);
        }
    }
    proof {
        assert(events@.take(k as int) =~= events@);
    }
    if stack.len() > 0 {
        return Err(HighlightError::RenderInvariantViolation);
    }
    let ghost before = lines@.map_values(|l: OutputLine| l@);
    lines.push(OutputLine { frags: cur });
    proof {
        assert(lines@.map_values(|l: OutputLine| l@) =~= before.push(cur@));
    }
    Ok(lines)
}

/// Once a prefix refuses, the whole stream refuses.
proof fn lemma_render_fold_none(evs: Seq<Event>, src: Seq<u8>, k: int)
    requires
        0 <= k <= evs.len(),
        render_fold(evs.take(k), src) is None,
    ensures
        render_fold(evs, src) is None,
    decreases evs.len() - k,
{
    if k < evs.len() {
        assert(evs.take(k + 1).drop_last() =~= evs.take(k));
        lemma_render_fold_none(evs, src, k + 1);
    } else {
        assert(evs.take(k) =~= evs);
    }
}

} // verus!

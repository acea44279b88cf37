use tshl::events::{Event, Fragment, HighlightError, RawCapture};
use tshl::render::render;
use tshl::resolve::{resolve, sort_captures};

fn cap(start: usize, end: usize, index: usize) -> RawCapture {
    RawCapture { start, end, index }
}

fn run_resolve(caps: Vec<RawCapture>, len: usize) -> Vec<Event> {
    let sorted = sort_captures(&caps);
    resolve(&sorted, len)
}

fn text_bytes(events: &[Event], src: &[u8]) -> Vec<u8> {
    let mut out = Vec::new();
    for e in events {
        if let Event::Text(a, b) = e {
            out.extend_from_slice(&src[*a..*b]);
        }
    }
    out
}

#[test]
fn resolve_no_captures_is_one_text_event() {
    let events = run_resolve(vec![], 5);
    assert_eq!(events, vec![Event::Text(0, 5)]);
}

#[test]
fn resolve_single_capture() {
    let events = run_resolve(vec![cap(2, 4, 0)], 6);
    assert_eq!(
        events,
        vec![
            Event::Text(0, 2),
            Event::Open(0),
            Event::Text(2, 4),
            Event::Close(0),
            Event::Text(4, 6),
        ]
    );
}

#[test]
fn nested_captures_open_and_close_in_containment_order() {
    // B inside A: A opens first, B closes first, strictly inside A's markers
    let events = run_resolve(vec![cap(2, 8, 1), cap(0, 10, 0)], 10);
    assert_eq!(
        events,
        vec![
            Event::Open(0),
            Event::Text(0, 2),
            Event::Open(1),
            Event::Text(2, 8),
            Event::Close(1),
            Event::Text(8, 10),
            Event::Close(0),
        ]
    );
}

#[test]
fn overlap_truncates_earlier_capture_at_later_start() {
    // A=[0,10) and B=[5,15) overlap without containment: A is closed at 5 and
    // B governs [5,15)
    let events = run_resolve(vec![cap(0, 10, 0), cap(5, 15, 1)], 15);
    assert_eq!(
        events,
        vec![
            Event::Open(0),
            Event::Text(0, 5),
            Event::Close(0),
            Event::Open(1),
            Event::Text(5, 15),
            Event::Close(1),
        ]
    );
}

#[test]
fn equal_starts_open_wider_range_first() {
    let events = run_resolve(vec![cap(0, 3, 1), cap(0, 6, 0)], 6);
    assert_eq!(
        events,
        vec![
            Event::Open(0),
            Event::Open(1),
            Event::Text(0, 3),
            Event::Close(1),
            Event::Text(3, 6),
            Event::Close(0),
        ]
    );
}

#[test]
fn byte_identical_ranges_nest_by_palette_index() {
    // equal ranges are a degenerate containment: they still nest, the
    // smaller palette index outermost, whichever order they arrive in
    let events = run_resolve(vec![cap(1, 4, 3), cap(1, 4, 2)], 5);
    assert_eq!(
        events,
        vec![
            Event::Text(0, 1),
            Event::Open(2),
            Event::Open(3),
            Event::Text(1, 4),
            Event::Close(3),
            Event::Close(2),
            Event::Text(4, 5),
        ]
    );
}

#[test]
fn round_trip_concatenated_text_events_reproduce_source() {
    let src: Vec<u8> = b"abcdefghij".to_vec();
    let caps = vec![cap(0, 4, 0), cap(2, 9, 1), cap(3, 5, 2), cap(7, 8, 0)];
    let events = run_resolve(caps, src.len());
    assert_eq!(text_bytes(&events, &src), src);
}

#[test]
fn render_splits_styled_span_across_lines() {
    // one capture over the whole comment: two lines, the marker closed at the
    // end of the first and reopened at the start of the second
    let src: Vec<u8> = b"/* a\nb */".to_vec();
    let events = run_resolve(vec![cap(0, 9, 0)], src.len());
    let lines = render(&events, &src).unwrap();
    assert_eq!(lines.len(), 2);
    assert_eq!(
        lines[0].frags,
        vec![
            Fragment::Open(0),
            Fragment::Byte(b'/'),
            Fragment::Byte(b'*'),
            Fragment::Byte(b' '),
            Fragment::Byte(b'a'),
            Fragment::Close(0),
        ]
    );
    assert_eq!(
        lines[1].frags,
        vec![
            Fragment::Open(0),
            Fragment::Byte(b'b'),
            Fragment::Byte(b' '),
            Fragment::Byte(b'*'),
            Fragment::Byte(b'/'),
            Fragment::Close(0),
        ]
    );
}

fn is_balanced(frags: &[Fragment]) -> bool {
    let mut stack: Vec<usize> = Vec::new();
    for f in frags {
        match f {
            Fragment::Open(i) => stack.push(*i),
            Fragment::Close(i) => {
                if stack.pop() != Some(*i) {
                    return false;
                }
            },
            Fragment::Byte(_) => {},
        }
    }
    stack.is_empty()
}

#[test]
fn every_rendered_line_is_balanced() {
    let src: Vec<u8> = b"one\ntwo\nthree\n".to_vec();
    let caps = vec![cap(0, 14, 0), cap(2, 9, 1), cap(5, 6, 2)];
    let events = run_resolve(caps, src.len());
    let lines = render(&events, &src).unwrap();
    assert_eq!(lines.len(), 4);
    for line in &lines {
        assert!(is_balanced(&line.frags));
    }
}

#[test]
fn render_rejects_mismatched_close() {
    let src: Vec<u8> = b"ab".to_vec();
    let events = vec![Event::Open(0), Event::Text(0, 2), Event::Close(1)];
    assert!(matches!(
        render(&events, &src),
        Err(HighlightError::RenderInvariantViolation)
    ));
}

#[test]
fn render_rejects_text_outside_source() {
    let src: Vec<u8> = b"ab".to_vec();
    let events = vec![Event::Text(0, 3)];
    assert!(matches!(
        render(&events, &src),
        Err(HighlightError::RenderInvariantViolation)
    ));
}

#[test]
fn render_joined_lines_round_trip_source() {
    let src: Vec<u8> = b"alpha\nbeta\n\ngamma".to_vec();
    let caps = vec![cap(0, 5, 0), cap(6, 10, 1), cap(12, 17, 0)];
    let events = run_resolve(caps, src.len());
    let lines = render(&events, &src).unwrap();
    let mut rebuilt: Vec<u8> = Vec::new();
    for (i, line) in lines.iter().enumerate() {
        if i > 0 {
            rebuilt.push(b'\n');
        }
        for f in &line.frags {
            if let Fragment::Byte(b) = f {
                rebuilt.push(*b);
            }
        }
    }
    assert_eq!(rebuilt, src);
}

use fmt_cmp::cmp::cursor::{compare, compare_whole, Lhs, Rhs, State};
use fmt_cmp::cmp::stream::Sink;
use fmt_cmp::cmp::text::Verdict;
use std::cmp::Ordering;

#[test]
fn ranges_compare_byte_by_byte() {
    let (a, b) = (b"abracadabra", b"abrabanana");
    assert_eq!(compare(a, 0, b, 0, 4), Verdict::Equal);
    assert_eq!(compare(a, 0, b, 0, 5), Verdict::Greater);
    assert_eq!(compare(b, 0, a, 0, 5), Verdict::Less);
    assert_eq!(compare(a, 7, a, 0, 4), Verdict::Equal);
    assert_eq!(compare(a, 3, b, 5, 1), Verdict::Equal);
    assert_eq!(compare(a, 11, b, 10, 0), Verdict::Equal);
    assert_eq!(compare(&[0xff], 0, &[0x7f], 0, 1), Verdict::Greater);
}

#[test]
fn wholes_compare_as_texts() {
    assert_eq!(compare_whole(b"", b""), Verdict::Equal);
    assert_eq!(compare_whole(b"", b"42"), Verdict::Less);
    assert_eq!(compare_whole(b"42", b""), Verdict::Greater);
    assert_eq!(compare_whole(b"42", b"240"), Verdict::Greater);
    assert_eq!(compare_whole(b"abracad", b"abracadabra"), Verdict::Less);
    assert_eq!(compare_whole(b"abracadabra", b"abracadabra"), Verdict::Equal);
}

#[test]
fn verdicts_are_orders() {
    assert_eq!(Verdict::Less.ordering(), Ordering::Less);
    assert_eq!(Verdict::Equal.ordering(), Ordering::Equal);
    assert_eq!(Verdict::Greater.ordering(), Ordering::Greater);
}

#[test]
fn a_state_concludes() {
    let fresh = State::new();
    assert_eq!(fresh.ret, Verdict::Equal);
    assert!(!fresh.rhs_is_remaining);
    assert_eq!(fresh.conclude(), Verdict::Equal);
    let open = State { ret: Verdict::Equal, rhs_is_remaining: true };
    assert_eq!(open.conclude(), Verdict::Less);
    let found = State { ret: Verdict::Greater, rhs_is_remaining: true };
    assert_eq!(found.conclude(), Verdict::Greater);
    let less = State { ret: Verdict::Less, rhs_is_remaining: false };
    assert_eq!(less.conclude(), Verdict::Less);
}

#[test]
fn the_inner_sink_passes_over_what_is_matched() {
    // The chunk "cad" after "abra" is matched, against a text in three chunks.
    let mut sink = Lhs { lhs: b"cad", done: 0, skip: 4, state: State::new() };
    assert!(!sink.consume(b"ab"));
    assert_eq!((sink.skip, sink.done), (2, 0));
    assert!(!sink.consume(b"rac"));
    assert_eq!((sink.skip, sink.done), (0, 1));
    assert!(!sink.consume(b""));
    assert_eq!((sink.skip, sink.done), (0, 1));
    assert!(sink.consume(b"adabra"));
    assert_eq!((sink.skip, sink.done), (0, 3));
    assert_eq!(sink.state.ret, Verdict::Equal);
    assert!(sink.state.rhs_is_remaining);
}

#[test]
fn the_inner_sink_stops_at_a_difference() {
    let mut sink = Lhs { lhs: b"cad", done: 0, skip: 1, state: State::new() };
    assert!(sink.consume(b"xcab"));
    assert_eq!(sink.state.ret, Verdict::Greater);
    assert!(!sink.state.rhs_is_remaining);
    assert_eq!(sink.done, 0);
}

#[test]
fn the_outer_sink_keeps_count() {
    let mut sink = Rhs::new("abracadabra");
    assert_eq!(sink.pos, 0);
    assert!(!sink.seen);
    assert!(!sink.consume(b""));
    assert!(sink.seen);
    assert!(sink.state.rhs_is_remaining);
    assert!(!sink.consume(b"abra"));
    assert_eq!(sink.pos, 4);
    assert!(sink.state.rhs_is_remaining);
    assert!(!sink.consume(b"cadabra"));
    assert_eq!(sink.pos, 11);
    assert!(!sink.state.rhs_is_remaining);
    assert_eq!(sink.state.conclude(), Verdict::Equal);
    assert!(sink.consume(b"!"));
    assert_eq!(sink.state.ret, Verdict::Greater);
    assert_eq!(sink.pos, 11);
}

#[test]
fn the_outer_sink_stops_at_a_difference() {
    let mut sink = Rhs::new("abracadabra");
    assert!(!sink.consume(b"abr"));
    assert!(sink.consume(b"abanana"));
    assert_eq!(sink.state.ret, Verdict::Less);
    assert_eq!(sink.pos, 3);
    assert_eq!(sink.state.conclude(), Verdict::Less);
}

use fmt_cmp::cmp::generic;
use fmt_cmp::cmp::stream::{Accumulator, Mixer, Producer, Sink};
use fmt_cmp::{cmp, eq, hash, Cmp};
use std::cmp::Ordering;
use std::fmt::{Debug, Display};

/// A text that renders in pieces of `n` bytes after a first piece of one more;
/// with `n == 0`, byte by byte.
#[derive(Debug)]
struct SplitFmt<'a>(&'a str, usize);

impl Producer for SplitFmt<'_> {
    fn render_to<S: Sink>(&self, sink: &mut S) -> bool {
        let SplitFmt(s, n) = *self;
        let mut pos = 0;
        let pieces = s.split_inclusive(|_| {
            let ret = n == 0 || (pos != 0 && pos % n == 0);
            pos += 1;
            ret
        });
        for piece in pieces {
            if sink.consume(piece.as_bytes()) {
                return true;
            }
        }
        false
    }
}

/// A sink that keeps what it is given.
struct Collect(Vec<u8>, usize);

impl Sink for Collect {
    fn consume(&mut self, chunk: &[u8]) -> bool {
        self.0.extend_from_slice(chunk);
        self.1 += 1;
        false
    }
}

fn rendered<T: Producer + ?Sized>(value: &T) -> Vec<u8> {
    let mut sink = Collect(Vec::new(), 0);
    assert!(!value.render_to(&mut sink));
    sink.0
}

fn check<T: Debug + Display + Producer, U: Debug + Display + Producer>(x: T, y: U) {
    let (x_str, y_str) = (x.to_string(), y.to_string());
    let expected = x_str.cmp(&y_str);

    assert_eq!(cmp(&x, &y), expected);
    assert_eq!(cmp(&y, &x), expected.reverse(), "rev");
    assert_eq!(generic::cmp(&x, &y), expected, "generic");
    assert_eq!(generic::cmp(&y, &x), expected.reverse(), "generic,rev");

    check_split(&x_str, &y_str);
}

/// For values that the library knows by their text alone.
fn check_text<T: Debug + Display, U: Debug + Display>(x: T, y: U) {
    check(x.to_string(), y.to_string());
}

fn check_split(x_str: &str, y_str: &str) {
    let expected = x_str.cmp(y_str);

    for s in [x_str, y_str] {
        for n in 0..s.len() {
            let split = SplitFmt(s, n);
            assert_eq!(rendered(&split), s.as_bytes(), "`{:?}` is broken", split);
        }
    }

    for (nx, ny) in (0..x_str.len()).flat_map(|i| (0..y_str.len()).map(move |j| (i, j))) {
        let (x, y) = (SplitFmt(x_str, nx), SplitFmt(y_str, ny));

        assert_eq!(cmp(&x, &y), expected, "{:?}", (nx, ny));
        assert_eq!(cmp(&y, &x), expected.reverse(), "{:?},rev", (nx, ny));
        assert_eq!(generic::cmp(&x, &y), expected, "generic,{:?}", (nx, ny));
        assert_eq!(
            generic::cmp(&y, &x),
            expected.reverse(),
            "generic,{:?},rev",
            (nx, ny)
        );
    }
}

#[test]
fn fmt_cmp() {
    // Empty inputs.
    check("", "");

    // Empty and non-empty inputs.
    check("", 42_u32);
    check_text("", 42);

    // `lhs == rhs && lhs.to_string() == rhs.to_string()`
    check("abracadabra", "abracadabra");

    // `lhs == rhs && lhs.to_string() != rhs.to_string()`
    check_text(0., -0.);

    // `lhs != rhs && lhs.to_string() == rhs.to_string()`
    check_text(f64::NAN, f64::NAN);

    // `lhs < rhs && lhs.to_string() > rhs.to_string()`
    // `lhs.to_string() > rhs.to_string() && lhs.to_string().len() < rhs.to_string().len()`
    check(42_u32, 240_u32);
    check_text(42, 240);

    // `lhs > rhs && lhs.to_string() > rhs.to_string()`
    // `lhs.to_string() > rhs.to_string() && lhs.to_string().len() > rhs.to_string().len()`
    check(42_u32, 2_u32);
    check_text(42, 2);

    // One is a prefix of the other.
    check("abracadabra", "abracad");

    // Have a common prefix.
    check("abracadabra", "abrabanana");
}

#[test]
fn named_outcomes() {
    assert_eq!(cmp("", ""), Ordering::Equal);
    assert_eq!(cmp("", "42"), Ordering::Less);
    assert_eq!(cmp("42", ""), Ordering::Greater);
    assert_eq!(cmp("abracadabra", "abracadabra"), Ordering::Equal);
    assert_eq!(cmp("abracadabra", "abracad"), Ordering::Greater);
    assert_eq!(cmp("abracad", "abracadabra"), Ordering::Less);
    assert_eq!(cmp("abracadabra", "abrabanana"), Ordering::Greater);
    assert_eq!(cmp("42", "240"), Ordering::Greater);
    assert!(eq("NaN", "NaN"));
    assert!(!eq("0", "-0"));
    assert!(eq("2A", &b"2A"[..]));
}

/// A producer of given chunks, empty ones included.
struct Pieces(Vec<&'static str>);

impl Producer for Pieces {
    fn render_to<S: Sink>(&self, sink: &mut S) -> bool {
        for piece in &self.0 {
            if sink.consume(piece.as_bytes()) {
                return true;
            }
        }
        false
    }
}

#[test]
fn no_chunk_at_all_is_the_empty_text() {
    let nothing = Pieces(vec![]);
    assert_eq!(cmp(&nothing, "42"), Ordering::Less);
    assert_eq!(cmp("42", &nothing), Ordering::Greater);
    assert_eq!(cmp(&nothing, ""), Ordering::Equal);
    assert_eq!(cmp(&nothing, &nothing), Ordering::Equal);
    assert_eq!(cmp(&nothing, &Pieces(vec!["", ""])), Ordering::Equal);
    assert_eq!(cmp(&nothing, &Pieces(vec!["", "", "x"])), Ordering::Less);
    assert!(!eq(&nothing, "42"));
    assert!(eq(&nothing, ""));
}

#[test]
fn empty_chunks_change_nothing() {
    let plain = "abracadabra";
    let holes = Pieces(vec!["", "abra", "", "", "cad", "abra", ""]);
    assert_eq!(rendered(&holes), plain.as_bytes());
    assert_eq!(cmp(&holes, plain), Ordering::Equal);
    assert_eq!(cmp(plain, &holes), Ordering::Equal);
    assert_eq!(cmp(&holes, "abracad"), Ordering::Greater);
    assert_eq!(cmp("abracad", &holes), Ordering::Less);
    assert_eq!(cmp(&holes, "abrabanana"), Ordering::Greater);
    assert_eq!(cmp(&holes, &Pieces(vec!["abracadabr", "", "b"])), Ordering::Less);
    assert!(eq(&holes, &Pieces(vec!["a", "b", "r", "a", "cadabra"])));
}

/// Counts the chunks that a producer hands out before it is stopped.
struct Counted<'a>(Pieces, &'a std::cell::Cell<usize>);

impl Producer for Counted<'_> {
    fn render_to<S: Sink>(&self, sink: &mut S) -> bool {
        for piece in &(self.0).0 {
            self.1.set(self.1.get() + 1);
            if sink.consume(piece.as_bytes()) {
                return true;
            }
        }
        false
    }
}

#[test]
fn stops_at_the_first_difference() {
    let seen = std::cell::Cell::new(0);
    let long = Counted(Pieces(vec!["ab", "cd", "ef", "gh", "ij"]), &seen);
    assert_eq!(cmp(&long, "abxd"), Ordering::Less);
    assert_eq!(seen.get(), 2);
    seen.set(0);
    assert_eq!(cmp(&long, "abc"), Ordering::Greater);
    assert_eq!(seen.get(), 2);
}

/// An accumulator that writes down every byte.
#[derive(Default, PartialEq, Debug)]
struct Tape(Vec<u8>);

impl Mixer for Tape {}

impl Accumulator for Tape {
    fn update(&mut self, bytes: &[u8]) {
        self.0.extend_from_slice(bytes);
    }
}

#[test]
fn hash_feeds_the_text_and_a_sentinel() {
    let mut tape = Tape::default();
    hash("42", &mut tape);
    assert_eq!(tape.0, vec![b'4', b'2', 0xff]);
    hash("", &mut tape);
    hash(&Pieces(vec![]), &mut tape);
    assert_eq!(tape.0, vec![b'4', b'2', 0xff, 0xff, 0xff]);
    let mut other = Tape::default();
    generic::hash(&SplitFmt("42", 0), &mut other);
    assert_eq!(other.0, vec![b'4', b'2', 0xff]);
}

#[test]
fn equal_texts_hash_alike() {
    let text = "abracadabra";
    let mut whole = Tape::default();
    hash(text, &mut whole);
    for n in 0..text.len() {
        let mut split = Tape::default();
        hash(&SplitFmt(text, n), &mut split);
        assert_eq!(split, whole);
    }
    let mut pieces = Tape::default();
    hash(&Pieces(vec!["", "abra", "", "cad", "abra", ""]), &mut pieces);
    assert_eq!(pieces, whole);
}

#[test]
fn integers_render_in_decimal() {
    assert_eq!(rendered(&0_u8), b"0");
    assert_eq!(rendered(&7_u16), b"7");
    assert_eq!(rendered(&240_u32), b"240");
    assert_eq!(rendered(&u64::MAX), u64::MAX.to_string().as_bytes());
    assert_eq!(rendered(&u128::MAX), u128::MAX.to_string().as_bytes());
    assert_eq!(rendered(&100_000_usize), b"100000");
    let mut sink = Collect(Vec::new(), 0);
    assert!(!1234_u32.render_to(&mut sink));
    assert_eq!(sink.1, 4);
    assert_eq!(42_u8.number(), Some(42));
    assert_eq!("42".number(), None);
    assert_eq!("42".whole(), Some(&b"42"[..]));
    assert_eq!(42_u8.whole(), None);
}

#[test]
fn shortcuts_agree_with_rendering() {
    let numbers = [0_u64, 1, 2, 9, 10, 24, 42, 99, 100, 240, 241, 4_200, 65_536, 99_999, u64::MAX];
    for x in numbers {
        for y in numbers {
            let expected = x.to_string().cmp(&y.to_string());
            assert_eq!(cmp(&x, &y), expected);
            assert_eq!(generic::cmp(&x, &y), expected);
            assert_eq!(cmp(&x, &u128::from(y)), expected);
            assert_eq!(cmp(&x, &*y.to_string()), expected);
            assert_eq!(cmp(&*x.to_string(), &y), expected);
            assert_eq!(eq(&x, &y), x == y);
            assert_eq!(generic::eq(&x, &y), x == y);
            assert_eq!(eq(&x, &*y.to_string()), x == y);
        }
    }
    let mut short = Tape::default();
    let mut long = Tape::default();
    hash("abracadabra", &mut short);
    generic::hash("abracadabra", &mut long);
    assert_eq!(short, long);
    let mut number = Tape::default();
    hash(&240_u16, &mut number);
    assert_eq!(number.0, b"240\xff");
}

#[test]
fn wrapper_compares_by_text() {
    assert_eq!(Cmp(42_u32).cmp(&Cmp(240_u32)), Ordering::Greater);
    assert_eq!(Cmp(42_u32).partial_cmp(&Cmp("240")), Some(Ordering::Greater));
    assert_eq!(Cmp("abracad").partial_cmp(&Cmp(SplitFmt("abracadabra", 2))), Some(Ordering::Less));
    assert!(Cmp("NaN").eq(&Cmp(String::from("NaN"))));
    assert!(!Cmp("0").eq(&Cmp("-0")));
    assert!(Cmp(7_u8).eq(&Cmp(7_u128)));
    assert_eq!(*Cmp(7_u8).as_ref(), 7);
    assert_eq!(rendered(&Cmp(SplitFmt("abracadabra", 2))), b"abracadabra");
    assert_eq!(Cmp("42").whole(), Some(&b"42"[..]));
    assert_eq!(Cmp(42_u16).number(), Some(42));

    let mut values: Vec<u32> = (1..=10).collect();
    values.sort_by(|a, b| Cmp(*a).cmp(&Cmp(*b)));
    assert_eq!(values, [1, 10, 2, 3, 4, 5, 6, 7, 8, 9]);

    let (mut one, mut other) = (Tape::default(), Tape::default());
    Cmp(240_u32).hash(&mut one);
    Cmp("240").hash(&mut other);
    assert_eq!(one, other);
    assert_eq!(one.0, b"240\xff");
}

#[test]
fn same_call_same_result() {
    let (x, y) = (SplitFmt("abracadabra", 3), SplitFmt("abracad", 2));
    assert_eq!(cmp(&x, &y), cmp(&x, &y));
    assert_eq!(rendered(&x), rendered(&x));
    assert_eq!(cmp(&x, &x), Ordering::Equal);
}

#[test]
fn order_laws_on_samples() {
    let texts = ["", "a", "ab", "abc", "b", "ba", "42", "240", "2", "\u{ff}", "abracadabra"];
    for a in texts {
        assert_eq!(cmp(a, a), Ordering::Equal);
        for b in texts {
            assert_eq!(cmp(a, b), cmp(b, a).reverse());
            assert_eq!(cmp(a, b) == Ordering::Equal, a == b);
            assert_eq!(eq(a, b), a == b);
            for c in texts {
                if cmp(a, b) != Ordering::Greater && cmp(b, c) != Ordering::Greater {
                    assert_ne!(cmp(a, c), Ordering::Greater);
                }
            }
        }
    }
}

use cats::{
    concat_len, concat_to_sink, concat_to_string, ByteSink, Format, Piece, Rep, SinkError,
    Utf8Write, VecSink,
};

struct FailingSink {
    accepted: Vec<u8>,
    writes_left: usize,
    rejected_calls: usize,
}

impl FailingSink {
    fn new(writes_left: usize) -> FailingSink {
        FailingSink { accepted: Vec::new(), writes_left, rejected_calls: 0 }
    }
}

impl ByteSink for FailingSink {
    fn write(&mut self, buf: &[u8]) -> Result<(), SinkError> {
        if self.writes_left == 0 {
            self.rejected_calls += 1;
            return Err(SinkError);
        }
        self.writes_left -= 1;
        self.accepted.extend_from_slice(buf);
        Ok(())
    }
}

#[test]
fn concatenation_end_to_end() {
    let items = [
        Piece::Str("("),
        Piece::Ch('a'),
        Piece::Str(")"),
        Piece::Str(" "),
        Piece::Int(12),
        Piece::Str(" + "),
        Piece::Int(7),
        Piece::Str(" = "),
        Piece::Int(19),
    ];
    let s = concat_to_string(&items);
    assert_eq!(s, "(a) 12 + 7 = 19");
    assert_eq!(concat_len(&items), "(a) 12 + 7 = 19".len());
}

#[test]
fn concatenation_of_nothing_is_empty() {
    let items: [Piece; 0] = [];
    assert_eq!(concat_len(&items), 0);
    assert_eq!(concat_to_string(&items), "");
}

#[test]
fn concatenation_counts_bytes_into_a_sink() {
    let items = [Piece::Str("Meow"), Piece::Ch(','), Piece::Ch(' '), Piece::Str("World")];
    let mut sink = VecSink::new();
    let n = concat_to_sink(&items, &mut sink).unwrap();
    assert_eq!(n, 11);
    assert_eq!(sink.into_bytes(), b"Meow, World");
}

#[test]
fn concatenation_with_formatted_numbers() {
    let digits = ['0', '1', '2', '3', '4', '5', '6', '7', '8', '9'];
    let f = cats::FormattedInt {
        prefix: "",
        suffix: "",
        digits: &digits,
        min_len: 4,
        sign: cats::SignPolicy::Empty,
    };
    let items = [Piece::Str("id-"), Piece::Fmt(f, 7)];
    assert_eq!(concat_to_string(&items), "id-0007");
}

#[test]
fn concatenation_with_unsigned_and_multibyte_text() {
    let items = [Piece::Uint(1000), Piece::Str(" \u{20ac}")];
    let s = concat_to_string(&items);
    assert_eq!(s, "1000 \u{20ac}");
    assert_eq!(concat_len(&items), 8);
}

#[test]
fn failure_stops_the_pipeline() {
    // The first two pieces fit in two writes; the third write is rejected
    // and nothing after it reaches the sink.
    let items = [Piece::Str("ab"), Piece::Ch('c'), Piece::Str("def"), Piece::Str("ghi")];
    let mut sink = FailingSink::new(2);
    let r = concat_to_sink(&items, &mut sink);
    assert!(r.is_err());
    assert_eq!(sink.accepted, b"abc");
    assert_eq!(sink.rejected_calls, 1);
}

#[test]
fn failure_on_the_first_write_reports_the_error() {
    let items = [Piece::Str("ab")];
    let mut sink = FailingSink::new(0);
    assert!(concat_to_sink(&items, &mut sink).is_err());
    assert!(sink.accepted.is_empty());
}

#[test]
fn repeat_renders_back_to_back() {
    let rep = Rep(3);
    assert_eq!(Format::len(&rep, &'x'), 3);
    let mut sink = VecSink::new();
    let n = Format::write(&rep, &'x', &mut sink).unwrap();
    assert_eq!(n, 3);
    assert_eq!(sink.into_bytes(), b"xxx");
}

#[test]
fn repeat_zero_times_renders_nothing() {
    let rep = Rep(0);
    assert_eq!(Format::len(&rep, &"abc"), 0);
    let mut sink = VecSink::new();
    assert_eq!(Format::write(&rep, &"abc", &mut sink).unwrap(), 0);
    assert!(sink.into_bytes().is_empty());
}

#[test]
fn repeat_propagates_a_mid_way_failure() {
    let rep = Rep(5);
    let mut sink = FailingSink::new(2);
    assert!(Format::write(&rep, &"ab", &mut sink).is_err());
    assert_eq!(sink.accepted, b"abab");
}

#[test]
fn utf8_write_pushes_characters_and_strings() {
    let mut sink = VecSink::new();
    assert_eq!(Utf8Write::push(&mut sink, 'A').unwrap(), 1);
    assert_eq!(Utf8Write::push(&mut sink, '\u{e9}').unwrap(), 2);
    assert_eq!(Utf8Write::push(&mut sink, '\u{20ac}').unwrap(), 3);
    assert_eq!(Utf8Write::push(&mut sink, '\u{1f600}').unwrap(), 4);
    assert_eq!(Utf8Write::push_str(&mut sink, "!").unwrap(), 1);
    let s = String::from_utf8(sink.into_bytes()).unwrap();
    assert_eq!(s, "A\u{e9}\u{20ac}\u{1f600}!");
}

#[test]
fn length_pass_matches_write_pass_for_a_mixed_list() {
    let items = [
        Piece::Str("x="),
        Piece::Uint(0),
        Piece::Ch(';'),
        Piece::Int(-42),
        Piece::Str("\u{20ac}"),
    ];
    let n = concat_len(&items);
    let mut sink = VecSink::new();
    let written = concat_to_sink(&items, &mut sink).unwrap();
    assert_eq!(n, written);
    assert_eq!(sink.into_bytes().len(), n);
}

#[test]
fn repeated_pieces_in_a_concatenation() {
    let items = [
        Piece::RepeatStr(Rep(2), "ab"),
        Piece::Str("-"),
        Piece::RepeatCh(Rep(3), 'x'),
        Piece::RepeatCh(Rep(0), 'q'),
    ];
    assert_eq!(concat_to_string(&items), "abab-xxx");
    assert_eq!(concat_len(&items), 8);
}

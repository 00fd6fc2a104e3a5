use cats::{Format, FormattedInt, Show, SignPolicy, VecSink};

const DEC: [char; 10] = ['0', '1', '2', '3', '4', '5', '6', '7', '8', '9'];
const BIN: [char; 2] = ['0', '1'];

fn dec(min_len: usize, sign: SignPolicy) -> FormattedInt<'static> {
    FormattedInt { prefix: "", suffix: "", digits: &DEC, min_len, sign }
}

fn render_u64(f: &FormattedInt, x: u64) -> String {
    let expected = Format::len(f, &x);
    let mut sink = VecSink::new();
    let written = Format::write(f, &x, &mut sink).unwrap();
    assert_eq!(written, expected);
    String::from_utf8(sink.into_bytes()).unwrap()
}

fn render_i64(f: &FormattedInt, x: i64) -> String {
    let expected = Format::len(f, &x);
    let mut sink = VecSink::new();
    let written = Format::write(f, &x, &mut sink).unwrap();
    assert_eq!(written, expected);
    String::from_utf8(sink.into_bytes()).unwrap()
}

fn show_to_string<T: Show>(t: &T) -> String {
    let expected = Show::len(t);
    let mut sink = VecSink::new();
    let written = Show::write(t, &mut sink).unwrap();
    assert_eq!(written, expected);
    String::from_utf8(sink.into_bytes()).unwrap()
}

#[test]
fn zero_renders_as_one_zero_digit_decimal() {
    assert_eq!(render_u64(&dec(0, SignPolicy::Empty), 0), "0");
    assert_eq!(Format::len(&dec(0, SignPolicy::Empty), &0u64), 1);
}

#[test]
fn zero_renders_as_one_zero_digit_binary() {
    let f = FormattedInt {
        prefix: "",
        suffix: "",
        digits: &BIN,
        min_len: 0,
        sign: SignPolicy::Empty,
    };
    assert_eq!(render_u64(&f, 0), "0");
}

#[test]
fn padding_to_minimum_length() {
    assert_eq!(render_u64(&dec(4, SignPolicy::Empty), 7), "0007");
}

#[test]
fn padding_not_added_when_enough_digits() {
    assert_eq!(render_u64(&dec(2, SignPolicy::Empty), 12345), "12345");
}

#[test]
fn sign_policy_plus_on_positive() {
    assert_eq!(render_i64(&dec(0, SignPolicy::Plus), 5), "+5");
}

#[test]
fn sign_policy_space_on_positive() {
    assert_eq!(render_i64(&dec(0, SignPolicy::Space), 5), " 5");
}

#[test]
fn sign_policy_empty_on_positive() {
    assert_eq!(render_i64(&dec(0, SignPolicy::Empty), 5), "5");
}

#[test]
fn negative_renders_same_under_all_policies() {
    assert_eq!(render_i64(&dec(0, SignPolicy::Plus), -5), "-5");
    assert_eq!(render_i64(&dec(0, SignPolicy::Space), -5), "-5");
    assert_eq!(render_i64(&dec(0, SignPolicy::Empty), -5), "-5");
}

#[test]
fn hex_descriptor_renders_255() {
    let f = cats::hex();
    assert_eq!(render_u64(&f, 255), "ff");
}

#[test]
fn binary_alphabet_renders_8() {
    let f = FormattedInt {
        prefix: "",
        suffix: "",
        digits: &BIN,
        min_len: 0,
        sign: SignPolicy::Empty,
    };
    assert_eq!(render_u64(&f, 8), "1000");
}

#[test]
fn prefix_and_suffix_wrap_the_digits() {
    let f = FormattedInt {
        prefix: "<",
        suffix: ">",
        digits: &DEC,
        min_len: 3,
        sign: SignPolicy::Plus,
    };
    assert_eq!(render_u64(&f, 42), "+<042>");
}

#[test]
fn multibyte_prefix_counts_bytes() {
    let f = FormattedInt {
        prefix: "\u{20ac}",
        suffix: "",
        digits: &DEC,
        min_len: 0,
        sign: SignPolicy::Empty,
    };
    let s = render_u64(&f, 9);
    assert_eq!(s, "\u{20ac}9");
    assert_eq!(Format::len(&f, &9u64), 4);
}

#[test]
fn trailing_zeros_survive_the_reversal() {
    assert_eq!(render_u64(&dec(0, SignPolicy::Empty), 1000), "1000");
    assert_eq!(render_u64(&dec(0, SignPolicy::Empty), 10203040), "10203040");
}

#[test]
fn largest_supported_decimal_magnitude() {
    assert_eq!(
        render_u64(&dec(0, SignPolicy::Empty), 9_999_999_999_999_999_999),
        "9999999999999999999"
    );
}

#[test]
fn minimum_i64_renders_without_overflow() {
    assert_eq!(show_to_string(&i64::MIN), "-9223372036854775808");
    assert_eq!(render_i64(&dec(0, SignPolicy::Plus), i64::MIN), "-9223372036854775808");
}

#[test]
fn num_digits_counts_digits() {
    let f = dec(0, SignPolicy::Empty);
    assert_eq!(f.num_digits(0), 1);
    assert_eq!(f.num_digits(9), 1);
    assert_eq!(f.num_digits(10), 2);
    assert_eq!(f.num_digits(12345), 5);
}

#[test]
fn reverse_reverses_the_digit_sequence() {
    let f = dec(0, SignPolicy::Empty);
    assert_eq!(f.reverse(0), 0);
    assert_eq!(f.reverse(1234), 4321);
    assert_eq!(f.reverse(1000), 1);
}

#[test]
fn sign_len_per_policy() {
    assert_eq!(dec(0, SignPolicy::Plus).sign_len(), 1);
    assert_eq!(dec(0, SignPolicy::Space).sign_len(), 1);
    assert_eq!(dec(0, SignPolicy::Empty).sign_len(), 0);
}

#[test]
fn with_fanciness_adds_decoration_lengths() {
    let f = FormattedInt {
        prefix: "0x",
        suffix: "h",
        digits: &DEC,
        min_len: 6,
        sign: SignPolicy::Plus,
    };
    assert_eq!(f.with_fanciness(3), 6 + 2 + 1 + 1);
    assert_eq!(f.with_fanciness(8), 8 + 2 + 1 + 1);
}

#[test]
fn show_length_equals_written_bytes_for_integers() {
    assert_eq!(show_to_string(&0u8), "0");
    assert_eq!(show_to_string(&255u8), "255");
    assert_eq!(show_to_string(&65535u16), "65535");
    assert_eq!(show_to_string(&4_294_967_295u32), "4294967295");
    assert_eq!(show_to_string(&1_000_000u64), "1000000");
    assert_eq!(show_to_string(&123usize), "123");
    assert_eq!(show_to_string(&-128i8), "-128");
    assert_eq!(show_to_string(&-32768i16), "-32768");
    assert_eq!(show_to_string(&i32::MIN), "-2147483648");
    assert_eq!(show_to_string(&-1isize), "-1");
}

#[test]
fn show_for_text_and_chars() {
    assert_eq!(show_to_string(&"hello"), "hello");
    assert_eq!(show_to_string(&String::from("meow")), "meow");
    assert_eq!(show_to_string(&'x'), "x");
    assert_eq!(show_to_string(&'\u{20ac}'), "\u{20ac}");
    assert_eq!(Show::len(&'\u{20ac}'), 3);
}

#[test]
fn show_for_options_and_references() {
    assert_eq!(show_to_string(&Some(42u64)), "42");
    assert_eq!(show_to_string(&Option::<u64>::None), "");
    assert_eq!(Show::len(&Option::<u64>::None), 0);
    let x = 7u64;
    assert_eq!(show_to_string(&&x), "7");
}

#[test]
fn num_digits_keeps_the_overflow_guard_convention() {
    // Past the last 64-bit decimal power the threshold wraps and the loop
    // stops with the count it reached, one short of the true count.
    let f = dec(0, SignPolicy::Empty);
    assert_eq!(f.num_digits(u64::MAX), 19);
    assert_eq!(f.num_digits(10_000_000_000_000_000_000), 19);
    assert_eq!(f.num_digits(9_999_999_999_999_999_999), 19);
}

#[test]
fn vec_sink_never_fails() {
    let mut sink = VecSink::new();
    assert!(cats::ByteSink::write(&mut sink, b"abc").is_ok());
    assert_eq!(sink.into_bytes(), b"abc");
}

use prompt_reader::console::Console;
use prompt_reader::numeric::FixedPoint;
use prompt_reader::numeric::Numeric;
use prompt_reader::reader::read_float;
use prompt_reader::reader::read_float_or_empty;
use prompt_reader::reader::read_input_string;
use prompt_reader::reader::read_int;
use prompt_reader::reader::read_int_or_empty;
use prompt_reader::reader::read_num;
use prompt_reader::reader::read_num_or_empty;
use prompt_reader::reader::read_string;
use prompt_reader::reader::read_string_or_empty;

fn console(lines: &[&str]) -> Console {
    Console::new(lines.iter().map(|l| l.to_string()).collect())
}

#[test]
fn input_string_trims_and_prompts() {
    let mut con = console(&["  a b  "]);
    let s = read_input_string("Amount", &mut con).unwrap();
    assert_eq!(s, "a b");
    assert_eq!(con.written_chunks(), &vec!["Amount: ".to_string()]);
    assert_eq!(con.remaining_len(), 0);
}

#[test]
fn input_string_empty_header_prompts_nothing() {
    let mut con = console(&["x"]);
    let s = read_input_string("", &mut con).unwrap();
    assert_eq!(s, "x");
    assert!(con.written_chunks().is_empty());
}

#[test]
fn input_string_fails_on_closed_input() {
    let mut con = console(&[]);
    assert!(read_input_string("q", &mut con).is_err());
}

#[test]
fn string_or_empty_blank_is_none() {
    let mut con = console(&["   "]);
    assert_eq!(read_string_or_empty("q", &mut con).unwrap(), None);
}

#[test]
fn string_or_empty_text_is_some() {
    let mut con = console(&[" spaced  "]);
    assert_eq!(
        read_string_or_empty("q", &mut con).unwrap(),
        Some("spaced".to_string())
    );
}

#[test]
fn string_skips_blank_lines() {
    let mut con = console(&["", "  ", "hi"]);
    assert_eq!(read_string("q", &mut con).unwrap(), "hi");
    assert_eq!(con.remaining_len(), 0);
    assert_eq!(con.written_chunks().len(), 3);
}

#[test]
fn num_parses_first_valid_line() {
    let mut con = console(&["42"]);
    let v: u64 = read_num("n", &mut con).unwrap();
    assert_eq!(v, 42);
}

#[test]
fn num_rejects_invalid_until_valid() {
    let mut con = console(&["abc", "12x", "", "37"]);
    let v: u32 = read_num("n", &mut con).unwrap();
    assert_eq!(v, 37);
    assert_eq!(con.remaining_len(), 0);
}

#[test]
fn num_out_of_range_is_invalid() {
    let mut con = console(&["256", "255"]);
    let v: u8 = read_num("n", &mut con).unwrap();
    assert_eq!(v, 255);
}

#[test]
fn num_or_empty_blank_is_none_for_any_type() {
    let mut con = console(&[""]);
    let v: Option<i16> = read_num_or_empty("n", &mut con).unwrap();
    assert_eq!(v, None);
    let mut con2 = console(&[""]);
    let w: Option<FixedPoint> = read_float_or_empty("n", &mut con2).unwrap();
    assert_eq!(w, None);
}

#[test]
fn num_or_empty_skips_invalid_then_parses() {
    let mut con = console(&["abc", "-12"]);
    let v: Option<i32> = read_num_or_empty("n", &mut con).unwrap();
    assert_eq!(v, Some(-12));
}

#[test]
fn num_never_returns_without_valid_input() {
    let mut con = console(&["abc", "x", "9z"]);
    let r: Result<u64, _> = read_num("n", &mut con);
    assert!(r.is_err());
    assert_eq!(con.remaining_len(), 0);
}

#[test]
fn int_reads_unsigned() {
    let mut con = console(&["+17"]);
    let v: usize = read_int("n", &mut con).unwrap();
    assert_eq!(v, 17);
}

#[test]
fn int_or_empty_blank_is_none() {
    let mut con = console(&[""]);
    let v: Option<u16> = read_int_or_empty("n", &mut con).unwrap();
    assert_eq!(v, None);
}

#[test]
fn signed_bounds_parse_exactly() {
    let mut con = console(&["-9223372036854775808"]);
    let v: i64 = read_num("n", &mut con).unwrap();
    assert_eq!(v, i64::MIN);
    let mut con2 = console(&["-129", "-128"]);
    let w: i8 = read_num("n", &mut con2).unwrap();
    assert_eq!(w, -128);
}

#[test]
fn float_parses_fixed_point() {
    let mut con = console(&["3.25"]);
    let v: FixedPoint = read_float("n", &mut con).unwrap();
    assert_eq!(
        v,
        FixedPoint { negative: false, units: 3, frac: 25, frac_len: 2 }
    );
}

#[test]
fn float_keeps_sign_and_fraction_width() {
    let mut con = console(&["-0.050"]);
    let v: FixedPoint = read_float("n", &mut con).unwrap();
    assert_eq!(
        v,
        FixedPoint { negative: true, units: 0, frac: 50, frac_len: 3 }
    );
}

#[test]
fn float_rejects_malformed_decimals() {
    let mut con = console(&["1.2.3", "1.", ".5", "1.5"]);
    let v: FixedPoint = read_float("n", &mut con).unwrap();
    assert_eq!(
        v,
        FixedPoint { negative: false, units: 1, frac: 5, frac_len: 1 }
    );
}

#[test]
fn canonical_text_round_trips() {
    assert_eq!(u64::from_text("18446744073709551615"), Some(u64::MAX));
    assert_eq!(u64::from_text("18446744073709551616"), None);
    assert_eq!(i32::from_text("-2147483648"), Some(i32::MIN));
    assert_eq!(u8::from_text("007"), Some(7));
    assert_eq!(i64::from_text("5 "), None);
    assert_eq!(
        FixedPoint::from_text("10.07"),
        Some(FixedPoint { negative: false, units: 10, frac: 7, frac_len: 2 })
    );
}

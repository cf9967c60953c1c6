use wca_scorecards_lib::text::{
    chars_of, decimal_string, lines, parse_i8, parse_usize, split, string_of,
};

fn cs(s: &str) -> Vec<char> {
    s.chars().collect()
}

fn strs(v: Vec<Vec<char>>) -> Vec<String> {
    v.into_iter().map(|x| x.into_iter().collect()).collect()
}

#[test]
fn split_keeps_empty_pieces() {
    assert_eq!(strs(split(&cs("a,,b,"), ',')), vec!["a", "", "b", ""]);
    assert_eq!(strs(split(&cs(""), ',')), vec![""]);
    assert_eq!(strs(split(&cs("abc"), ',')), vec!["abc"]);
}

#[test]
fn lines_like_str_lines() {
    for text in ["a\nb", "a\nb\n", "a\r\nb\r\n", "", "\n", "a\n\nb", "a\r", "x\r\r\ny"] {
        let expected: Vec<String> = text.lines().map(|l| l.to_string()).collect();
        assert_eq!(strs(lines(&cs(text))), expected, "text {:?}", text);
    }
}

#[test]
fn parse_usize_like_from_str_radix() {
    for text in ["0", "42", "+7", "-7", "", "+", "12a", "007", "18446744073709551615", "18446744073709551616", " 1"] {
        let expected = usize::from_str_radix(text, 10).ok();
        assert_eq!(parse_usize(&cs(text)), expected, "text {:?}", text);
    }
}

#[test]
fn parse_i8_like_from_str_radix() {
    for text in ["0", "127", "128", "-128", "-129", "+5", "-", "", "1;2", "-0"] {
        let expected = i8::from_str_radix(text, 10).ok();
        assert_eq!(parse_i8(&cs(text)), expected, "text {:?}", text);
    }
}

#[test]
fn decimal_strings() {
    assert_eq!(decimal_string(0), "0");
    assert_eq!(decimal_string(7), "7");
    assert_eq!(decimal_string(1234567890), "1234567890");
    assert_eq!(decimal_string(usize::MAX), usize::MAX.to_string());
}

#[test]
fn chars_round_trip() {
    let v = chars_of("Zoë ✓");
    assert_eq!(v, vec!['Z', 'o', 'ë', ' ', '✓']);
    assert_eq!(string_of(&v), "Zoë ✓");
}

#[test]
fn decimal_parses_back() {
    for n in [0usize, 9, 10, 99, 100, 65535, usize::MAX] {
        assert_eq!(parse_usize(&chars_of(&decimal_string(n))), Some(n));
    }
}

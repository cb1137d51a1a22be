use timetracker::text::{chars_of, decimal_string, parse_number, split_lines, string_of};

#[test]
fn parse_number_reads_ascii_digits() {
    assert_eq!(Some(0), parse_number("0"));
    assert_eq!(Some(7), parse_number("007"));
    assert_eq!(Some(4294967294), parse_number("4294967294"));
    assert_eq!(Some(u32::MAX), parse_number("4294967295"));
    assert_eq!(Some(u32::MAX), parse_number("4294967296"));
    assert_eq!(Some(u32::MAX), parse_number("123456789012345678901234567890"));
    assert_eq!(None, parse_number(""));
    assert_eq!(None, parse_number("12a"));
    assert_eq!(None, parse_number("+1"));
    assert_eq!(None, parse_number("\u{0661}"));
}

#[test]
fn decimal_string_writes_numbers() {
    assert_eq!("0", decimal_string(0));
    assert_eq!("9", decimal_string(9));
    assert_eq!("10", decimal_string(10));
    assert_eq!("1002003", decimal_string(1002003));
    assert_eq!("4294967295", decimal_string(u32::MAX));
    assert_eq!(Some(86400), parse_number(&decimal_string(86400)));
}

#[test]
fn split_lines_splits_as_lines_does() {
    let samples = [
        "", "a", "a\n", "a\nb", "a\n\nb\n", "\n", "\n\n", "a\r\nb\r", "a\r\n", "\r\n", "\r",
        "a\rb\n", "\r\r\n", "x\u{e9}y\n\u{4e16}\r\nz",
    ];
    for s in samples.iter() {
        let expected: Vec<String> = s.lines().map(|l| l.to_string()).collect();
        assert_eq!(expected, split_lines(s));
    }
    assert_eq!(vec!["a".to_string(), "".to_string(), "b".to_string()], split_lines("a\r\n\nb\n"));
}

#[test]
fn chars_of_and_string_of_agree() {
    let chars = chars_of("a\u{e9}\u{4e16}z");
    assert_eq!(vec!['a', '\u{e9}', '\u{4e16}', 'z'], chars);
    assert_eq!("\u{e9}\u{4e16}", string_of(&chars, 1, 3));
    assert_eq!("", string_of(&chars, 2, 2));
    assert_eq!(Vec::<char>::new(), chars_of(""));
}

use brainrotlang::text::parse_line;

#[test]
fn a_line_with_an_integer_is_read() {
    assert_eq!(parse_line("5"), Some(5));
    assert_eq!(parse_line("42\n"), Some(42));
    assert_eq!(parse_line("42\r\n"), Some(42));
    assert_eq!(parse_line("  -7\t"), Some(-7));
    assert_eq!(parse_line("+9"), Some(9));
    assert_eq!(parse_line("0012"), Some(12));
    assert_eq!(parse_line("\u{00A0}3\u{2003}"), Some(3));
}

#[test]
fn the_limits_of_32_bits_are_read() {
    assert_eq!(parse_line("2147483647"), Some(i32::MAX));
    assert_eq!(parse_line("-2147483648"), Some(i32::MIN));
    assert_eq!(parse_line("2147483648"), None);
    assert_eq!(parse_line("-2147483649"), None);
    assert_eq!(parse_line("123456789012345678901234567890"), None);
}

#[test]
fn a_line_without_an_integer_is_refused() {
    assert_eq!(parse_line(""), None);
    assert_eq!(parse_line("\n"), None);
    assert_eq!(parse_line("   "), None);
    assert_eq!(parse_line("+"), None);
    assert_eq!(parse_line("-"), None);
    assert_eq!(parse_line("abc"), None);
    assert_eq!(parse_line("12a"), None);
    assert_eq!(parse_line("1 2"), None);
    assert_eq!(parse_line("- 1"), None);
    assert_eq!(parse_line("--1"), None);
    assert_eq!(parse_line("1.5"), None);
    assert_eq!(parse_line("0x10"), None);
}

#[test]
fn reading_a_line_agrees_with_the_standard_library() {
    let lines = [
        "0", "-0", "+0", "  17 ", "-17\n", "+17", "2147483647", "2147483648", "-2147483648",
        "-2147483649", "", " ", "x", "1x", "+-1", "١٢", "1_000", "\t99\u{3000}",
    ];
    for line in lines {
        assert_eq!(parse_line(line), line.trim().parse::<i32>().ok(), "line {:?}", line);
    }
}

use dungeon_note::number::{push_digits, push_integer, push_tenths, read_integer, read_tenths};
use dungeon_note::{trim, trim_end, trim_start};

#[test]
fn coordinates_are_read_in_tenths() {
    assert_eq!(read_tenths("370"), Some(3700));
    assert_eq!(read_tenths("370.0"), Some(3700));
    assert_eq!(read_tenths("-55.0"), Some(-550));
    assert_eq!(read_tenths("+1.5"), Some(15));
    assert_eq!(read_tenths(".5"), Some(5));
    assert_eq!(read_tenths("5."), Some(50));
    assert_eq!(read_tenths("0.04"), Some(0));
    assert_eq!(read_tenths("0.05"), Some(1));
    assert_eq!(read_tenths("-0.05"), Some(-1));
    assert_eq!(read_tenths("1.96"), Some(20));
    assert_eq!(read_tenths("1.949"), Some(19));
    assert_eq!(read_tenths("007"), Some(70));
}

#[test]
fn what_is_no_decimal_number_is_not_read() {
    for text in ["", "-", "+", ".", "-.", "1e3", "inf", "NaN", " 1", "1 ", "1.2.3", "1,5", "--1", "0x10", "\u{664}"] {
        assert_eq!(read_tenths(text), None, "{:?}", text);
    }
}

#[test]
fn coordinates_out_of_range_are_not_read() {
    assert_eq!(read_tenths("922337203685477580.7"), Some(i64::MAX));
    assert_eq!(read_tenths("922337203685477580.8"), None);
    assert_eq!(read_tenths("-922337203685477580.8"), Some(i64::MIN));
    assert_eq!(read_tenths("-922337203685477580.9"), None);
    assert_eq!(read_tenths("99999999999999999999999999"), None);
}

#[test]
fn whole_numbers_are_read() {
    assert_eq!(read_integer("0"), Some(0));
    assert_eq!(read_integer("-1"), Some(-1));
    assert_eq!(read_integer("+12"), Some(12));
    assert_eq!(read_integer("2147483647"), Some(i32::MAX));
    assert_eq!(read_integer("2147483648"), None);
    assert_eq!(read_integer("-2147483648"), Some(i32::MIN));
    assert_eq!(read_integer("-2147483649"), None);
    for text in ["", "-", "1.0", "1 ", "a", "99999999999999999999"] {
        assert_eq!(read_integer(text), None, "{:?}", text);
    }
}

#[test]
fn numbers_are_written() {
    let mut out = String::from("x:");
    push_tenths(&mut out, -550);
    out.push(' ');
    push_tenths(&mut out, 5);
    out.push(' ');
    push_tenths(&mut out, -3);
    out.push(' ');
    push_tenths(&mut out, i64::MIN);
    out.push(' ');
    push_integer(&mut out, -12);
    out.push(' ');
    push_integer(&mut out, i32::MIN);
    out.push(' ');
    push_digits(&mut out, 0, 10);
    out.push(' ');
    push_digits(&mut out, 0xdead_beef, 16);
    out.push(' ');
    push_digits(&mut out, u64::MAX, 10);
    assert_eq!(
        out,
        "x:-55.0 0.5 -0.3 -922337203685477580.8 -12 -2147483648 0 deadbeef 18446744073709551615"
    );
}

#[test]
fn what_is_written_reads_back() {
    for tenths in [0, 1, -1, 9, 10, -10, 3700, -550, i64::MAX, i64::MIN] {
        let mut out = String::new();
        push_tenths(&mut out, tenths);
        assert_eq!(read_tenths(&out), Some(tenths));
    }
}

#[test]
fn trimming_takes_the_white_space_of_unicode() {
    let all = "\t\n\u{b}\u{c}\r \u{85}\u{a0}\u{1680}\u{2000}\u{2001}\u{2002}\u{2003}\u{2004}\u{2005}\u{2006}\u{2007}\u{2008}\u{2009}\u{200a}\u{2028}\u{2029}\u{202f}\u{205f}\u{3000}";
    let text = format!("{}a b{}", all, all);
    assert_eq!(trim(&text), "a b");
    assert_eq!(trim_start(&text), format!("a b{}", all));
    assert_eq!(trim_end(&text), format!("{}a b", all));
    assert_eq!(trim(all), "");
    assert_eq!(trim(""), "");
}

#[test]
fn trimming_agrees_with_the_standard_library() {
    for code in 0..0x3100u32 {
        if let Some(c) = char::from_u32(code) {
            let text = format!("{}x{}", c, c);
            assert_eq!(trim(&text), text.trim(), "{:x}", code);
            assert_eq!(trim_start(&text), text.trim_start(), "{:x}", code);
            assert_eq!(trim_end(&text), text.trim_end(), "{:x}", code);
        }
    }
    for code in [0x180eu32, 0x200b, 0x200c, 0x2060, 0xfeff, 0x1d7ce, 0x10ffff] {
        let c = char::from_u32(code).unwrap();
        let text = format!("{}x{}", c, c);
        assert_eq!(trim(&text), text.trim(), "{:x}", code);
    }
}

#[test]
fn whole_numbers_are_read_as_the_standard_library_reads_them() {
    let texts = [
        "", "0", "-0", "+0", "00012", "-", "+", "+-1", "1+", "12a", "a12", " 12", "12 ", "1_000",
        "2147483647", "2147483648", "-2147483648", "-2147483649", "4294967296", "0x1f", "1.0", "١٢",
        "99999999999999999999999999999", "-99999999999999999999999999999",
    ];
    for text in texts {
        assert_eq!(read_integer(text), text.parse::<i32>().ok(), "{:?}", text);
    }
    for value in [i32::MIN, -1000, -1, 0, 1, 7, 10, 99, 12345, i32::MAX] {
        assert_eq!(read_integer(&value.to_string()), Some(value));
        let mut written = String::new();
        push_integer(&mut written, value);
        assert_eq!(written, value.to_string());
    }
}

#[test]
fn digits_are_written_as_the_standard_library_writes_them() {
    for value in [0u64, 1, 9, 10, 15, 16, 255, 256, 4095, 65536, 1 << 40, u64::MAX - 1, u64::MAX] {
        let mut decimal = String::new();
        push_digits(&mut decimal, value, 10);
        assert_eq!(decimal, format!("{}", value));
        let mut hexadecimal = String::new();
        push_digits(&mut hexadecimal, value, 16);
        assert_eq!(hexadecimal, format!("{:x}", value));
    }
}

#[test]
fn lines_are_cut_as_the_standard_library_cuts_them() {
    let texts = [
        "", "a", "a\n", "a\nb", "a\n\nb\n", "\n", "\n\n", "a\r\nb", "a\r\n", "a\r", "\r\n", "\r",
        "a\rb\n", "a\n\rb", "\u{e9}\r\n\u{e9}", "a\r\r\nb", "\n\r\n\r",
    ];
    for text in texts {
        let expected: Vec<&str> = text.lines().collect();
        assert_eq!(dungeon_note::segment::lines(text), expected, "{:?}", text);
    }
}

#[test]
fn capitals_are_lowered_as_the_standard_library_lowers_them() {
    for text in ["", "Text", "RECTANGLE", "x1", "ÄÖü Straße", "A\u{e9}Z[@`{", "mixed CASE 123"] {
        assert_eq!(dungeon_note::segment::lowercase(text), text.to_ascii_lowercase());
    }
}

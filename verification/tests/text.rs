use human_management::hr_app::text::decimal::{parse_u64, render_decimal};
use human_management::hr_app::text::words::{is_whitespace, split_lines, split_words};

fn strings(items: &[&str]) -> Vec<String> {
    items.iter().map(|s| s.to_string()).collect()
}

#[test]
fn words_are_the_runs_between_separators() {
    assert_eq!(split_words("create_person Doe Jane"), strings(&["create_person", "Doe", "Jane"]));
    assert_eq!(split_words("  a \t b\r\n"), strings(&["a", "b"]));
    assert_eq!(split_words("one"), strings(&["one"]));
    assert_eq!(split_words(""), strings(&[]));
    assert_eq!(split_words(" \t\n "), strings(&[]));
}

#[test]
fn words_agree_with_split_whitespace() {
    let samples = [
        "1 Sales",
        " 12\u{3000}\u{4e0b}\u{9053} \u{a0}x",
        "a\u{2003}b\u{2028}c\u{85}d\u{1680}e\u{202f}f\u{205f}g\u{2029}h",
        "\u{b}\u{c}tabs\u{9}and\u{d}more",
        "no-break\u{200b}zero-width stays",
        "x\u{180e}y \u{feff}z",
    ];
    for sample in samples {
        let expected: Vec<String> = sample.split_whitespace().map(|s| s.to_string()).collect();
        assert_eq!(split_words(sample), expected);
    }
}

#[test]
fn separators_are_the_unicode_white_space() {
    for code in 0..=0x11_0000u32 {
        if let Some(c) = char::from_u32(code) {
            assert_eq!(is_whitespace(c), c.is_whitespace());
        }
    }
}

#[test]
fn lines_end_at_line_feeds() {
    assert_eq!(split_lines("a\nb\n"), strings(&["a", "b"]));
    assert_eq!(split_lines("a\nb"), strings(&["a", "b"]));
    assert_eq!(split_lines("a\n\nb"), strings(&["a", "", "b"]));
    assert_eq!(split_lines("\n"), strings(&[""]));
    assert_eq!(split_lines(""), strings(&[]));
    assert_eq!(split_lines("a\r\n"), strings(&["a\r"]));
}

#[test]
fn lines_agree_with_split_terminator() {
    let samples = ["", "\n", "\n\n", "1 a\n2 b\n", "1 a\n2 b", "x\n\n\ny\n", " \n \n"];
    for sample in samples {
        let expected: Vec<String> = sample.split_terminator('\n').map(|s| s.to_string()).collect();
        assert_eq!(split_lines(sample), expected);
    }
}

#[test]
fn decimal_is_read() {
    assert_eq!(parse_u64("0"), Some(0));
    assert_eq!(parse_u64("42"), Some(42));
    assert_eq!(parse_u64("+42"), Some(42));
    assert_eq!(parse_u64("007"), Some(7));
    assert_eq!(parse_u64("18446744073709551615"), Some(u64::MAX));
}

#[test]
fn what_is_no_decimal_is_refused() {
    assert_eq!(parse_u64(""), None);
    assert_eq!(parse_u64("+"), None);
    assert_eq!(parse_u64("-1"), None);
    assert_eq!(parse_u64("++1"), None);
    assert_eq!(parse_u64("1+"), None);
    assert_eq!(parse_u64("12a"), None);
    assert_eq!(parse_u64("a12"), None);
    assert_eq!(parse_u64("1 2"), None);
    assert_eq!(parse_u64("\u{ff11}"), None);
    assert_eq!(parse_u64("18446744073709551616"), None);
    assert_eq!(parse_u64("18446744073709551620"), None);
    assert_eq!(parse_u64("99999999999999999999999999"), None);
    assert_eq!(parse_u64("184467440737095516150"), None);
    assert_eq!(parse_u64("18446744073709551616x"), None);
}

#[test]
fn reading_agrees_with_the_standard_parser() {
    let samples = [
        "0", "1", "+0", "-0", "+", "", "00", "123456789", "18446744073709551615",
        "18446744073709551616", "28446744073709551615", "1e3", "0x10", " 1", "1 ", "٣",
    ];
    for sample in samples {
        assert_eq!(parse_u64(sample), sample.parse::<u64>().ok());
    }
}

#[test]
fn what_is_written_is_read_back() {
    for number in [0u64, 1, 9, 10, 11, 99, 100, 12345, u64::MAX - 1, u64::MAX] {
        let text = render_decimal(number);
        assert_eq!(text, number.to_string());
        assert_eq!(parse_u64(&text), Some(number));
    }
}

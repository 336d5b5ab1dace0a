use l3ms::cmd_block::{strip_quotes, tokenize_line};
use l3ms::number::{read_signed, read_unsigned, write_padded, write_signed, write_unsigned};
use l3ms::text::{
    chars_of, count_bytes, is_whitespace, split_lines, split_on, split_words, string_of, trimmed,
};

fn texts(parts: Vec<Vec<char>>) -> Vec<String> {
    parts.iter().map(|part| part.iter().collect()).collect()
}

#[test]
fn white_space_is_that_of_the_standard_library() {
    for code in 0..=0x10FFFF {
        if let Some(c) = char::from_u32(code) {
            assert_eq!(is_whitespace(c), c.is_whitespace(), "{code:x}");
        }
    }
}

#[test]
fn lines_and_words_are_those_of_the_standard_library() {
    let samples = [
        "", "\n", "a", "a\n", "a\n\nb", "a\r\nb\r", "a\r\r\n", " a  b\u{a0}c\t", "\r\n\n", "é\u{3000}ß x",
    ];
    for sample in samples {
        let chars = chars_of(sample);
        let lines: Vec<&str> = sample.lines().collect();
        assert_eq!(texts(split_lines(&chars)), lines, "{sample:?}");
        let words: Vec<&str> = sample.split_whitespace().collect();
        assert_eq!(texts(split_words(&chars)), words, "{sample:?}");
        let parts: Vec<&str> = sample.split('a').collect();
        assert_eq!(texts(split_on(&chars, 'a')), parts, "{sample:?}");
        assert_eq!(string_of(trimmed(&chars)), sample.trim());
        assert_eq!(count_bytes(&chars), sample.len() as u128);
        assert_eq!(string_of(&chars), sample);
    }
}

#[test]
fn numbers_are_read_as_the_standard_library_does() {
    let samples = [
        "", "+", "-", "0", "+7", "-7", "007", "9223372036854775807", "9223372036854775808",
        "-9223372036854775808", "-9223372036854775809", "18446744073709551615",
        "18446744073709551616", "1 ", "1a", "--1", "+-1", "４", "99999999999999999999999",
    ];
    for sample in samples {
        let chars = chars_of(sample);
        assert_eq!(read_signed(&chars), sample.parse::<i64>().ok(), "{sample}");
        assert_eq!(
            read_unsigned(&chars, u64::MAX),
            sample.parse::<u64>().ok(),
            "{sample}"
        );
        assert_eq!(
            read_unsigned(&chars, u64::from(u8::MAX)),
            sample.parse::<u8>().ok().map(u64::from),
            "{sample}"
        );
    }
}

#[test]
fn numbers_are_written_as_the_standard_library_does() {
    for value in [0, 1, 9, 10, 12_345, i64::MAX, i64::MIN, -1, -90] {
        assert_eq!(string_of(&write_signed(value)), format!("{value}"));
        assert_eq!(read_signed(&write_signed(value)), Some(value));
    }
    for value in [0, 7, 10, 99, 100, u128::MAX] {
        assert_eq!(string_of(&write_unsigned(value)), format!("{value}"));
        assert_eq!(string_of(&write_padded(value, 3)), format!("{value:03}"));
    }
}

#[test]
fn tokens_keep_quoted_spans_together() {
    let tokens = |line: &str| texts(tokenize_line(&chars_of(line)));
    assert_eq!(
        tokens("  a \"b c\" 'd \" e'f  g\t"),
        vec!["a", "\"b c\"", "'d \" e'f", "g"]
    );
    assert_eq!(tokens("x \"open end"), vec!["x", "\"open end"]);
    assert_eq!(tokens("a\"b c\"d"), vec!["a\"b c\"d"]);
    assert!(tokens("   ").is_empty());
    assert_eq!(tokens("\"\""), vec!["\"\""]);
}

#[test]
fn one_layer_of_quotes_is_stripped() {
    let strip = |token: &str| string_of(strip_quotes(&chars_of(token)));
    assert_eq!(strip("\"a b\""), "a b");
    assert_eq!(strip("'a'"), "a");
    assert_eq!(strip("\"'a'\""), "'a'");
    assert_eq!(strip("\"a'"), "\"a'");
    assert_eq!(strip("\""), "\"");
    assert_eq!(strip("\"\""), "");
    assert_eq!(strip("aa"), "aa");
    assert_eq!(strip(""), "");
}

#[test]
fn joined_tokens_are_read_back() {
    for line in ["a  \"b c\"   'd'", "x 'open", "--a=\"b c\" d"] {
        let tokens = texts(tokenize_line(&chars_of(line)));
        assert_eq!(texts(tokenize_line(&chars_of(&tokens.join(" ")))), tokens);
    }
}

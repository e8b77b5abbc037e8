use blob_wrangler::number::{parse_unsigned, to_decimal, to_two_digits};
use blob_wrangler::text::{
    chars_of, has_prefix, has_suffix, is_space, position_of, replace_all, same_text, split_chars,
    split_lines, split_pair, split_words, text_of, trim, trim_end, trim_matches,
};

fn samples() -> Vec<&'static str> {
    vec![
        "", " ", "a", "  a b\t c \n", "\u{a0}x\u{3000}", "a\r\nb\rc\n\nd\r", "\n", "\r\n", "x=y=z",
        "=", "\"\"q\"\"", "%k%%kk", "日本 語", "a//b/./c", "\u{85}\u{1680}w\u{2028}",
    ]
}

fn strings(pieces: Vec<Vec<char>>) -> Vec<String> {
    pieces.iter().map(|piece| text_of(piece)).collect()
}

#[test]
fn white_space_is_that_of_char() {
    for code in 0..=0x10ffffu32 {
        if let Some(c) = char::from_u32(code) {
            assert_eq!(is_space(c), c.is_whitespace(), "{code:x}");
        }
    }
}

#[test]
fn trimming_agrees_with_str() {
    for s in samples() {
        let chars = chars_of(s);
        assert_eq!(text_of(trim(&chars)), s.trim());
        assert_eq!(text_of(trim_end(&chars)), s.trim_end());
        assert_eq!(text_of(trim_matches(&chars, '"')), s.trim_matches('"'));
    }
}

#[test]
fn splitting_agrees_with_str() {
    for s in samples() {
        let chars = chars_of(s);
        assert_eq!(strings(split_words(&chars)), s.split_whitespace().collect::<Vec<_>>());
        assert_eq!(strings(split_lines(&chars)), s.lines().collect::<Vec<_>>());
        for sep in [' ', '/', '=', '.'] {
            assert_eq!(strings(split_chars(&chars, sep)), s.split(sep).collect::<Vec<_>>());
            let pair = split_pair(&chars, sep).map(|(a, b)| (text_of(&a), text_of(&b)));
            let expected = s.split_once(sep).map(|(a, b)| (a.to_string(), b.to_string()));
            assert_eq!(pair, expected);
        }
    }
}

#[test]
fn searching_agrees_with_str() {
    for s in samples() {
        let chars = chars_of(s);
        for part in samples() {
            let pattern = chars_of(part);
            assert_eq!(has_prefix(&chars, &pattern), s.starts_with(part));
            assert_eq!(has_suffix(&chars, &pattern), s.ends_with(part));
            assert_eq!(same_text(s, part), s == part);
            if !pattern.is_empty() {
                let replaced = replace_all(&chars, &pattern, &chars_of("<>"));
                assert_eq!(text_of(&replaced), s.replace(part, "<>"));
            }
        }
    }
    assert_eq!(position_of(&chars_of("abc"), 'c'), 2);
    assert_eq!(position_of(&chars_of("abc"), 'x'), 3);
}

#[test]
fn numbers_agree_with_str() {
    for s in ["", "+", "-", "0", "00", "+7", "-7", "42", "4294967295", "4294967296", "1a", " 1",
        "18446744073709551615", "18446744073709551616", "99999999999999999999999", "٣", "++1"]
    {
        let chars = chars_of(s);
        assert_eq!(parse_unsigned(&chars, u64::MAX), s.parse::<u64>().ok(), "{s}");
        assert_eq!(
            parse_unsigned(&chars, u32::MAX as u64),
            s.parse::<u32>().ok().map(|n| n as u64),
            "{s}"
        );
    }
    for n in [0u64, 7, 9, 10, 42, 99, 100, 12345, u64::MAX] {
        assert_eq!(to_decimal(n), n.to_string());
        assert_eq!(to_two_digits(n), format!("{n:#02}"));
        assert_eq!(parse_unsigned(&chars_of(&to_decimal(n)), u64::MAX), Some(n));
    }
}

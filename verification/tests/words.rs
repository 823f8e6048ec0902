use lab3::text::{
    blank, chars_of, code_point, decimal_string, is_whitespace, join_from, parse_number, same_text,
    split_whitespace, text_no_later, trim,
};

const SAMPLES: [&str; 16] = [
    "",
    " ",
    "hello",
    "  hello world \t\n",
    "\thello\u{a0}world\r\n",
    "\u{3000}wide\u{2003}space\u{2028}",
    "\u{85}next line\u{1680}",
    "zero\u{200b}width",
    "\u{200b} kept \u{200b}",
    "\u{180e}mongolian\u{180e}",
    "\u{1f}unit separator\u{1f}",
    "a  b   c",
    "  [scene]   A   Title  ",
    "12 To be, or not to be",
    "\u{feff}bom",
    "tr\u{e9}s bien \u{202f}",
];

#[test]
fn whitespace_is_the_unicode_property() {
    let mut c = 0u32;
    while c <= 0x10FFFF {
        if let Some(ch) = char::from_u32(c) {
            assert_eq!(is_whitespace(ch), ch.is_whitespace(), "code point {:x}", c);
        }
        c += 1;
    }
}

#[test]
fn code_point_is_the_scalar_value() {
    assert_eq!(code_point('A'), 65);
    assert_eq!(code_point('\u{10FFFF}'), 0x10FFFF);
    assert_eq!(code_point('\0'), 0);
}

#[test]
fn chars_of_keeps_every_character_in_order() {
    assert_eq!(chars_of("a\u{e9}z"), vec!['a', '\u{e9}', 'z']);
    assert_eq!(chars_of(""), Vec::<char>::new());
}

#[test]
fn trim_removes_whitespace_at_both_ends_only() {
    assert_eq!(trim("  hello world \t\n"), "hello world");
    assert_eq!(trim(""), "");
    assert_eq!(trim(" \t \n"), "");
    assert_eq!(trim("x"), "x");
    assert_eq!(trim("a  b"), "a  b");
    for s in SAMPLES {
        assert_eq!(trim(s), s.trim(), "on {:?}", s);
    }
}

#[test]
fn blank_lines_hold_only_whitespace() {
    assert!(blank(""));
    assert!(blank(" \t\u{3000}\n"));
    assert!(!blank("  .  "));
    assert!(!blank("\u{200b}"));
    for s in SAMPLES {
        assert_eq!(blank(s), s.trim().is_empty(), "on {:?}", s);
    }
}

#[test]
fn split_whitespace_gives_the_words_in_order() {
    assert_eq!(split_whitespace("  a  bc\td \n"), vec!["a", "bc", "d"]);
    assert_eq!(split_whitespace(""), Vec::<String>::new());
    assert_eq!(split_whitespace("   "), Vec::<String>::new());
    assert_eq!(split_whitespace("one"), vec!["one"]);
    for s in SAMPLES {
        let expected: Vec<String> = s.split_whitespace().map(String::from).collect();
        assert_eq!(split_whitespace(s), expected, "on {:?}", s);
    }
}

#[test]
fn parse_number_reads_digits_with_an_optional_plus() {
    assert_eq!(parse_number("0"), Some(0));
    assert_eq!(parse_number("12"), Some(12));
    assert_eq!(parse_number("+7"), Some(7));
    assert_eq!(parse_number("0007"), Some(7));
    assert_eq!(parse_number(""), None);
    assert_eq!(parse_number("+"), None);
    assert_eq!(parse_number("++1"), None);
    assert_eq!(parse_number("-3"), None);
    assert_eq!(parse_number("1_000"), None);
    assert_eq!(parse_number("12a"), None);
    assert_eq!(parse_number("a12"), None);
    assert_eq!(parse_number("1 2"), None);
    assert_eq!(parse_number(" 12"), None);
    assert_eq!(parse_number("\u{661}\u{662}"), None);
    assert_eq!(parse_number("1.5"), None);
}

#[test]
fn parse_number_refuses_what_does_not_fit() {
    let max = usize::MAX.to_string();
    assert_eq!(parse_number(&max), Some(usize::MAX));
    let mut over = max.clone();
    over.push('0');
    assert_eq!(parse_number(&over), None);
    let plus_one = (usize::MAX as u128 + 1).to_string();
    assert_eq!(parse_number(&plus_one), None);
    let mut padded = "0".repeat(64);
    padded.push_str(&max);
    assert_eq!(parse_number(&padded), Some(usize::MAX));
    let mut junk = over.clone();
    junk.push('x');
    assert_eq!(parse_number(&junk), None);
}

#[test]
fn parse_number_agrees_with_the_standard_parser() {
    let inputs = [
        "", "+", "-", "0", "+0", "-0", "00", "9", "10", "+10", "4294967295", "4294967296",
        "18446744073709551615", "18446744073709551616", "99999999999999999999999", "1e3", "0x10",
        " 1", "1 ", "٣", "1\u{660}",
    ];
    for s in inputs {
        assert_eq!(parse_number(s), s.parse::<usize>().ok(), "on {:?}", s);
    }
}

#[test]
fn decimal_string_writes_numbers_without_padding() {
    assert_eq!(decimal_string(0), "0");
    assert_eq!(decimal_string(7), "7");
    assert_eq!(decimal_string(10), "10");
    assert_eq!(decimal_string(1905), "1905");
    assert_eq!(decimal_string(usize::MAX), usize::MAX.to_string());
    let mut n: usize = 1;
    while n < usize::MAX / 7 {
        assert_eq!(decimal_string(n), n.to_string());
        assert_eq!(parse_number(&decimal_string(n)), Some(n));
        n = n * 7 + 3;
    }
}

#[test]
fn text_no_later_is_the_order_of_strings() {
    assert!(text_no_later("", ""));
    assert!(text_no_later("", "a"));
    assert!(!text_no_later("a", ""));
    assert!(text_no_later("abc", "abd"));
    assert!(!text_no_later("abd", "abc"));
    assert!(text_no_later("ab", "abc"));
    assert!(!text_no_later("abc", "ab"));
    assert!(text_no_later("Z", "a"));
    for a in SAMPLES {
        for b in SAMPLES {
            assert_eq!(text_no_later(a, b), a <= b, "on {:?} and {:?}", a, b);
        }
    }
}

#[test]
fn same_text_compares_character_by_character() {
    assert!(same_text("", ""));
    assert!(same_text("[scene]", "[scene]"));
    assert!(!same_text("[scene]", "[Scene]"));
    assert!(!same_text("quit", "quit "));
    assert!(!same_text("abc", "abd"));
    for a in SAMPLES {
        for b in SAMPLES {
            assert_eq!(same_text(a, b), a == b);
        }
    }
}

#[test]
fn join_from_puts_single_spaces_between_words() {
    let words: Vec<String> = vec!["[scene]", "The", "Castle", "Gate"].into_iter().map(String::from).collect();
    assert_eq!(join_from(&words, 0), "[scene] The Castle Gate");
    assert_eq!(join_from(&words, 1), "The Castle Gate");
    assert_eq!(join_from(&words, 3), "Gate");
    assert_eq!(join_from(&words, 4), "");
    assert_eq!(join_from(&Vec::new(), 0), "");
}

#[test]
fn join_from_beyond_the_last_word_gives_nothing() {
    let words: Vec<String> = vec![String::from("a")];
    assert_eq!(join_from(&words, 2), "");
    assert_eq!(join_from(&words, usize::MAX), "");
}

use advent::text::{
    chars_of, is_space, lines, occurs, parse_numbers, parse_usize, split, split_once,
    split_whitespace, text_eq, to_decimal, to_digit, trim,
};

const SAMPLES: [&str; 24] = [
    "",
    "\n",
    "\r\n",
    "\r",
    "a",
    "a\n",
    "a\r\n",
    "a\r",
    "a\nb",
    "a\n\nb",
    "a\n\n\nb\n\n",
    "one\r\ntwo\rthree\r\r\nfour\n\r",
    " 41 48  83\t86 | 17 ",
    "\u{a0}x\u{2003}y\u{3000}",
    "Game 1: 3 blue, 4 red; 1 red, 2 green, 6 blue; 2 green",
    "seeds: 79 14 55 13\n\nseed-to-soil map:\n50 98 2\n52 50 48\n",
    "::",
    "a:b:c",
    ":",
    "é:ü\nß",
    "   ",
    "\n\n",
    "\n\n\n\n",
    "x\n\ny\n\n",
];

#[test]
fn chars_of_gives_the_characters() {
    for s in SAMPLES {
        assert_eq!(chars_of(s), s.chars().collect::<Vec<char>>());
    }
}

#[test]
fn to_digit_agrees_with_std_on_every_char() {
    for n in 0..=0x10FFFFu32 {
        if let Some(c) = char::from_u32(n) {
            assert_eq!(to_digit(c), c.to_digit(10));
        }
    }
}

#[test]
fn is_space_agrees_with_std_on_every_char() {
    for n in 0..=0x10FFFFu32 {
        if let Some(c) = char::from_u32(n) {
            assert_eq!(is_space(c), c.is_whitespace(), "{:x}", n);
        }
    }
}

#[test]
fn lines_agrees_with_std() {
    for s in SAMPLES {
        assert_eq!(lines(s), s.lines().collect::<Vec<&str>>(), "{:?}", s);
    }
}

#[test]
fn lines_keeps_a_lone_carriage_return() {
    assert_eq!(lines("a\rb\r\nc\r"), vec!["a\rb", "c\r"]);
}

#[test]
fn lines_drops_only_an_empty_last_piece() {
    assert_eq!(lines("a\n\n"), vec!["a", ""]);
    assert_eq!(lines(""), Vec::<&str>::new());
    assert_eq!(lines("\n"), vec![""]);
}

#[test]
fn split_agrees_with_std() {
    for s in SAMPLES {
        for pat in ["\n\n", "\n", ":", ";", ",", " ", "ab", "::"] {
            assert_eq!(split(s, pat), s.split(pat).collect::<Vec<&str>>(), "{:?} {:?}", s, pat);
        }
    }
}

#[test]
fn split_takes_matches_from_the_left_without_overlap() {
    assert_eq!(split("a\n\n\nb", "\n\n"), vec!["a", "\nb"]);
    assert_eq!(split("aaa", "aa"), vec!["", "a"]);
}

#[test]
fn split_by_nothing_splits_nothing() {
    assert_eq!(split("abc", ""), vec!["abc"]);
    assert_eq!(split_once("abc", ""), None);
}

#[test]
fn split_once_agrees_with_std() {
    for s in SAMPLES {
        for pat in ["\n\n", "\n", ":", "|", " ", "::"] {
            assert_eq!(split_once(s, pat), s.split_once(pat), "{:?} {:?}", s, pat);
        }
    }
}

#[test]
fn split_whitespace_agrees_with_std() {
    for s in SAMPLES {
        assert_eq!(split_whitespace(s), s.split_whitespace().collect::<Vec<&str>>(), "{:?}", s);
    }
}

#[test]
fn trim_agrees_with_std() {
    for s in SAMPLES {
        assert_eq!(trim(s), s.trim(), "{:?}", s);
    }
    assert_eq!(trim("  3 blue \t"), "3 blue");
    assert_eq!(trim(" \n "), "");
}

#[test]
fn parse_usize_agrees_with_std() {
    let max = usize::MAX.to_string();
    let over = format!("{}0", max);
    let next = (usize::MAX as u128 + 1).to_string();
    let cases = [
        "", "+", "-", "0", "7", "+7", "-7", "++7", "007", "12a", "a12", " 12", "12 ", "1_000",
        "18446744073709551615", "18446744073709551616", "4294967295", "4294967296", "٣", "１",
        max.as_str(), over.as_str(), next.as_str(),
        "000000000000000000000000000000000000000000012",
    ];
    for s in cases {
        assert_eq!(parse_usize(s), s.parse::<usize>().ok(), "{:?}", s);
    }
}

#[test]
fn parse_usize_reads_exact_values() {
    assert_eq!(parse_usize("2003"), Some(2003));
    assert_eq!(parse_usize("+15"), Some(15));
    assert_eq!(parse_usize("0"), Some(0));
    assert_eq!(parse_usize("x"), None);
}

#[test]
fn to_decimal_agrees_with_std() {
    for n in [0usize, 1, 9, 10, 11, 99, 100, 101, 4361, 467835, 1_000_000, usize::MAX - 1, usize::MAX]
    {
        assert_eq!(to_decimal(n), n.to_string());
    }
    for n in 0..2000usize {
        assert_eq!(to_decimal(n), n.to_string());
    }
}

#[test]
fn to_decimal_then_parse_usize_gives_the_number_back() {
    for n in [0usize, 5, 10, 35, 46, 12345, usize::MAX] {
        assert_eq!(parse_usize(&to_decimal(n)), Some(n));
    }
}

#[test]
fn parse_numbers_reads_every_word() {
    assert_eq!(parse_numbers(" 41 48  83\t86 "), Some(vec![41, 48, 83, 86]));
    assert_eq!(parse_numbers(""), Some(vec![]));
    assert_eq!(parse_numbers("   "), Some(vec![]));
    assert_eq!(parse_numbers("1 two 3"), None);
    assert_eq!(parse_numbers("1 -2"), None);
    assert_eq!(parse_numbers("99999999999999999999999"), None);
}

#[test]
fn text_eq_compares_texts() {
    assert!(text_eq("red", "red"));
    assert!(!text_eq("red", "reds"));
    assert!(!text_eq("red", "rod"));
    assert!(text_eq("", ""));
    assert!(!text_eq("", "a"));
}

#[test]
fn occurs_tests_one_position() {
    let s: Vec<char> = "xtwone3four".chars().collect();
    let two: Vec<char> = "two".chars().collect();
    let one: Vec<char> = "one".chars().collect();
    assert!(occurs(&s, &two, 1));
    assert!(occurs(&s, &one, 3));
    assert!(!occurs(&s, &one, 2));
    assert!(!occurs(&s, &one, 9));
    assert!(!occurs(&s, &one, 11));
    assert!(!occurs(&s, &one, 500));
    assert!(occurs(&s, &Vec::new(), 11));
    assert!(!occurs(&s, &Vec::new(), 12));
}

#[test]
fn split_then_join_gives_the_text_back() {
    for s in SAMPLES {
        for pat in ["\n\n", "\n", ":", " ", "ab"] {
            assert_eq!(split(s, pat).join(pat), s);
        }
    }
}

#[test]
fn words_hold_no_white_space() {
    for s in SAMPLES {
        for word in split_whitespace(s) {
            assert!(!word.is_empty());
            assert!(!word.chars().any(|c| is_space(c)));
        }
    }
}

#[test]
fn trimmed_text_has_no_white_space_at_its_ends() {
    for s in SAMPLES {
        let t = trim(s);
        assert!(t.chars().next().map_or(true, |c| !is_space(c)));
        assert!(t.chars().last().map_or(true, |c| !is_space(c)));
        assert!(s.contains(t));
    }
}

use categorize::text::{
    chars_of, contains_chars, is_whitespace, lex_le_chars, normalize, same_chars, split_words,
    trim_chars,
};

fn chars(s: &str) -> Vec<char> {
    s.chars().collect()
}

fn text(v: &Vec<char>) -> String {
    v.iter().collect()
}

const SAMPLES: [&str; 14] = [
    "",
    " ",
    "hello",
    "  hello   world \n",
    "\tTabbed\u{00A0}non-breaking\u{3000}wide",
    "one\u{2028}two\u{2029}three",
    "a\u{0085}b\u{1680}c\u{205F}d\u{202F}e",
    "\u{2000}\u{2001}\u{2002}\u{200A}x\u{200B}y",
    "éé ÉCOLE école",
    "日本語の テキスト",
    "trailing   ",
    "   leading",
    "\r\n\r\n",
    "Zebra apple Apple zebra",
];

#[test]
fn whitespace_is_what_std_calls_whitespace() {
    let mut c = '\0';
    loop {
        assert_eq!(is_whitespace(c), c.is_whitespace(), "at {:?}", c);
        if c == char::MAX {
            break;
        }
        c = match char::from_u32(c as u32 + 1) {
            Some(next) => next,
            None => '\u{E000}',
        };
    }
}

#[test]
fn chars_of_lists_the_characters() {
    assert_eq!(chars_of("héllo"), vec!['h', 'é', 'l', 'l', 'o']);
    assert_eq!(chars_of(""), Vec::<char>::new());
}

#[test]
fn split_words_on_plain_text() {
    let words = split_words(&chars("  hello   world \n"));
    assert_eq!(words, vec![chars("hello"), chars("world")]);
}

#[test]
fn split_words_of_nothing_is_nothing() {
    assert_eq!(split_words(&chars("")), Vec::<Vec<char>>::new());
    assert_eq!(split_words(&chars(" \t\n ")), Vec::<Vec<char>>::new());
}

#[test]
fn split_words_is_split_whitespace() {
    for sample in SAMPLES {
        let words: Vec<String> = split_words(&chars(sample)).iter().map(text).collect();
        let expected: Vec<String> = sample.split_whitespace().map(String::from).collect();
        assert_eq!(words, expected, "for {:?}", sample);
    }
}

#[test]
fn trim_chars_drops_both_ends_only() {
    assert_eq!(text(&trim_chars(&chars("  a b  "))), "a b");
    assert_eq!(text(&trim_chars(&chars("\n\t"))), "");
    assert_eq!(text(&trim_chars(&chars("word"))), "word");
}

#[test]
fn trim_chars_is_trim() {
    for sample in SAMPLES {
        assert_eq!(text(&trim_chars(&chars(sample))), sample.trim(), "for {:?}", sample);
    }
}

#[test]
fn alphabetical_order_is_the_order_of_strings() {
    for a in SAMPLES {
        for b in SAMPLES {
            assert_eq!(lex_le_chars(&chars(a), &chars(b)), a <= b, "for {:?} and {:?}", a, b);
        }
    }
}

#[test]
fn alphabetical_order_examples() {
    assert!(lex_le_chars(&chars("apple"), &chars("apples")));
    assert!(!lex_le_chars(&chars("apples"), &chars("apple")));
    assert!(lex_le_chars(&chars("Zebra"), &chars("apple")));
    assert!(lex_le_chars(&chars("same"), &chars("same")));
    assert!(!lex_le_chars(&chars("b"), &chars("a")));
}

#[test]
fn same_chars_is_equality() {
    assert!(same_chars(&chars("abc"), &chars("abc")));
    assert!(!same_chars(&chars("abc"), &chars("abd")));
    assert!(!same_chars(&chars("abc"), &chars("ab")));
    assert!(same_chars(&chars(""), &chars("")));
}

#[test]
fn contains_chars_is_substring_search() {
    let needles = ["", "a", "lo w", "world", "worlds", "hello   world \n", "x", "  "];
    for hay in SAMPLES {
        for needle in needles {
            assert_eq!(
                contains_chars(&chars(hay), &chars(needle)),
                hay.contains(needle),
                "for {:?} in {:?}",
                needle,
                hay
            );
        }
    }
}

#[test]
fn normalize_lowers_and_trims() {
    assert_eq!(normalize("  HeLLo "), "hello");
    assert_eq!(normalize("ÉCOLE"), "école");
    assert_eq!(normalize("Example.COM\n"), "example.com");
    assert_eq!(normalize(" \t"), "");
}

use categorize::failure::Failure;
use categorize::scraping::{
    byte_count, extract, find_content, keywords_in, page_digest, plain_selector, tokenize,
    website_text, MAX_PAGE_BYTES,
};

fn strings(words: &[&str]) -> Vec<String> {
    words.iter().map(|w| w.to_string()).collect()
}

#[test]
fn tokenize_keeps_long_words_in_lowercase() {
    assert_eq!(tokenize("The Example DOMAIN for you"), strings(&["example", "domain"]));
}

#[test]
fn tokenize_wants_more_than_three_characters() {
    assert_eq!(tokenize("abc abcd ab a abcde"), strings(&["abcd", "abcde"]));
}

#[test]
fn tokenize_counts_characters() {
    assert_eq!(tokenize("éé ééé éééé"), strings(&["éééé"]));
    assert_eq!(tokenize("日本 日本語の"), strings(&["日本語の"]));
}

#[test]
fn tokenize_keeps_repetitions_and_order() {
    assert_eq!(tokenize("Word other WORD\nword"), strings(&["word", "other", "word", "word"]));
}

#[test]
fn tokenize_of_blank_text_is_empty() {
    assert!(tokenize("").is_empty());
    assert!(tokenize(" \n\t ").is_empty());
}

#[test]
fn tokenize_is_split_filter_lowercase() {
    let texts = [
        "The Example DOMAIN for you",
        "  Mixed\tCASE\nwords   And   more WORDS here  ",
        "ÉCOLE école Straße STRASSE ΣΟΦΟΣ Σοφος",
        "one two three four five six seven eight nine ten",
        "a\u{00A0}long\u{3000}wide\u{2028}line break",
        "",
    ];
    for text in texts {
        let expected: Vec<String> = text
            .split_whitespace()
            .filter(|s| s.chars().count() > 3)
            .map(|s| s.trim().to_lowercase())
            .collect();
        assert_eq!(tokenize(text), expected, "for {:?}", text);
    }
}

#[test]
fn keywords_in_goes_text_after_text() {
    let texts = strings(&["First Text", "", "no", "Second text here"]);
    assert_eq!(keywords_in(&texts), strings(&["first", "text", "second", "text", "here"]));
}

#[test]
fn find_content_reads_the_title() {
    let html = "<html><head><title>Example Domain</title></head><body><p>Nothing</p></body></html>";
    assert_eq!(find_content("title", html), Ok(strings(&["example", "domain"])));
}

#[test]
fn find_content_reads_every_matching_element() {
    let html = "<body><p>First paragraph</p><div>skipped words</div>\
        <p>Second <b>bold</b> one</p></body>";
    assert_eq!(
        find_content("p", html),
        Ok(strings(&["first", "paragraph", "second", "bold"]))
    );
}

#[test]
fn find_content_of_a_selector_group() {
    let html = "<ul><li>alpha item</li><li>beta</li></ul>";
    assert_eq!(
        find_content("ul,li", html),
        Ok(strings(&["alpha", "itembeta", "alpha", "item", "beta"]))
    );
}

#[test]
fn find_content_without_a_match_is_empty() {
    assert_eq!(find_content("h1", "<p>Some paragraph</p>"), Ok(Vec::new()));
    let html = "<meta name=\"description\" content=\"Hidden words\">";
    assert_eq!(find_content("meta", html), Ok(Vec::new()));
}

#[test]
fn find_content_refuses_a_bad_selector() {
    assert_eq!(find_content("p[", "<p>Some paragraph</p>"), Err(Failure::ParseError));
    assert_eq!(find_content("", "<p>Some paragraph</p>"), Err(Failure::ParseError));
}

#[test]
fn page_digest_ranks_and_joins() {
    let content = strings(&["rust", "language", "rust", "tools"]);
    assert_eq!(page_digest(&content), "rust language tools");
}

#[test]
fn website_text_of_a_title_only() {
    let html = "<html><head><title>Example Domain</title></head><body></body></html>";
    assert_eq!(website_text(html), Ok("domain example".to_string()));
}

#[test]
fn website_text_counts_over_all_places() {
    let html = "<html><head><title>Rust Language</title></head><body>\
        <h1>Rust</h1><ul><li>Tools</li></ul><p>The rust language and its tools.</p>\
        <div>Ignored elsewhere</div></body></html>";
    assert_eq!(website_text(html), Ok("rust language tools tools.".to_string()));
}

#[test]
fn website_text_bears_broken_markup() {
    let html = "<p>Unclosed <b>paragraph text<p>another <<< one</div>";
    let text = website_text(html);
    assert_eq!(text, Ok("another paragraph text unclosed".to_string()));
}

#[test]
fn website_text_of_an_empty_page_is_empty() {
    assert_eq!(website_text(""), Ok(String::new()));
    assert_eq!(website_text("<html><body><p>a bc def</p></body></html>"), Ok(String::new()));
}

#[test]
fn website_text_has_at_most_a_hundred_keywords() {
    let mut html = String::from("<html><body>");
    for i in 0..250 {
        html.push_str(&format!("<p>Keyword{:03} keyword{:03}</p>", i, i % 50));
    }
    html.push_str("</body></html>");
    let text = website_text(&html).unwrap();
    let tokens: Vec<&str> = text.split(' ').collect();
    assert_eq!(tokens.len(), 100);
    for (i, token) in tokens.iter().enumerate() {
        assert!(token.chars().count() > 3);
        assert_eq!(*token, token.to_lowercase());
        assert_eq!(*token, token.trim());
        assert!(!tokens[..i].contains(token));
    }
    assert_eq!(tokens[0], "keyword000");
    assert_eq!(tokens[49], "keyword049");
    assert_eq!(tokens[50], "keyword050");
}

#[test]
fn byte_count_counts_bytes() {
    assert_eq!(byte_count(""), 0);
    assert_eq!(byte_count("abc"), 3);
    assert_eq!(byte_count("éé"), 4);
    assert_eq!(byte_count("日本語"), 9);
}

#[test]
fn plain_selectors_are_names_and_commas() {
    for selector in ["title", "meta", "ul,li", "h1", "p", "", "H2,h3", ","] {
        assert!(plain_selector(selector), "{:?}", selector);
    }
    for selector in [":has(p)", "div p", "a[href]", "p.lead", "#main", "ul > li", "*", "p:not(a)"] {
        assert!(!plain_selector(selector), "{:?}", selector);
    }
}

#[test]
fn find_content_takes_plain_selectors_only() {
    let html = "<div class=\"lead\"><p>Some paragraph</p></div>";
    assert_eq!(find_content("p", html).map(|found| found.len()), Ok(2));
    assert_eq!(find_content("p,div", html).map(|found| found.len()), Ok(4));
    let many = "p,".repeat(5000) + "p";
    assert_eq!(find_content(&many, html).map(|found| found.len()), Ok(2));
    for selector in [":has(p)", "div p", "div > p", "p.lead", "div:not(p)", "*"] {
        assert_eq!(find_content(selector, html), Err(Failure::ParseError), "{:?}", selector);
    }
    for selector in ["", ",", "p,", "1p"] {
        assert_eq!(find_content(selector, html), Err(Failure::ParseError), "{:?}", selector);
    }
}

fn nested(depth: usize) -> String {
    let mut html = String::from("<html><head><title>Deep Page</title></head><body>");
    html.push_str(&"<div>".repeat(depth));
    html.push_str("<ul><li>Nested item</li></ul><p>Innermost paragraph</p>");
    html.push_str(&"</div>".repeat(depth));
    html.push_str("</body></html>");
    html
}

#[test]
fn a_deeply_nested_element_is_found() {
    let start = std::time::Instant::now();
    assert_eq!(
        find_content("p", &nested(5_000)),
        Ok(vec!["innermost".to_string(), "paragraph".to_string()])
    );
    println!("took {:?}", start.elapsed());
}

#[test]
fn a_deeply_nested_page_has_its_digest() {
    assert_eq!(
        extract(&nested(1_000)),
        Ok("item nested deep innermost page paragraph".to_string())
    );
}

#[test]
fn markup_alone_never_fails_the_extraction() {
    let pages = [
        "",
        "<",
        "<<<>>>",
        "</p></p></div>",
        "<p><p><p><b><i><p>unclosed everywhere",
        "<title>Broken <title>twice</title>",
        "\u{0}\u{0}<p>\u{0}nulls in here\u{0}</p>",
        "<!-- unterminated comment <p>hidden words</p>",
        "<table><p>misplaced paragraph</table>",
        "&notanentity; &#xFFFFFFFF; &amp",
        "plain text without any markup at all",
    ];
    for page in pages {
        assert!(website_text(page).is_ok(), "{:?}", page);
        assert!(extract(page).is_ok(), "{:?}", page);
    }
}

#[test]
fn extract_is_website_text_on_a_page_within_the_limit() {
    let html = "<html><head><title>Example Domain</title></head><body></body></html>";
    assert_eq!(extract(html), Ok("domain example".to_string()));
    assert_eq!(extract(html), website_text(html));
    assert_eq!(extract(""), Ok(String::new()));
}

#[test]
fn extract_does_not_parse_a_page_over_the_limit() {
    assert_eq!(MAX_PAGE_BYTES, 268_435_456);
    let mut page = String::from("<title>Example Domain</title>");
    page.push_str(&" ".repeat(MAX_PAGE_BYTES + 1 - page.len()));
    assert_eq!(page.len(), MAX_PAGE_BYTES + 1);
    assert_eq!(extract(&page), Err(Failure::ParseError));
}

#[test]
fn keywords_of_words_in_many_scripts() {
    let html = "<html><body><p>\u{0130}stanbul \u{03A3}\u{039F}\u{03A6}\u{039F}\u{03A3} \
        STRASSE Stra\u{00DF}e \u{212A}elvin \u{00C9}COLE \u{0130}ab \u{01C5}abc \
        \u{65E5}\u{672C}\u{8A9E}\u{306E} NA\u{00CF}VE na\u{00EF}ve</p></body></html>";
    let text = extract(html).unwrap();
    assert!(!text.starts_with(' ') && !text.ends_with(' '));
    assert!(!text.contains("  "));
    let tokens: Vec<&str> = text.split(' ').collect();
    assert_eq!(tokens.len(), 9);
    for (i, token) in tokens.iter().enumerate() {
        assert!(token.chars().count() > 3, "{:?}", token);
        assert_eq!(*token, token.to_lowercase());
        assert!(!token.chars().any(|c| c.is_uppercase()), "{:?}", token);
        assert!(!token.chars().any(|c| c.is_whitespace()), "{:?}", token);
        assert!(!tokens[..i].contains(token));
    }
    assert_eq!(tokens[0], "na\u{00EF}ve");
}

use categorize::rank::{digest_text, keyword_digest, DIGEST_LIMIT};
use itertools::Itertools;

fn strings(words: &[&str]) -> Vec<String> {
    words.iter().map(|w| w.to_string()).collect()
}

/// The digest as a chain of sorts: by alphabet, counted, then by count,
/// the sort keeping the order of equals.
fn by_sorting(content: &[String]) -> String {
    content
        .iter()
        .cloned()
        .sorted()
        .dedup_with_count()
        .sorted_by(|a, b| b.0.cmp(&a.0))
        .map(|(_count, word)| word)
        .take(100)
        .join(" ")
}

#[test]
fn digest_ranks_by_count_then_alphabet() {
    let content = strings(&["pear", "apple", "pear", "fig", "apple", "pear", "zebra", "fig"]);
    let digest = keyword_digest(&content);
    assert_eq!(digest, strings(&["pear", "apple", "fig", "zebra"]));
    assert_eq!(digest_text(&digest), "pear apple fig zebra");
}

#[test]
fn digest_of_equal_counts_is_alphabetical() {
    let content = strings(&["example", "domain"]);
    assert_eq!(digest_text(&keyword_digest(&content)), "domain example");
}

#[test]
fn digest_of_nothing_is_empty() {
    let digest = keyword_digest(&Vec::new());
    assert!(digest.is_empty());
    assert_eq!(digest_text(&digest), "");
}

#[test]
fn digest_of_one_keyword_has_no_space() {
    let content = strings(&["only", "only", "only"]);
    assert_eq!(digest_text(&keyword_digest(&content)), "only");
}

#[test]
fn digest_holds_at_most_the_limit() {
    assert_eq!(DIGEST_LIMIT, 100);
    let mut content = Vec::new();
    for i in 0..150 {
        content.push(format!("word{:03}", 149 - i));
    }
    content.push("word120".to_string());
    let digest = keyword_digest(&content);
    assert_eq!(digest.len(), 100);
    assert_eq!(digest[0], "word120");
    for i in 0..99 {
        assert_eq!(digest[i + 1], format!("word{:03}", i));
    }
}

#[test]
fn digest_has_no_keyword_twice() {
    let content = strings(&["tree", "leaf", "tree", "root", "leaf", "tree", "root", "bark"]);
    let digest = keyword_digest(&content);
    for i in 0..digest.len() {
        for j in 0..i {
            assert_ne!(digest[i], digest[j]);
        }
    }
    assert_eq!(digest.len(), 4);
}

#[test]
fn digest_does_not_depend_on_the_order_of_the_tokens() {
    let content = strings(&["delta", "alpha", "charlie", "alpha", "bravo", "delta", "alpha"]);
    let expected = strings(&["alpha", "delta", "bravo", "charlie"]);
    assert_eq!(keyword_digest(&content), expected);
    let mut reversed = content.clone();
    reversed.reverse();
    assert_eq!(keyword_digest(&reversed), expected);
    let mut rotated = content.clone();
    for _ in 0..content.len() {
        rotated.rotate_left(1);
        assert_eq!(keyword_digest(&rotated), expected);
    }
    assert_eq!(keyword_digest(&content), keyword_digest(&content));
}

#[test]
fn digest_is_the_chain_of_sorts() {
    let texts = [
        "the quick brown fox jumps over the lazy dog the fox",
        "b a c a b a d e f g a b c",
        "Zeta alpha Zeta beta alpha Zeta ÉCOLE école école",
        "",
        "x",
        "tie tie one one two two aaa aaa",
    ];
    for text in texts {
        let content: Vec<String> = text.split_whitespace().map(String::from).collect();
        assert_eq!(digest_text(&keyword_digest(&content)), by_sorting(&content), "for {:?}", text);
    }
    let mut many = Vec::new();
    for i in 0..500 {
        many.push(format!("k{}", (i * 7919) % 173));
    }
    assert_eq!(digest_text(&keyword_digest(&many)), by_sorting(&many));
}

#[test]
fn digest_text_joins_with_single_spaces() {
    assert_eq!(digest_text(&strings(&["one", "two", "three"])), "one two three");
    assert_eq!(digest_text(&strings(&["one"])), "one");
}

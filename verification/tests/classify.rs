use categorize::categories::{category_labels, category_prompt, word_in_list, LABEL_COUNT};
use categorize::classify::{classification_prompt, validate_response};
use categorize::failure::Failure;
use categorize::sink::Domain;

fn classified(domain: &str, category: &str) -> Result<Domain, Failure> {
    Ok(Domain { domain: domain.to_string(), category: category.to_string() })
}

#[test]
fn there_are_thirty_two_labels() {
    let labels = category_labels();
    assert_eq!(LABEL_COUNT, 32);
    assert_eq!(labels.len(), 32);
    assert_eq!(labels[0], "Internet Service Provider");
    assert_eq!(labels[3], "Technology");
    assert_eq!(labels[6], "Banking/Finance");
    assert_eq!(labels[31], "Other");
}

#[test]
fn category_prompt_lists_the_labels() {
    assert_eq!(
        category_prompt(),
        "Categories MUST be one of the following: Internet Service Provider, \
         Telecommunications, Hosting, Technology, Education, Government, Banking/Finance, \
         Healthcare, Cloud, Energy, Consulting, Marketing, Communications, Business, \
         Media/Entertainment, Travel, News, Gaming, Logistics, Automotive, Retail, Industry, \
         Sports, Agriculture, Fashion, Infrastructure, Community, Pharmaceuticals, Charity, \
         Adult, Streaming, Other"
    );
}

#[test]
fn word_in_list_is_exact() {
    assert!(word_in_list("Technology"));
    assert!(word_in_list("Other"));
    assert!(word_in_list("Banking/Finance"));
    assert!(word_in_list("Internet Service Provider"));
    assert!(!word_in_list("technology"));
    assert!(!word_in_list("Finance"));
    assert!(!word_in_list("Technology "));
    assert!(!word_in_list(""));
    assert!(!word_in_list("Techno"));
}

#[test]
fn every_label_is_in_the_list() {
    for label in category_labels() {
        assert!(word_in_list(label));
    }
}

#[test]
fn prompt_holds_instruction_labels_domain_and_digest() {
    let expected = format!(
        "Please categorize this domain with a single keyword in English. \
         Do not elaborate, do not explain or otherwise enhance the answer.\n\n \
         {} \
         The domain is: {}. Here are some items from the website: {}",
        category_prompt(),
        "example.com",
        "domain example"
    );
    assert_eq!(classification_prompt("example.com", "domain example"), expected);
    assert!(expected
        .starts_with("Please categorize this domain with a single keyword in English. Do not"));
    assert!(expected.contains("answer.\n\n Categories MUST be one of the following: Internet"));
    assert!(expected.ends_with(
        "Other The domain is: example.com. Here are some items from the website: domain example"
    ));
}

#[test]
fn a_label_classifies() {
    assert_eq!(
        validate_response("example.com", "Technology"),
        classified("example.com", "Technology")
    );
    assert_eq!(
        validate_response("bank.test", "Banking/Finance"),
        classified("bank.test", "Banking/Finance")
    );
    assert_eq!(validate_response("misc.test", "Other"), classified("misc.test", "Other"));
}

#[test]
fn an_empty_answer_is_refused() {
    assert_eq!(validate_response("example.com", ""), Err(Failure::EmptyResponse));
}

#[test]
fn an_answer_of_several_words_is_refused() {
    assert_eq!(
        validate_response("thatdomain.test", "I think this is Technology"),
        Err(Failure::MultiWordResponse)
    );
    assert_eq!(validate_response("a.test", "Technology Retail"), Err(Failure::MultiWordResponse));
    assert_eq!(validate_response("a.test", "Technology\nRetail"), Err(Failure::MultiWordResponse));
    assert_eq!(
        validate_response("a.test", "Internet Service Provider"),
        Err(Failure::MultiWordResponse)
    );
}

#[test]
fn an_answer_outside_the_list_is_refused() {
    assert_eq!(validate_response("bank.test", "Finance"), Err(Failure::NotInAllowList));
    assert_eq!(validate_response("a.test", "technology"), Err(Failure::NotInAllowList));
    assert_eq!(validate_response("a.test", "Technology."), Err(Failure::NotInAllowList));
}

#[test]
fn an_answer_is_trimmed_before_it_is_looked_up() {
    assert_eq!(validate_response("a.test", " Technology\n"), classified("a.test", "Technology"));
    assert_eq!(validate_response("a.test", "\tRetail"), classified("a.test", "Retail"));
}

#[test]
fn a_blank_answer_is_not_in_the_list() {
    assert_eq!(validate_response("a.test", "   "), Err(Failure::NotInAllowList));
    assert_eq!(validate_response("a.test", "\n"), Err(Failure::NotInAllowList));
}

#[test]
fn a_category_is_always_a_label() {
    let answers = [
        "Technology", " Cloud ", "cloud", "News", "Sports\n", "Adult", "", "Two Words", "Gaming!",
        "Other", "Streaming", "Charity", "Energy",
    ];
    for answer in answers {
        if let Ok(c) = validate_response("any.test", answer) {
            assert!(word_in_list(&c.category));
            assert_eq!(c.domain, "any.test");
        }
    }
}

//! The category validator: the prompt that asks for a category, and the
//! check that turns the free-text answer into a classification or a
//! failure.

use crate::categories::{category_prompt, category_prompt_text, is_label, word_in_list};
use crate::failure::Failure;
use crate::sink::{Classification, Domain};
use crate::text::{
    chars_of, has_space, lemma_one_word_has_no_space, split_words, string_of, trim, trim_chars,
    words,
};
use vstd::prelude::*;
use vstd::string::StringExecFns;

verus! {

/// How a prompt opens: the instruction to answer with one keyword.
pub open spec fn prompt_opening() -> Seq<char> {
    "Please categorize this domain with a single keyword in English. Do not elaborate, do not explain or otherwise enhance the answer.\n\n "@
}

/// What stands before the domain in a prompt.
pub open spec fn prompt_domain_intro() -> Seq<char> {
    " The domain is: "@
}

/// What stands before the keyword digest in a prompt.
pub open spec fn prompt_items_intro() -> Seq<char> {
    ". Here are some items from the website: "@
}

/// The prompt for `domain` and the text of its keyword digest: the
/// instruction, the list of category labels, the domain, the digest.
pub open spec fn prompt_text(domain: Seq<char>, keywords: Seq<char>) -> Seq<char> {
    prompt_opening() + category_prompt_text() + prompt_domain_intro() + domain
        + prompt_items_intro() + keywords
}

/// The prompt that asks the completion service for the category of
/// `domain`, given the text of its keyword digest.
pub fn classification_prompt(domain: &str, keywords: &str) -> (prompt: String)
    ensures
        prompt@ == prompt_text(domain@, keywords@),
{
    let mut prompt = String::from_str(
        "Please categorize this domain with a single keyword in English. Do not elaborate, do not explain or otherwise enhance the answer.\n\n ",
    );
    let allowed = category_prompt();
    prompt.append(allowed.as_str());
    prompt.append(" The domain is: ");
    prompt.append(domain);
    prompt.append(". Here are some items from the website: ");
    prompt.append(keywords);
    prompt
}

/// What the validation makes of an answer; the checks are made in this
/// order, and the first that fails decides. An answer that passes gives
/// its trimmed form as the category.
pub open spec fn verdict(response: Seq<char>) -> Result<Seq<char>, Failure> {
    if response.len() == 0 {
        Err(Failure::EmptyResponse)
    } else if words(response).len() > 1 {
        Err(Failure::MultiWordResponse)
    } else if !is_label(trim(response)) {
        Err(Failure::NotInAllowList)
    } else {
        Ok(trim(response))
    }
}

/// What the validation makes of an answer for `domain`.
pub open spec fn classified(domain: Seq<char>, response: Seq<char>) -> Result<
    Classification,
    Failure,
> {
    match verdict(response) {
        Ok(category) => Ok(Classification { domain, category }),
        Err(reason) => Err(reason),
    }
}

/// The view of the outcome of a validation.
pub open spec fn outcome_view(outcome: Result<Domain, Failure>) -> Result<Classification, Failure> {
    match outcome {
        Ok(c) => Ok(c@),
        Err(reason) => Err(reason),
    }
}

/// Validates the answer of the completion service for `domain`. An empty
/// answer, one of more than one word, and one whose trimmed form is not
/// exactly a category label are refused, in this order; any other answer
/// classifies the domain under its trimmed form.
pub fn validate_response(domain: &str, response: &str) -> (outcome: Result<Domain, Failure>)
    ensures
        outcome_view(outcome) == classified(domain@, response@),
        outcome matches Ok(c) ==> is_label(c.category@) && !has_space(c.category@),
{
    let chars = chars_of(response);
    if chars.len() == 0 {
        return Err(Failure::EmptyResponse);
    }
    let tokens = split_words(&chars);
    if tokens.len() > 1 {
        return Err(Failure::MultiWordResponse);
    }
    let category = string_of(&trim_chars(&chars));
    proof {
        lemma_one_word_has_no_space(response@);
    }
    if !word_in_list(category.as_str()) {
        return Err(Failure::NotInAllowList);
    }
    Ok(Domain { domain: String::from_str(domain), category })
}

/// The category of a classification is always exactly one of the category
/// labels, and a single word: it holds no white space.
pub proof fn lemma_category_is_label(domain: Seq<char>, response: Seq<char>)
    ensures
        classified(domain, response) matches Ok(c) ==> is_label(c.category) && !has_space(
            c.category,
        ),
{
    if words(response).len() <= 1 {
        lemma_one_word_has_no_space(response);
    }
}

/// An answer of more than one word is refused as such, whatever its words
/// are; it never classifies a domain.
pub proof fn lemma_many_words_refused(domain: Seq<char>, response: Seq<char>)
    requires
        has_space(response),
        words(response).len() > 1,
    ensures
        classified(domain, response) == Err::<Classification, Failure>(
            Failure::MultiWordResponse,
        ),
{
}

} // verus!

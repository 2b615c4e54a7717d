//! The closed list of category labels.

use crate::text::{chars_of, join, same_chars};
use vstd::prelude::*;
use vstd::string::StringExecFns;

verus! {

/// The number of category labels.
pub const LABEL_COUNT: usize = 32;

/// The category labels, in the order in which a prompt lists them. The
/// last one is the catch-all.
pub open spec fn labels() -> Seq<Seq<char>> {
    seq![
        "Internet Service Provider"@,
        "Telecommunications"@,
        "Hosting"@,
        "Technology"@,
        "Education"@,
        "Government"@,
        "Banking/Finance"@,
        "Healthcare"@,
        "Cloud"@,
        "Energy"@,
        "Consulting"@,
        "Marketing"@,
        "Communications"@,
        "Business"@,
        "Media/Entertainment"@,
        "Travel"@,
        "News"@,
        "Gaming"@,
        "Logistics"@,
        "Automotive"@,
        "Retail"@,
        "Industry"@,
        "Sports"@,
        "Agriculture"@,
        "Fashion"@,
        "Infrastructure"@,
        "Community"@,
        "Pharmaceuticals"@,
        "Charity"@,
        "Adult"@,
        "Streaming"@,
        "Other"@,
    ]
}

/// Whether `word` is exactly one of the category labels.
pub open spec fn is_label(word: Seq<char>) -> bool {
    labels().contains(word)
}

/// What introduces the list of labels in a prompt.
pub open spec fn category_intro() -> Seq<char> {
    "Categories MUST be one of the following: "@
}

/// The sentence of a prompt that lists the labels: the introduction, then
/// the labels with a comma and a space between neighbours.
pub open spec fn category_prompt_text() -> Seq<char> {
    category_intro() + join(labels(), ", "@)
}

/// The category labels.
pub fn category_labels() -> (list: Vec<&'static str>)
    ensures
        list.len() == LABEL_COUNT,
        list.len() == labels().len(),
        forall|k: int| 0 <= k < list.len() ==> (#[trigger] list@[k])@ == labels()[k],
{
    vec![
        "Internet Service Provider",
        "Telecommunications",
        "Hosting",
        "Technology",
        "Education",
        "Government",
        "Banking/Finance",
        "Healthcare",
        "Cloud",
        "Energy",
        "Consulting",
        "Marketing",
        "Communications",
        "Business",
        "Media/Entertainment",
        "Travel",
        "News",
        "Gaming",
        "Logistics",
        "Automotive",
        "Retail",
        "Industry",
        "Sports",
        "Agriculture",
        "Fashion",
        "Infrastructure",
        "Community",
        "Pharmaceuticals",
        "Charity",
        "Adult",
        "Streaming",
        "Other",
    ]
}

/// The sentence of a prompt that lists the category labels.
pub fn category_prompt() -> (sentence: String)
    ensures
        sentence@ == category_prompt_text(),
{
    let list = category_labels();
    let ghost all = labels();
    let mut sentence = String::from_str("Categories MUST be one of the following: ");
    let mut i: usize = 0;
    while i < list.len()
        invariant
            all == labels(),
            list.len() == all.len(),
            forall|k: int| 0 <= k < list.len() ==> (#[trigger] list@[k])@ == all[k],
            i <= list.len(),
            sentence@ == category_intro() + join(all.take(i as int), ", "@),
        decreases list.len() - i,
    {
        proof {
            assert(all.take(i + 1).drop_last() == all.take(i as int));
        }
        if i > 0 {
            sentence.append(", ");
        }
        sentence.append(list[i]);
        i = i + 1;
    }
    proof {
        assert(all.take(list.len() as int) == all);
    }
    sentence
}

/// Whether `word` is exactly one of the category labels. Case matters.
pub fn word_in_list(word: &str) -> (found: bool)
    ensures
        found == is_label(word@),
{
    let list = category_labels();
    let ghost all = labels();
    let chars = chars_of(word);
    let mut i: usize = 0;
    while i < list.len()
        invariant
            all == labels(),
            list.len() == all.len(),
            forall|k: int| 0 <= k < list.len() ==> (#[trigger] list@[k])@ == all[k],
            i <= list.len(),
            chars@ == word@,
            forall|k: int| 0 <= k < i ==> all[k] != word@,
        decreases list.len() - i,
    {
        let label = chars_of(list[i]);
        if same_chars(&chars, &label) {
            proof {
                assert(all[i as int] == word@);
            }
            return true;
        }
        i = i + 1;
    }
    false
}

} // verus!

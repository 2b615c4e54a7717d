//! Extraction of the keyword digest from the HTML of a page.

use crate::failure::Failure;
use crate::rank::{
    digest_of, digest_text, digest_text_of, keyword_digest, lemma_digest_shape, DIGEST_LIMIT,
};
use crate::text::{
    chars_of, has_space, is_trimmed, lemma_trim_is_trimmed, lemma_words_shape, lowercase,
    normal_form, normalize, split_words, string_of, string_views, words,
};
use vstd::prelude::*;
use vstd::utf8::encode_utf8;

verus! {

/// The largest page, in bytes, that is handed to the parser. The parser
/// keeps text in buffers whose lengths are 32-bit numbers, rounds their
/// capacities up to powers of two, and may write three bytes where it read
/// one; with this limit no buffer comes near what it can hold.
pub const MAX_PAGE_BYTES: usize = 0x1000_0000;

/// The number of bytes of `s` as a string.
pub open spec fn byte_len(s: Seq<char>) -> nat {
    encode_utf8(s).len()
}

/// The number of bytes of `s`.
pub fn byte_count(s: &str) -> (n: usize)
    ensures
        n == byte_len(s@),
{
    broadcast use vstd::slice::group_slice_axioms;

    s.as_bytes().len()
}

/// Whether `c` may stand in a plain selector: an ASCII letter, a digit or
/// a comma.
pub open spec fn is_plain_char(c: char) -> bool {
    let n = c as u32;
    ||| 0x30 <= n <= 0x39
    ||| 0x41 <= n <= 0x5A
    ||| 0x61 <= n <= 0x7A
    ||| n == 0x2C
}

/// Whether `s` is a plain selector: nothing but names of elements and
/// commas between them. Such a selector is matched against an element by
/// the element's name alone, without a look at the rest of the document.
pub open spec fn is_plain_selector(s: Seq<char>) -> bool {
    forall|i: int| 0 <= i < s.len() ==> is_plain_char(#[trigger] s[i])
}

/// Whether `selector` is a plain selector.
pub fn plain_selector(selector: &str) -> (ok: bool)
    ensures
        ok == is_plain_selector(selector@),
{
    let chars = chars_of(selector);
    let mut i: usize = 0;
    while i < chars.len()
        invariant
            chars@ == selector@,
            i <= chars.len(),
            forall|k: int| 0 <= k < i ==> is_plain_char(#[trigger] chars@[k]),
        decreases chars.len() - i,
    {
        let n: u32 = chars[i] as u32;
        let plain = (0x30 <= n && n <= 0x39) || (0x41 <= n && n <= 0x5A) || (0x61 <= n && n
            <= 0x7A) || n == 0x2C;
        if !plain {
            return false;
        }
        i = i + 1;
    }
    true
}

/// Whether the selector parser refuses `selector`, a CSS selector group.
pub uninterp spec fn selector_refused(selector: Seq<char>) -> bool;

/// For the HTML document `body` and a CSS selector group `selector` that
/// the selector parser takes: the texts of the elements that match, in the
/// order in which the parser put the elements into the document, each text
/// being that of the element's descendant text nodes put together.
pub uninterp spec fn selected_texts(body: Seq<char>, selector: Seq<char>) -> Seq<Seq<char>>;

/// Parses `body` as an HTML document and collects the text of every
/// element that matches `selector`.
///
/// Wraps `Selector::parse`, `Html::parse_document`, `Html::select` and
/// `ElementRef::text` of the crate `scraper`. `None` stands for a selector
/// that `Selector::parse` refuses, which is a matter of the selector
/// alone. The parser takes any markup, and `Html::select` walks the nodes
/// in the order in which they were put into the tree, so the texts are a
/// function of the two strings. Two kinds of input are kept out: a page
/// over the limit, as the parser panics on one of 4 GiB; and a selector
/// that is not plain, as the matching of some selectors (`:has`) calls
/// itself for each level of the document and may exhaust the stack.
#[verifier::external_body]
fn select_texts(body: &str, selector: &str) -> (texts: Option<Vec<String>>)
    requires
        byte_len(body@) <= MAX_PAGE_BYTES,
        is_plain_selector(selector@),
    ensures
        (texts is None) == selector_refused(selector@),
        texts matches Some(found) ==> string_views(found@) == selected_texts(body@, selector@),
{
    match scraper::Selector::parse(selector) {
        Ok(parsed) => {
            let document = scraper::Html::parse_document(body);
            let mut texts = Vec::new();
            for element in document.select(&parsed) {
                texts.push(element.text().collect::<String>());
            }
            Some(texts)
        },
        Err(_) => None,
    }
}

/// The keyword that a word of a page gives: its lowercase form, trimmed.
pub open spec fn keyword(word: Seq<char>) -> Seq<char> {
    normal_form(word)
}

/// Whether a word is long enough to be kept: more than three characters.
pub open spec fn is_long(word: Seq<char>) -> bool {
    word.len() > 3
}

/// The keywords of the long words among `ws`, in order.
pub open spec fn keywords_of_words(ws: Seq<Seq<char>>) -> Seq<Seq<char>>
    decreases ws.len(),
{
    if ws.len() == 0 {
        Seq::empty()
    } else if is_long(ws.last()) {
        keywords_of_words(ws.drop_last()).push(keyword(ws.last()))
    } else {
        keywords_of_words(ws.drop_last())
    }
}

/// The keywords of a text: those of its long words.
pub open spec fn keywords(text: Seq<char>) -> Seq<Seq<char>> {
    keywords_of_words(words(text))
}

/// The keywords of several texts, text after text.
pub open spec fn keywords_of_texts(texts: Seq<Seq<char>>) -> Seq<Seq<char>>
    decreases texts.len(),
{
    if texts.len() == 0 {
        Seq::empty()
    } else {
        keywords_of_texts(texts.drop_last()) + keywords(texts.last())
    }
}

/// The keywords of `text`: its words of more than three characters, each
/// in lowercase and trimmed.
pub fn tokenize(text: &str) -> (tokens: Vec<String>)
    ensures
        string_views(tokens@) == keywords(text@),
{
    let chars = chars_of(text);
    let ws = split_words(&chars);
    let ghost all = words(text@);
    let mut tokens: Vec<String> = Vec::new();
    let mut i: usize = 0;
    while i < ws.len()
        invariant
            all == crate::text::char_views(ws@),
            i <= ws.len(),
            string_views(tokens@) == keywords_of_words(all.take(i as int)),
        decreases ws.len() - i,
    {
        proof {
            assert(all.take(i + 1).drop_last() == all.take(i as int));
            assert(all.take(i + 1).last() == ws@[i as int]@);
        }
        if ws[i].len() > 3 {
            let word = string_of(&ws[i]);
            let token = normalize(word.as_str());
            proof {
                assert(string_views(tokens@.push(token)) == string_views(tokens@).push(token@));
            }
            tokens.push(token);
        }
        i = i + 1;
    }
    proof {
        assert(all.take(ws.len() as int) == all);
    }
    tokens
}

/// The keywords of `texts`, text after text.
pub fn keywords_in(texts: &Vec<String>) -> (content: Vec<String>)
    ensures
        string_views(content@) == keywords_of_texts(string_views(texts@)),
{
    let ghost all = string_views(texts@);
    let mut content: Vec<String> = Vec::new();
    let mut i: usize = 0;
    while i < texts.len()
        invariant
            all == string_views(texts@),
            i <= texts.len(),
            string_views(content@) == keywords_of_texts(all.take(i as int)),
        decreases texts.len() - i,
    {
        let mut tokens = tokenize(texts[i].as_str());
        proof {
            assert(all.take(i + 1).drop_last() == all.take(i as int));
            assert(string_views(content@ + tokens@) == string_views(content@) + string_views(
                tokens@,
            ));
        }
        content.append(&mut tokens);
        i = i + 1;
    }
    proof {
        assert(all.take(texts.len() as int) == all);
    }
    content
}

/// The selectors of the places where a page is likely to say what it is
/// about, in the order in which they are searched: the title, metadata,
/// lists and their items, the main heading, paragraphs.
pub open spec fn page_selectors() -> Seq<Seq<char>> {
    seq!["title"@, "meta"@, "ul,li"@, "h1"@, "p"@]
}

/// Whether `selector` is taken: it is plain, and the selector parser does
/// not refuse it.
pub open spec fn selector_accepted(selector: Seq<char>) -> bool {
    is_plain_selector(selector) && !selector_refused(selector)
}

/// Whether every selector of `sels` is taken.
pub open spec fn all_accepted(sels: Seq<Seq<char>>) -> bool {
    forall|k: int| 0 <= k < sels.len() ==> selector_accepted(#[trigger] sels[k])
}

/// The keywords of the elements of `body` that match `selector`; `None`
/// where the selector is not taken.
pub open spec fn selector_keywords(body: Seq<char>, selector: Seq<char>) -> Option<
    Seq<Seq<char>>,
> {
    if selector_accepted(selector) {
        Some(keywords_of_texts(selected_texts(body, selector)))
    } else {
        None
    }
}

/// The keywords that the selectors `sels` find in `body`, selector after
/// selector; `None` where one of them is refused.
pub open spec fn content_of(body: Seq<char>, sels: Seq<Seq<char>>) -> Option<Seq<Seq<char>>>
    decreases sels.len(),
{
    if sels.len() == 0 {
        Some(Seq::empty())
    } else {
        match (content_of(body, sels.drop_last()), selector_keywords(body, sels.last())) {
            (Some(front), Some(found)) => Some(front + found),
            _ => None,
        }
    }
}

/// The keywords of the page `body`.
pub open spec fn page_content(body: Seq<char>) -> Option<Seq<Seq<char>>> {
    content_of(body, page_selectors())
}

/// The views of the keywords found, if the search succeeded.
pub open spec fn found_keywords(content: Result<Vec<String>, Failure>) -> Option<Seq<Seq<char>>> {
    match content {
        Ok(found) => Some(string_views(found@)),
        Err(_) => None,
    }
}

/// The keywords of the elements of the HTML document `body` that match
/// `selector`, element after element. Fails with `Failure::ParseError`
/// where the selector is not taken: it is not plain, or the selector
/// parser refuses it. Malformed markup is no failure. The page is no
/// larger than the parser can take.
pub fn find_content(selector: &str, body: &str) -> (content: Result<Vec<String>, Failure>)
    requires
        byte_len(body@) <= MAX_PAGE_BYTES,
    ensures
        found_keywords(content) == selector_keywords(body@, selector@),
        content matches Err(e) ==> e == Failure::ParseError,
{
    if !plain_selector(selector) {
        return Err(Failure::ParseError);
    }
    match select_texts(body, selector) {
        Some(texts) => Ok(keywords_in(&texts)),
        None => Err(Failure::ParseError),
    }
}

/// The text of the keyword digest of `content`.
pub open spec fn page_digest_of(content: Seq<Seq<char>>) -> Seq<char> {
    digest_text_of(digest_of(content))
}

/// What the extraction makes of the page `body`: the text of the digest of
/// its keywords, or a parse failure where a selector is not taken.
pub open spec fn page_text(body: Seq<char>) -> Result<Seq<char>, Failure> {
    match page_content(body) {
        Some(content) => Ok(page_digest_of(content)),
        None => Err(Failure::ParseError),
    }
}

/// The view of the outcome of an extraction.
pub open spec fn extraction_view(extraction: Result<String, Failure>) -> Result<
    Seq<char>,
    Failure,
> {
    match extraction {
        Ok(text) => Ok(text@),
        Err(reason) => Err(reason),
    }
}

/// The text of the keyword digest of `content`.
pub fn page_digest(content: &Vec<String>) -> (text: String)
    ensures
        text@ == page_digest_of(string_views(content@)),
{
    let digest = keyword_digest(content);
    digest_text(&digest)
}

/// The text of the keyword digest of the page whose HTML is `body`: the
/// keywords of its title, metadata, lists, main heading and paragraphs,
/// ranked, the first hundred of them, with one space between neighbours.
/// Fails with `Failure::ParseError` where a selector is not taken, which
/// is no matter of the page: no markup, however malformed, makes it fail.
/// The page is no larger than the parser can take; `extract` takes any
/// page.
pub fn website_text(body: &str) -> (text: Result<String, Failure>)
    requires
        byte_len(body@) <= MAX_PAGE_BYTES,
    ensures
        extraction_view(text) == page_text(body@),
        text is Err <==> page_selectors_refused(),
{
    let selectors: Vec<&str> = vec!["title", "meta", "ul,li", "h1", "p"];
    let ghost sels = page_selectors();
    let mut content: Vec<String> = Vec::new();
    let mut i: usize = 0;
    while i < selectors.len()
        invariant
            byte_len(body@) <= MAX_PAGE_BYTES,
            sels == page_selectors(),
            selectors.len() == 5,
            forall|k: int| 0 <= k < 5 ==> (#[trigger] selectors@[k])@ == sels[k],
            i <= selectors.len(),
            content_of(body@, sels.take(i as int)) == Some(string_views(content@)),
        decreases selectors.len() - i,
    {
        proof {
            assert(sels.take(i + 1).drop_last() == sels.take(i as int));
        }
        match find_content(selectors[i], body) {
            Ok(mut found) => {
                proof {
                    assert(string_views(content@ + found@) == string_views(content@)
                        + string_views(found@));
                }
                content.append(&mut found);
            },
            Err(e) => {
                proof {
                    lemma_content_fails(body@, sels, i + 1);
                    lemma_failure_is_of_the_selectors(body@);
                }
                return Err(e);
            },
        }
        i = i + 1;
    }
    proof {
        assert(sels.take(5) == sels);
        lemma_failure_is_of_the_selectors(body@);
    }
    Ok(page_digest(&content))
}

/// What the extraction makes of a page of any size: a page of more than
/// `MAX_PAGE_BYTES` is not parsed and counts as a parse failure, any other
/// gives what `page_text` says.
pub open spec fn extracted(body: Seq<char>) -> Result<Seq<char>, Failure> {
    if byte_len(body) > MAX_PAGE_BYTES {
        Err(Failure::ParseError)
    } else {
        page_text(body)
    }
}

/// The text of the keyword digest of the page whose HTML is `body`, for a
/// page of any size. Fails with `Failure::ParseError` for a page of more
/// than `MAX_PAGE_BYTES`, which is not parsed, and where a selector is
/// refused.
pub fn extract(body: &str) -> (text: Result<String, Failure>)
    ensures
        extraction_view(text) == extracted(body@),
        text is Err <==> byte_len(body@) > MAX_PAGE_BYTES || page_selectors_refused(),
{
    if byte_count(body) > MAX_PAGE_BYTES {
        Err(Failure::ParseError)
    } else {
        website_text(body)
    }
}

/// Whether the selector parser refuses one of the selectors of a page.
pub open spec fn page_selectors_refused() -> bool {
    exists|k: int|
        0 <= k < page_selectors().len() && selector_refused(#[trigger] page_selectors()[k])
}

/// The selectors of a page are plain.
pub proof fn lemma_page_selectors_are_plain()
    ensures
        forall|k: int|
            0 <= k < page_selectors().len() ==> is_plain_selector(#[trigger] page_selectors()[k]),
{
    reveal_strlit("title");
    reveal_strlit("meta");
    reveal_strlit("ul,li");
    reveal_strlit("h1");
    reveal_strlit("p");
    assert(is_plain_selector("title"@));
    assert(is_plain_selector("meta"@));
    assert(is_plain_selector("ul,li"@));
    assert(is_plain_selector("h1"@));
    assert(is_plain_selector("p"@));
}

/// Selectors find content in a page exactly if all of them are taken,
/// whatever the page.
pub proof fn lemma_content_of_is_some(body: Seq<char>, sels: Seq<Seq<char>>)
    ensures
        content_of(body, sels) is Some <==> all_accepted(sels),
    decreases sels.len(),
{
    if sels.len() > 0 {
        let front = sels.drop_last();
        lemma_content_of_is_some(body, front);
        if all_accepted(sels) {
            assert forall|k: int| 0 <= k < front.len() implies selector_accepted(
                #[trigger] front[k],
            ) by {
                assert(front[k] == sels[k]);
            }
            assert(selector_accepted(sels[sels.len() - 1]));
        }
        if all_accepted(front) && selector_accepted(sels.last()) {
            assert forall|k: int| 0 <= k < sels.len() implies selector_accepted(
                #[trigger] sels[k],
            ) by {
                if k < front.len() {
                    assert(front[k] == sels[k]);
                }
            }
        }
    }
}

/// Whether the extraction fails is no matter of the page: it fails
/// exactly if the selector parser refuses one of the selectors of a page.
/// So no markup, however malformed, makes it fail, and if one page gives a
/// digest, every page does.
pub proof fn lemma_failure_is_of_the_selectors(body: Seq<char>)
    ensures
        page_text(body) is Err <==> page_selectors_refused(),
{
    let sels = page_selectors();
    lemma_content_of_is_some(body, sels);
    lemma_page_selectors_are_plain();
    if page_selectors_refused() {
        let k = choose|k: int| 0 <= k < sels.len() && selector_refused(#[trigger] sels[k]);
        assert(!selector_accepted(sels[k]));
    }
    if !all_accepted(sels) {
        let k = choose|k: int| 0 <= k < sels.len() && !selector_accepted(#[trigger] sels[k]);
        assert(selector_refused(sels[k]));
    }
}

/// Once a selector is refused, the page has no content.
proof fn lemma_content_fails(body: Seq<char>, sels: Seq<Seq<char>>, n: int)
    requires
        0 <= n <= sels.len(),
        content_of(body, sels.take(n)) is None,
    ensures
        content_of(body, sels) is None,
    decreases sels.len() - n,
{
    if n < sels.len() {
        assert(sels.take(n + 1).drop_last() == sels.take(n));
        lemma_content_fails(body, sels, n + 1);
    } else {
        assert(sels.take(n) == sels);
    }
}

/// Whether `t` is the keyword of some word of more than three characters
/// that holds no white space.
pub open spec fn is_keyword(t: Seq<char>) -> bool {
    exists|w: Seq<char>| is_long(w) && !has_space(w) && t == #[trigger] keyword(w)
}

/// Each keyword of the long words among `ws` is the keyword of a long
/// word without white space, and is trimmed.
proof fn lemma_keywords_of_words(ws: Seq<Seq<char>>)
    requires
        forall|k: int| 0 <= k < ws.len() ==> !has_space(#[trigger] ws[k]),
    ensures
        forall|k: int|
            0 <= k < keywords_of_words(ws).len() ==> is_keyword(#[trigger] keywords_of_words(ws)[k])
                && is_trimmed(keywords_of_words(ws)[k]),
    decreases ws.len(),
{
    if ws.len() > 0 {
        let front = ws.drop_last();
        assert forall|k: int| 0 <= k < front.len() implies !has_space(#[trigger] front[k]) by {
            assert(front[k] == ws[k]);
        }
        lemma_keywords_of_words(front);
        let all = keywords_of_words(ws);
        let before = keywords_of_words(front);
        assert forall|k: int| 0 <= k < all.len() implies is_keyword(#[trigger] all[k])
            && is_trimmed(all[k]) by {
            if k < before.len() {
                assert(all[k] == before[k]);
            } else {
                assert(!has_space(ws[ws.len() - 1]));
                lemma_trim_is_trimmed(lowercase(ws.last()));
                assert(all[k] == keyword(ws.last()));
            }
        }
    }
}

/// Each keyword of a list of texts is the keyword of a long word without
/// white space, and is trimmed.
pub proof fn lemma_keywords_of_texts(texts: Seq<Seq<char>>)
    ensures
        forall|k: int|
            0 <= k < keywords_of_texts(texts).len() ==> is_keyword(
                #[trigger] keywords_of_texts(texts)[k],
            ) && is_trimmed(keywords_of_texts(texts)[k]),
    decreases texts.len(),
{
    if texts.len() > 0 {
        lemma_keywords_of_texts(texts.drop_last());
        lemma_words_shape(texts.last());
        lemma_keywords_of_words(words(texts.last()));
        let all = keywords_of_texts(texts);
        let before = keywords_of_texts(texts.drop_last());
        let added = keywords(texts.last());
        assert forall|k: int| 0 <= k < all.len() implies is_keyword(#[trigger] all[k])
            && is_trimmed(all[k]) by {
            if k < before.len() {
                assert(all[k] == before[k]);
            } else {
                assert(all[k] == added[k - before.len()]);
            }
        }
    }
}

/// Each keyword of a page is the keyword of a long word without white
/// space, and is trimmed.
pub proof fn lemma_page_content(body: Seq<char>, sels: Seq<Seq<char>>)
    ensures
        content_of(body, sels) matches Some(content) ==> forall|k: int|
            0 <= k < content.len() ==> is_keyword(#[trigger] content[k]) && is_trimmed(content[k]),
    decreases sels.len(),
{
    if sels.len() > 0 {
        lemma_page_content(body, sels.drop_last());
        match (content_of(body, sels.drop_last()), selector_keywords(body, sels.last())) {
            (Some(before), Some(found)) => {
                let texts = selected_texts(body, sels.last());
                lemma_keywords_of_texts(texts);
                let added = keywords_of_texts(texts);
                let all = before + added;
                assert forall|k: int| 0 <= k < all.len() implies is_keyword(#[trigger] all[k])
                    && is_trimmed(all[k]) by {
                    if k < before.len() {
                        assert(all[k] == before[k]);
                    } else {
                        assert(all[k] == added[k - before.len()]);
                    }
                }
            },
            _ => {},
        }
    }
}

/// Whatever the HTML of a page: its keyword digest holds at most
/// `DIGEST_LIMIT` keywords and none of them twice, and each of them is
/// trimmed and is the trimmed lowercase form of a word of more than three
/// characters.
pub proof fn lemma_page_digest_shape(body: Seq<char>)
    ensures
        page_content(body) matches Some(content) ==> {
            let digest = digest_of(content);
            &&& digest.len() <= DIGEST_LIMIT
            &&& digest.no_duplicates()
            &&& forall|k: int| 0 <= k < digest.len() ==> is_trimmed(#[trigger] digest[k])
            &&& forall|k: int| 0 <= k < digest.len() ==> is_keyword(#[trigger] digest[k])
        },
{
    match page_content(body) {
        Some(content) => {
            let digest = digest_of(content);
            lemma_digest_shape(content);
            lemma_page_content(body, page_selectors());
            assert forall|k: int| 0 <= k < digest.len() implies is_trimmed(#[trigger] digest[k])
                && is_keyword(digest[k]) by {
                assert(content.contains(digest[k]));
                let m = choose|m: int| 0 <= m < content.len() && content[m] == digest[k];
                assert(is_keyword(content[m]));
            }
        },
        None => {},
    }
}

} // verus!

//! The result logs: the rows that record what became of a domain, the text
//! of a log, and the check that skips domains that a log already mentions.

use crate::text::{chars_of, contains_chars, occurs_at, occurs_in, string_of, string_views};
use vstd::prelude::*;
use vstd::string::StringExecFns;

verus! {

/// The file of the log of successes.
pub const SUCCESS_LOG: &'static str = "categories.csv";

/// The file of the log of failures.
pub const FAILURE_LOG: &'static str = "failures.txt";

/// How many rows may wait for the writer of a log.
pub const QUEUE_CAPACITY: usize = 32;

/// A classification: a domain and the category label it was given.
#[derive(Debug, PartialEq, Eq)]
pub struct Domain {
    pub domain: String,
    pub category: String,
}

/// A classification as a pair of character sequences.
pub struct Classification {
    pub domain: Seq<char>,
    pub category: Seq<char>,
}

impl View for Domain {
    type V = Classification;

    open spec fn view(&self) -> Classification {
        Classification { domain: self.domain@, category: self.category@ }
    }
}

/// The row for a classification in the log of successes: the domain, a
/// comma, the category. Neither field is escaped.
pub open spec fn success_row(c: Classification) -> Seq<char> {
    c.domain + seq![','] + c.category
}

/// The row for a domain in the log of failures: the bare domain.
pub open spec fn failure_row(domain: Seq<char>) -> Seq<char> {
    domain
}

/// What a log gains when a row is recorded: the row and a line feed.
pub open spec fn entry(row: Seq<char>) -> Seq<char> {
    row + seq!['\n']
}

/// The number of line feeds in `text`.
pub open spec fn line_count(text: Seq<char>) -> nat
    decreases text.len(),
{
    if text.len() == 0 {
        0
    } else {
        line_count(text.drop_last()) + if text.last() == '\n' {
            1nat
        } else {
            0nat
        }
    }
}

/// The row for `c` in the log of successes.
pub fn success_line(c: &Domain) -> (row: String)
    ensures
        row@ == success_row(c@),
{
    proof {
        reveal_strlit(",");
        assert(","@ == seq![',']);
    }
    let mut row = String::from_str(c.domain.as_str());
    row.append(",");
    row.append(c.category.as_str());
    row
}

/// The row for `domain` in the log of failures.
pub fn failure_line(domain: &str) -> (row: String)
    ensures
        row@ == failure_row(domain@),
{
    String::from_str(domain)
}

/// What is appended to a log to record `row`.
pub fn log_entry(row: &str) -> (text: String)
    ensures
        text@ == entry(row@),
{
    proof {
        reveal_strlit("\n");
        assert("\n"@ == seq!['\n']);
    }
    let mut text = String::from_str(row);
    text.append("\n");
    text
}

/// The text of a result log: rows, each followed by a line feed. A log
/// only grows.
pub struct ResultLog {
    chars: Vec<char>,
}

impl View for ResultLog {
    type V = Seq<char>;

    closed spec fn view(&self) -> Seq<char> {
        self.chars@
    }
}

impl ResultLog {
    /// The log before anything was recorded.
    pub fn new() -> (log: ResultLog)
        ensures
            log@ == Seq::<char>::empty(),
    {
        ResultLog { chars: Vec::new() }
    }

    /// The log whose text so far is `text`.
    pub fn from_text(text: &str) -> (log: ResultLog)
        ensures
            log@ == text@,
    {
        ResultLog { chars: chars_of(text) }
    }

    /// The text of the log.
    pub fn text(&self) -> (text: String)
        ensures
            text@ == self@,
    {
        string_of(&self.chars)
    }

    /// Appends the entry for `row`.
    fn record(&mut self, row: &str)
        ensures
            final(self)@ == old(self)@ + entry(row@),
    {
        let mut added = chars_of(row);
        added.push('\n');
        self.chars.append(&mut added);
    }

    /// Records the classification `c`. The log gains one entry, whatever
    /// it held before.
    pub fn record_success(&mut self, c: &Domain)
        ensures
            final(self)@ == old(self)@ + entry(success_row(c@)),
    {
        let row = success_line(c);
        self.record(row.as_str());
    }

    /// Records that `domain` could not be classified. The log gains one
    /// entry, whatever it held before.
    pub fn record_failure(&mut self, domain: &str)
        ensures
            final(self)@ == old(self)@ + entry(failure_row(domain@)),
    {
        let row = failure_line(domain);
        self.record(row.as_str());
    }

    /// Whether the text of the log holds `domain` anywhere, as a substring.
    pub fn mentions(&self, domain: &str) -> (found: bool)
        ensures
            found == occurs_in(self@, domain@),
    {
        contains_chars(&self.chars, &chars_of(domain))
    }

    /// The domains among `domains` that the log does not mention, in their
    /// order.
    pub fn unseen(&self, domains: Vec<String>) -> (pending: Vec<String>)
        ensures
            string_views(pending@) == not_mentioned(string_views(domains@), self@),
    {
        let ghost all = string_views(domains@);
        let mut pending: Vec<String> = Vec::new();
        let mut i: usize = 0;
        while i < domains.len()
            invariant
                all == string_views(domains@),
                i <= domains.len(),
                string_views(pending@) == not_mentioned(all.take(i as int), self@),
            decreases domains.len() - i,
        {
            proof {
                assert(all.take(i + 1).drop_last() == all.take(i as int));
            }
            if !self.mentions(domains[i].as_str()) {
                let domain = domains[i].clone();
                proof {
                    assert(string_views(pending@.push(domain)) == string_views(pending@).push(
                        domain@,
                    ));
                }
                pending.push(domain);
            }
            i = i + 1;
        }
        proof {
            assert(all.take(domains.len() as int) == all);
        }
        pending
    }
}

/// The domains among `domains` that are no substring of `log`, in their
/// order.
pub open spec fn not_mentioned(domains: Seq<Seq<char>>, log: Seq<char>) -> Seq<Seq<char>>
    decreases domains.len(),
{
    if domains.len() == 0 {
        Seq::empty()
    } else if occurs_in(log, domains.last()) {
        not_mentioned(domains.drop_last(), log)
    } else {
        not_mentioned(domains.drop_last(), log).push(domains.last())
    }
}

/// The line feeds of two texts put together are those of the one and those
/// of the other.
pub proof fn lemma_line_count_concat(a: Seq<char>, b: Seq<char>)
    ensures
        line_count(a + b) == line_count(a) + line_count(b),
    decreases b.len(),
{
    if b.len() == 0 {
        assert(a + b == a);
    } else {
        lemma_line_count_concat(a, b.drop_last());
        assert((a + b).drop_last() == a + b.drop_last());
    }
}

/// Recording the same row twice leaves two entries: the log holds its old
/// text, then the entry, then the entry again, and has two lines more for
/// a row without a line feed. Nothing is taken out because it is there
/// already.
pub proof fn lemma_recorded_twice(log: Seq<char>, row: Seq<char>)
    ensures
        log + entry(row) + entry(row) == log + (entry(row) + entry(row)),
        line_count(row) == 0 ==> line_count(log + entry(row) + entry(row)) == line_count(log) + 2,
{
    let e = entry(row);
    assert(log + e + e == log + (e + e));
    lemma_line_count_concat(log + e, e);
    lemma_line_count_concat(log, e);
    let feed = seq!['\n'];
    lemma_line_count_concat(row, feed);
    assert(line_count(feed) == 1) by {
        assert(feed.drop_last().len() == 0);
        assert(line_count(feed.drop_last()) == 0);
        assert(feed.last() == '\n');
    }
}

/// Once a classification is recorded, the log mentions its domain, so a
/// later run skips that domain.
pub proof fn lemma_recorded_is_mentioned(log: Seq<char>, c: Classification)
    ensures
        occurs_in(log + entry(success_row(c)), c.domain),
{
    let after = log + entry(success_row(c));
    let at = log.len() as int;
    assert(after.subrange(at, at + c.domain.len()) == c.domain);
    assert(occurs_at(after, c.domain, at));
}

/// A domain that is left to process is one of the domains, and the log
/// does not mention it.
pub proof fn lemma_not_mentioned(domains: Seq<Seq<char>>, log: Seq<char>, domain: Seq<char>)
    requires
        not_mentioned(domains, log).contains(domain),
    ensures
        domains.contains(domain),
        !occurs_in(log, domain),
    decreases domains.len(),
{
    let rest = not_mentioned(domains, log);
    let k = choose|k: int| 0 <= k < rest.len() && rest[k] == domain;
    let front = domains.drop_last();
    let before = not_mentioned(front, log);
    if k < before.len() {
        assert(before[k] == domain);
        lemma_not_mentioned(front, log, domain);
        let i = choose|i: int| 0 <= i < front.len() && front[i] == domain;
        assert(domains[i] == domain);
    } else {
        assert(domains[domains.len() - 1] == domain);
    }
}

/// A domain that was recorded as classified is left out of every later
/// run, whatever was recorded after it.
pub proof fn lemma_recorded_is_skipped(
    log: Seq<char>,
    c: Classification,
    later: Seq<char>,
    domains: Seq<Seq<char>>,
)
    ensures
        !not_mentioned(domains, log + entry(success_row(c)) + later).contains(c.domain),
{
    let after = log + entry(success_row(c)) + later;
    lemma_recorded_is_mentioned(log, c);
    lemma_mention_stays(log + entry(success_row(c)), later, c.domain);
    if not_mentioned(domains, after).contains(c.domain) {
        lemma_not_mentioned(domains, after, c.domain);
    }
}

/// What a log mentions, it still mentions after any further entry.
pub proof fn lemma_mention_stays(log: Seq<char>, added: Seq<char>, domain: Seq<char>)
    requires
        occurs_in(log, domain),
    ensures
        occurs_in(log + added, domain),
{
    let at = choose|i: int| occurs_at(log, domain, i);
    assert((log + added).subrange(at, at + domain.len()) == log.subrange(at, at + domain.len()));
    assert(occurs_at(log + added, domain, at));
}

} // verus!

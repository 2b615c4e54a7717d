//! Classification of internet domains by the text of their home pages.
//!
//! A domain is classified in four steps: its home page is fetched, the
//! text of the page is reduced to a digest of its most frequent keywords,
//! a completion service is asked to name a category for the digest, and
//! the answer is accepted only if it is exactly one of a closed list of
//! labels. What came of each domain is recorded in one of two logs.
//!
//! This library holds the decisions of that pipeline, and leaves the
//! fetching, the asking and the writing to its caller:
//!
//! - `text`: white space, words, trimming, the alphabetical order;
//! - `rank`: the ranking of keywords and the digest;
//! - `scraping`: the keywords of an HTML page;
//! - `categories`: the category labels;
//! - `classify`: the prompt and the validation of an answer;
//! - `sink`: the rows and the text of the logs, and what a log mentions;
//! - `domains`: the set of domains to classify;
//! - `pipeline`: the order of processing and the batches;
//! - `workflow`: the workflow of one domain as a state machine;
//! - `llm`: the request to the completion service and its answer;
//! - `failure`: the ways in which a classification can fail.

pub mod categories;
pub mod classify;
pub mod domains;
pub mod failure;
pub mod llm;
pub mod pipeline;
pub mod rank;
pub mod scraping;
pub mod sink;
pub mod text;
pub mod workflow;

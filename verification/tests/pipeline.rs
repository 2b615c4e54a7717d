use categorize::domains::normalize_domains;
use categorize::llm::{assemble_response, completion_request, COMPLETION_ENDPOINT};
use categorize::pipeline::{processing_order, Orchestrator, BATCH_SIZE};
use categorize::sink::ResultLog;

fn strings(words: &[&str]) -> Vec<String> {
    words.iter().map(|w| w.to_string()).collect()
}

fn numbered(n: usize) -> Vec<String> {
    (0..n).map(|i| format!("host{:03}.test", i)).collect()
}

#[test]
fn domains_are_lowered_trimmed_sorted_and_distinct() {
    let raw = strings(&[" Example.COM ", "b.org", "example.com", "", "  ", "A.net", "b.org\n"]);
    assert_eq!(normalize_domains(&raw), strings(&["a.net", "b.org", "example.com"]));
}

#[test]
fn no_names_give_no_domains() {
    assert!(normalize_domains(&Vec::new()).is_empty());
    assert!(normalize_domains(&strings(&["", " "])).is_empty());
}

#[test]
fn the_order_is_a_permutation() {
    let domains = numbered(60);
    let mut order = processing_order(domains.clone(), &ResultLog::new());
    assert_eq!(order.len(), 60);
    order.sort();
    assert_eq!(order, domains);
}

#[test]
fn the_order_is_shuffled() {
    let domains = numbered(60);
    let first = processing_order(domains.clone(), &ResultLog::new());
    let second = processing_order(domains.clone(), &ResultLog::new());
    assert!(first != domains || second != domains);
}

#[test]
fn the_order_leaves_out_what_the_log_mentions() {
    let log = ResultLog::from_text("host003.test,Retail\nhost017.test,News\n");
    let mut order = processing_order(numbered(20), &log);
    order.sort();
    let expected: Vec<String> =
        numbered(20).into_iter().filter(|d| d != "host003.test" && d != "host017.test").collect();
    assert_eq!(order, expected);
}

#[test]
fn batches_hold_at_most_thirty_two() {
    assert_eq!(BATCH_SIZE, 32);
    let domains = numbered(70);
    let mut run = Orchestrator::new(domains.clone());
    let mut seen = Vec::new();
    let mut sizes = Vec::new();
    while !run.is_done() {
        let batch = run.start_batch();
        assert!(batch.len() <= 32);
        assert_eq!(run.running(), batch.len());
        sizes.push(batch.len());
        for domain in batch {
            assert!(run.running() <= 32);
            seen.push(domain);
            run.finish_one();
        }
        assert_eq!(run.running(), 0);
    }
    assert_eq!(sizes, vec![32, 32, 6]);
    assert_eq!(seen, domains);
}

#[test]
fn no_batch_starts_while_one_is_in_progress() {
    let mut run = Orchestrator::new(numbered(40));
    let first = run.start_batch();
    assert_eq!(first.len(), 32);
    assert!(run.start_batch().is_empty());
    assert_eq!(run.running(), 32);
    for _ in 0..31 {
        run.finish_one();
    }
    assert!(run.start_batch().is_empty());
    assert_eq!(run.running(), 1);
    run.finish_one();
    let second = run.start_batch();
    assert_eq!(second, numbered(40)[32..].to_vec());
    assert_eq!(run.running(), 8);
}

#[test]
fn a_run_of_nothing_is_done() {
    let mut run = Orchestrator::new(Vec::new());
    assert!(run.is_done());
    assert!(run.start_batch().is_empty());
    run.finish_one();
    assert_eq!(run.running(), 0);
    assert!(run.is_done());
}

#[test]
fn a_full_batch_is_exactly_thirty_two() {
    let mut run = Orchestrator::new(numbered(32));
    assert_eq!(run.start_batch().len(), 32);
    for _ in 0..32 {
        run.finish_one();
    }
    assert!(run.is_done());
}

#[test]
fn the_request_names_the_model() {
    let request = completion_request("What is this?");
    assert_eq!(request.model, "llama3.1");
    assert_eq!(request.prompt, "What is this?");
    assert_eq!(COMPLETION_ENDPOINT, "http://localhost:11434/api/generate");
}

#[test]
fn the_answer_is_its_pieces_in_order() {
    assert_eq!(assemble_response(&strings(&["Tech", "no", "", "logy"])), "Technology");
    assert_eq!(assemble_response(&Vec::new()), "");
}

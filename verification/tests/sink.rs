use categorize::sink::{
    failure_line, log_entry, success_line, Domain, ResultLog, FAILURE_LOG, QUEUE_CAPACITY,
    SUCCESS_LOG,
};

fn classification(domain: &str, category: &str) -> Domain {
    Domain { domain: domain.to_string(), category: category.to_string() }
}

fn strings(words: &[&str]) -> Vec<String> {
    words.iter().map(|w| w.to_string()).collect()
}

#[test]
fn success_line_is_domain_comma_category() {
    let c = classification("example.com", "Technology");
    assert_eq!(success_line(&c), "example.com,Technology");
}

#[test]
fn success_line_escapes_nothing() {
    let c = classification("a,b", "Media/Entertainment");
    assert_eq!(success_line(&c), "a,b,Media/Entertainment");
}

#[test]
fn failure_line_is_the_bare_domain() {
    assert_eq!(failure_line("deadhost.test"), "deadhost.test");
}

#[test]
fn log_entry_ends_with_a_line_feed() {
    assert_eq!(log_entry("example.com,Technology"), "example.com,Technology\n");
    assert_eq!(log_entry(""), "\n");
}

#[test]
fn the_logs_have_their_files() {
    assert_eq!(SUCCESS_LOG, "categories.csv");
    assert_eq!(FAILURE_LOG, "failures.txt");
    assert_eq!(QUEUE_CAPACITY, 32);
}

#[test]
fn a_new_log_is_empty() {
    assert_eq!(ResultLog::new().text(), "");
}

#[test]
fn a_log_keeps_its_text() {
    let log = ResultLog::from_text("seen.test,Retail\n");
    assert_eq!(log.text(), "seen.test,Retail\n");
}

#[test]
fn recording_appends_one_line() {
    let mut log = ResultLog::from_text("seen.test,Retail\n");
    log.record_success(&classification("example.com", "Technology"));
    assert_eq!(log.text(), "seen.test,Retail\nexample.com,Technology\n");
    let mut failures = ResultLog::new();
    failures.record_failure("deadhost.test");
    assert_eq!(failures.text(), "deadhost.test\n");
}

#[test]
fn recording_twice_leaves_two_lines() {
    let mut log = ResultLog::new();
    let c = classification("example.com", "Technology");
    log.record_success(&c);
    log.record_success(&c);
    assert_eq!(log.text(), "example.com,Technology\nexample.com,Technology\n");
    assert_eq!(log.text().lines().count(), 2);
    let mut failures = ResultLog::new();
    failures.record_failure("deadhost.test");
    failures.record_failure("deadhost.test");
    assert_eq!(failures.text(), "deadhost.test\ndeadhost.test\n");
    assert_eq!(failures.text().lines().count(), 2);
}

#[test]
fn a_log_mentions_what_it_holds_anywhere() {
    let log = ResultLog::from_text("seen.test,Retail\nshop.example.org,Retail\n");
    assert!(log.mentions("seen.test"));
    assert!(log.mentions("shop.example.org"));
    assert!(log.mentions("example.org"));
    assert!(log.mentions("Retail"));
    assert!(log.mentions(""));
    assert!(!log.mentions("new.test"));
    assert!(!log.mentions("seen.tests"));
}

#[test]
fn a_recorded_domain_is_mentioned() {
    let mut log = ResultLog::new();
    assert!(!log.mentions("example.com"));
    log.record_success(&classification("example.com", "Technology"));
    assert!(log.mentions("example.com"));
    log.record_success(&classification("other.test", "News"));
    assert!(log.mentions("example.com"));
}

#[test]
fn unseen_keeps_the_order_of_the_rest() {
    let log = ResultLog::from_text("seen.test,Retail\nb.test,News\n");
    let domains = strings(&["z.test", "seen.test", "a.test", "b.test", "z.test"]);
    assert_eq!(log.unseen(domains), strings(&["z.test", "a.test", "z.test"]));
}

#[test]
fn unseen_of_an_empty_log_is_everything() {
    let domains = strings(&["one.test", "two.test"]);
    assert_eq!(ResultLog::new().unseen(domains.clone()), domains);
}

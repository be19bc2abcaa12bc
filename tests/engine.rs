use site_mirror::config::CrawlerConfig;
use site_mirror::engine::{build_page, CrawlEngine, Watchdog};
use site_mirror::models::WorkerStats;
use site_mirror::extraction::HtmlProcessor;
use site_mirror::fetch_policy::{next_action, Attempt, RetryAction};

fn config(base: &str, max_depth: usize, domains: Vec<String>) -> CrawlerConfig {
    CrawlerConfig {
        base_url: base.to_string(),
        worker_count: 2,
        max_depth,
        user_agent: "test".to_string(),
        allowed_domains: domains,
    }
}

#[test]
fn two_page_cycle_dispatches_each_url_once() {
    let mut e = CrawlEngine::new(config("http://h/", 5, vec![]));
    assert_eq!(e.next_job(), Some(("http://h/".to_string(), 0)));
    e.finish_job(0, &vec!["http://h/a".to_string(), "http://h/".to_string()]);
    assert_eq!(e.next_job(), Some(("http://h/a".to_string(), 1)));
    e.finish_job(1, &vec!["http://h/".to_string()]);
    assert_eq!(e.next_job(), None);
    assert!(e.is_done());
    assert_eq!(e.visited_count(), 2);
}

#[test]
fn duplicates_in_frontier_are_dispatched_once() {
    let mut e = CrawlEngine::new(config("http://h/", 5, vec![]));
    assert!(e.next_job().is_some());
    e.finish_job(0, &vec!["http://h/b".to_string(), "http://h/b".to_string()]);
    assert_eq!(e.next_job(), Some(("http://h/b".to_string(), 1)));
    assert_eq!(e.next_job(), None);
    assert_eq!(e.active_workers(), 1);
    e.finish_job(1, &vec![]);
    assert!(e.is_done());
}

#[test]
fn depth_bound_stops_children() {
    let mut e = CrawlEngine::new(config("http://h/", 0, vec![]));
    assert!(e.next_job().is_some());
    e.finish_job(0, &vec!["http://h/a".to_string()]);
    assert_eq!(e.next_job(), None);
    assert!(e.is_done());
}

#[test]
fn scope_restriction_rejects_other_hosts() {
    let mut e = CrawlEngine::new(config("http://h/p", 5, vec!["h".to_string()]));
    assert_eq!(e.next_job(), Some(("http://h/p".to_string(), 0)));
    e.finish_job(0, &vec!["http://other/q".to_string()]);
    assert_eq!(e.next_job(), None);
    assert!(e.is_done());
}

#[test]
fn recursive_trap_is_never_enqueued() {
    let mut e = CrawlEngine::new(config("http://h/", 9, vec![]));
    assert!(e.next_job().is_some());
    e.finish_job(0, &vec!["http://h/a/a/a/a/a/a/a/".to_string()]);
    assert_eq!(e.next_job(), None);
}

#[test]
fn workers_bound_dispatch() {
    let mut e = CrawlEngine::new(config("http://h/", 5, vec![]));
    assert!(e.next_job().is_some());
    e.finish_job(
        0,
        &vec!["http://h/1".to_string(), "http://h/2".to_string(), "http://h/3".to_string()],
    );
    assert!(e.next_job().is_some());
    assert!(e.next_job().is_some());
    assert_eq!(e.next_job(), None);
    assert_eq!(e.active_workers(), 2);
    assert!(!e.is_done());
}

#[test]
fn page_records_by_content_type() {
    let p = HtmlProcessor::new();
    let body = "<html><title>T</title><a href=\"/a\">a</a></html>".to_string();
    let (page, children) = build_page(
        "http://h/",
        200,
        "text/html; charset=utf-8".to_string(),
        Some(10),
        body.clone(),
        &body,
        0,
        &p,
        "h",
        "/",
    );
    assert_eq!(page.title, Some("T".to_string()));
    assert_eq!(page.links, vec!["http://h/a".to_string()]);
    assert_eq!(children, page.links);
    let (img, kids) = build_page(
        "http://h/i.png",
        200,
        "image/png".to_string(),
        None,
        "PNG".to_string(),
        "PNG",
        1,
        &p,
        "h",
        "/",
    );
    assert!(img.links.is_empty());
    assert!(img.title.is_none());
    assert!(kids.is_empty());
    assert_eq!(img.content, "PNG");
}

#[test]
fn retry_backoff_schedule() {
    assert_eq!(next_action(1, Attempt::Failed), RetryAction::Retry(100));
    assert_eq!(next_action(2, Attempt::Failed), RetryAction::Retry(200));
    assert_eq!(next_action(3, Attempt::Failed), RetryAction::GiveUp);
    assert_eq!(next_action(1, Attempt::Response(429)), RetryAction::Retry(1000));
    assert_eq!(next_action(2, Attempt::Response(503)), RetryAction::Retry(2000));
    assert_eq!(next_action(3, Attempt::Response(503)), RetryAction::Accept);
    assert_eq!(next_action(1, Attempt::Response(200)), RetryAction::Accept);
    assert_eq!(next_action(1, Attempt::Response(404)), RetryAction::Accept);
}

#[test]
fn seed_is_canonicalized() {
    let mut e = CrawlEngine::new(config("http://h", 2, vec![]));
    assert_eq!(e.next_job(), Some(("http://h/".to_string(), 0)));
    e.finish_job(0, &vec!["http://h/".to_string()]);
    assert_eq!(e.next_job(), None);
    assert!(e.is_done());
}

#[test]
fn watchdog_trips_after_limit() {
    let mut w = Watchdog::new(2);
    assert!(!w.tick());
    assert!(!w.tick());
    assert!(w.tick());
    w.reset();
    assert!(!w.tick());
}

#[test]
fn worker_counters_saturate() {
    let mut s = WorkerStats::new();
    s.record_page(3, 10);
    s.record_error(5);
    assert_eq!((s.pages_processed, s.errors, s.total_links_found, s.processing_time_ms), (1, 1, 3, 15));
    s.record_page(usize::MAX, u64::MAX);
    assert_eq!(s.total_links_found, usize::MAX);
    assert_eq!(s.processing_time_ms, u64::MAX);
}

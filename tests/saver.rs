use site_mirror::blacklist::Blacklist;
use site_mirror::models::PageInfo;
use site_mirror::rewriter::{LinkRewriter, RewriteValidator, UrlResolver};
use site_mirror::saver::SiteSaver;

fn page(url: &str, ct: &str, links: Vec<&str>, content: &str) -> PageInfo {
    PageInfo {
        url: url.to_string(),
        status_code: 200,
        content_type: ct.to_string(),
        content_length: None,
        title: None,
        links: links.into_iter().map(|s| s.to_string()).collect(),
        content: content.to_string(),
    }
}

#[test]
fn two_page_cycle_is_rewritten() {
    let mut s = SiteSaver::new("out");
    let root = page("http://h/", "text/html", vec!["http://h/a"], "<a href=\"/a\">A</a>");
    let job = s.save_page_from_content(&root, "http://h/").unwrap().unwrap();
    assert_eq!(job.path, "out/h/index.html");
    assert_eq!(job.content, "<a href=\"a/index.html\">A</a>");
    let a = page("http://h/a", "text/html", vec!["http://h/"], "<a href='/'>home</a>");
    let job = s.save_page_from_content(&a, "http://h/").unwrap().unwrap();
    assert_eq!(job.path, "out/h/a/index.html");
    assert_eq!(job.content, "<a href='../index.html'>home</a>");
}

#[test]
fn single_page_body_unchanged() {
    let mut s = SiteSaver::new("out");
    let p = page("http://h/", "text/html", vec![], "<html><title>T</title></html>");
    let job = s.save_page_from_content(&p, "http://h/").unwrap().unwrap();
    assert_eq!(job.path, "out/h/index.html");
    assert_eq!(job.content, "<html><title>T</title></html>");
}

#[test]
fn assets_are_saved_verbatim() {
    let mut s = SiteSaver::new("out/");
    let p = page("http://h/i.png", "image/png", vec![], "\u{89}PNG");
    let job = s.save_page_from_content(&p, "http://h/").unwrap().unwrap();
    assert_eq!(job.path, "out/h/i.png");
    assert_eq!(job.content, "\u{89}PNG");
}

#[test]
fn map_rules_and_stability() {
    let mut s = SiteSaver::new("out");
    assert_eq!(
        s.map_source_url_to_target_path("http://h/docs/v1", "out/h"),
        Some("out/h/docs/v1/index.html".to_string())
    );
    assert_eq!(
        s.map_source_url_to_target_path("http://h/docs/v1/#top", "elsewhere"),
        Some("out/h/docs/v1/index.html".to_string())
    );
    assert_eq!(
        s.map_source_url_to_target_path("http://h/css/site.css", "out/h"),
        Some("out/h/css/site.css".to_string())
    );
    assert_eq!(s.map_source_url_to_target_path("http://h/run.exe", "out/h"), None);
    assert_eq!(
        s.map_source_url_to_target_path("http://h/v1.2/", "out/h"),
        Some("out/h/v1.2/index.html".to_string())
    );
    assert_eq!(s.url_to_path().len(), 3);
}

#[test]
fn bad_base_url_is_an_error() {
    let mut s = SiteSaver::new("out");
    let p = page("http://h/", "text/html", vec![], "");
    assert!(s.save_page_from_content(&p, "not a url").is_err());
    assert!(s.save_page_from_content(&p, "mailto:x@y").is_err());
}

#[test]
fn unmappable_page_is_skipped() {
    let mut s = SiteSaver::new("out");
    let p = page("http://h/x.exe", "application/octet-stream", vec![], "");
    assert!(s.save_page_from_content(&p, "http://h/").unwrap().is_none());
}

#[test]
fn rewriter_keeps_foreign_and_unmapped_values() {
    let entries = vec![
        ("http://h/".to_string(), "out/h/index.html".to_string()),
        ("http://h/s.css".to_string(), "out/h/s.css".to_string()),
    ];
    let r = LinkRewriter::new();
    let body = "<link href=\"/s.css\"><a href=\"http://other/s.css\">o</a><a href=\"#t\">t</a><img src='/none.png'>";
    let out = r.rewrite_links("http://h/", body, &entries);
    assert_eq!(
        out,
        "<link href=\"s.css\"><a href=\"http://other/s.css\">o</a><a href=\"#t\">t</a><img src='/none.png'>"
    );
    assert_eq!(r.rewrite_links("http://unmapped/", body, &entries), body);
}

#[test]
fn rewrite_validator_rules() {
    let host = Some("h".to_string());
    assert!(RewriteValidator::should_rewrite_url("/x", &host));
    assert!(RewriteValidator::should_rewrite_url("http://h/x", &host));
    assert!(!RewriteValidator::should_rewrite_url("https://o/x", &host));
    assert!(!RewriteValidator::should_rewrite_url("  ", &host));
    assert!(!RewriteValidator::should_rewrite_url("#a", &host));
    assert!(!RewriteValidator::should_rewrite_url("tel:1", &host));
}

#[test]
fn blacklist_lists_and_patterns() {
    let bl = Blacklist::with_data(
        vec!["ads.example".to_string()],
        vec!["http://h/exact".to_string()],
        vec!["track(ing)?".to_string(), "(".to_string()],
    );
    assert!(bl.is_blacklisted("http://x.ads.example/t"));
    assert!(bl.is_blacklisted("http://h/exact"));
    assert!(bl.is_blacklisted("http://h/tracking/1"));
    assert!(!bl.is_blacklisted("http://h/ok"));
    assert!(!Blacklist::new().is_blacklisted("http://x.ads.example/t"));
}

#[test]
fn resolver_joins_and_finds_paths() {
    let r = UrlResolver::new();
    assert_eq!(r.resolve_and_normalize("http://h/a/", "b/?y=1&x=2#f"), Some("http://h/a/b?x=2&y=1".to_string()));
    assert_eq!(r.resolve_and_normalize("nope", "b"), None);
    let entries = vec![("http://h/a".to_string(), "out/h/a/index.html".to_string())];
    assert_eq!(r.find_current_path("http://h/a/", &entries), Some("out/h/a/index.html".to_string()));
    assert_eq!(r.find_current_path("http://h/b", &entries), None);
}

#[test]
fn every_valid_link_is_mapped_before_rewrite() {
    let mut s = SiteSaver::new("m");
    let p = page(
        "http://h/dir/page",
        "text/html",
        vec!["http://h/x.css", "http://h/y", "http://h/bad.exe", "http://other/z.js"],
        "<link href=\"/x.css\"><a href=\"../y\">y</a>",
    );
    let job = s.save_page_from_content(&p, "http://h/").unwrap().unwrap();
    let keys: Vec<String> = s.url_to_path().iter().map(|e| e.0.clone()).collect();
    for k in ["http://h/dir/page", "http://h/x.css", "http://h/y", "http://other/z.js"] {
        assert!(keys.contains(&k.to_string()), "{} not mapped", k);
    }
    assert!(!keys.contains(&"http://h/bad.exe".to_string()));
    assert_eq!(job.path, "m/h/dir/page/index.html");
    assert_eq!(job.content, "<link href=\"../../x.css\"><a href=\"../../y/index.html\">y</a>");
}

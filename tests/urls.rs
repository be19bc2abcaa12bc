use site_mirror::path_calc::PathCalculator;
use site_mirror::url_parser::{is_scope, StandardUrlParser, UrlParser};
use site_mirror::urls::canonicalize;

#[test]
fn canonical_form_drops_fragment_and_sorts_query() {
    assert_eq!(canonicalize("http://h/a/?b=2&a=1#frag"), "http://h/a?a=1&b=2");
    assert_eq!(canonicalize("http://h//x///y/"), "http://h/x/y");
    assert_eq!(canonicalize("http://h"), "http://h/");
    assert_eq!(canonicalize("http://h:8080/p"), "http://h:8080/p");
    assert_eq!(canonicalize("http://h:80/p"), "http://h/p");
    assert_eq!(canonicalize("not a url"), "not a url");
    assert_eq!(canonicalize("mailto:a@b.c"), "mailto:a@b.c");
    assert_eq!(canonicalize("http://u@h/x/"), "http://u@h/x");
}

#[test]
fn canonical_form_is_idempotent_on_samples() {
    for u in [
        "http://h/a/?b=2&a=1#frag",
        "https://Example.COM//x//y/?z=1&a=2&a=1",
        "http://h/",
        "http://h:8080/a/b/",
        "relative/path",
        "mailto:a@b.c",
        "http://user:pw@h:8080/x//y/?b&a=1",
    ] {
        let once = canonicalize(u);
        assert_eq!(canonicalize(&once), once);
    }
}

#[test]
fn resolve_joins_and_canonicalizes() {
    let p = StandardUrlParser;
    assert_eq!(p.resolve_url("http://h/a/b", "../c/"), Some("http://h/c".to_string()));
    assert_eq!(p.resolve_url("http://h/", "//other/x#y"), Some("http://other/x".to_string()));
    assert_eq!(p.resolve_url("http://h/", ""), None);
    assert_eq!(p.resolve_url("http://h/", "#top"), None);
    assert_eq!(p.resolve_url("http://h/", "mailto:a@b"), None);
    assert_eq!(p.resolve_url("http://h/", "tel:123"), None);
    assert_eq!(p.resolve_url("http://h/", "ftp://f/x"), None);
    assert_eq!(p.resolve_url("http://h/", "/{{x}}"), None);
    assert_eq!(p.resolve_url("not a base", "x"), None);
}

#[test]
fn event_handlers_and_invalid_patterns() {
    let p = StandardUrlParser;
    assert!(p.is_event_handler("javascript:void(0)"));
    assert!(p.is_event_handler("data:image/png;base64,AA"));
    assert!(p.is_event_handler("a:b;c"));
    assert!(p.is_event_handler("doThing(1)"));
    assert!(!p.is_event_handler("/page"));
    assert!(!p.is_event_handler(")("));
    assert!(p.is_event_handler("x(y)"));
    assert!(p.is_invalid_url_pattern("{{ url }}"));
    assert!(p.is_invalid_url_pattern("#x"));
    assert!(!p.is_invalid_url_pattern("/x"));
}

#[test]
fn recursive_path_traps() {
    let p = StandardUrlParser;
    assert!(p.is_recursive_url("http://h/a/a/a/a/a/a/a/"));
    assert!(p.is_recursive_url("http://h/x///y"));
    assert!(p.is_recursive_url("http://h/x%2f%2Fy"));
    assert!(p.is_recursive_url("http://h/../../../../x"));
    assert!(p.is_recursive_url("http://h/a/b/a/c/a"));
    assert!(p.is_recursive_url("http://h/a/b/c/d/e"));
    assert!(!p.is_recursive_url("http://h/a/b/c"));
    assert!(!p.is_recursive_url("http://h/a/b/c/./d"));
    assert!(!p.is_recursive_url("http://h/a/b/c/d/"));
    let long_host = format!("http://{}.com/a/b/c/d/e", "x".repeat(60));
    assert!(p.is_recursive_url(&long_host));
    assert!(p.is_recursive_url("http://h/a//b//c/"));
    assert!(!p.is_recursive_url("http://h/"));
}

#[test]
fn scope_patterns() {
    let none: Vec<String> = vec![];
    assert!(is_scope("http://other/q", &none));
    let hosts = vec!["h".to_string()];
    assert!(is_scope("http://h/p", &hosts));
    assert!(!is_scope("http://other/q", &hosts));
    let wild = vec!["*.example.com".to_string()];
    assert!(is_scope("http://example.com/", &wild));
    assert!(is_scope("http://a.b.example.com/", &wild));
    assert!(!is_scope("http://badexample.com/", &wild));
    assert!(!is_scope("not a url", &wild));
}

#[test]
fn relative_paths_between_mirror_files() {
    assert_eq!(
        PathCalculator::calculate_relative_path("out/h/index.html", "out/h/a/index.html"),
        "a/index.html"
    );
    assert_eq!(
        PathCalculator::calculate_relative_path("out/h/a/index.html", "out/h/index.html"),
        "../index.html"
    );
    assert_eq!(
        PathCalculator::calculate_relative_path("/m/h/x/y/p.html", "/m/h/z/q.css"),
        "../../z/q.css"
    );
    assert_eq!(PathCalculator::calculate_relative_path("out/h/a.html", "out/h/b.html"), "b.html");
    assert_eq!(PathCalculator::calculate_relative_path("/", "out/h/b.html"), "out/h/b.html");
}

#[test]
fn hosts_of_urls() {
    assert_eq!(site_mirror::urls::url_host("http://Example.com:8080/x"), Some("example.com".to_string()));
    assert_eq!(site_mirror::urls::url_host("mailto:a@b"), None);
    assert_eq!(site_mirror::urls::url_host("nope"), None);
}

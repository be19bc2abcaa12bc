use site_mirror::blacklist::Blacklist;
use site_mirror::css::extract_css_urls;
use site_mirror::extraction::{
    ExtractionContext, HtmlPreprocessor, HtmlProcessor, SimpleResource, SimpleResourceExtractor,
};

#[test]
fn test_extraction_context() {
    let ctx = ExtractionContext::new("https://example.com", 1, "example.com", "/");
    assert_eq!(ctx.base_url, "https://example.com");
    assert_eq!(ctx.depth, 1);
}

#[test]
fn test_simple_resource_creation() {
    let resource = SimpleResource::new("https://example.com".to_string(), 1);
    assert_eq!(resource.url, "https://example.com");
    assert_eq!(resource.depth, 1);
}

fn chars(s: &str) -> Vec<char> {
    s.chars().collect()
}

#[test]
fn single_page_without_links_has_title() {
    let p = HtmlProcessor::new();
    let (links, title, new_urls) =
        p.process("http://h/", "<html><title>T</title></html>", 1, "h", "/");
    assert!(links.is_empty());
    assert_eq!(title, Some("T".to_string()));
    assert!(new_urls.is_empty());
}

#[test]
fn css_discovered_asset_is_extracted() {
    let p = HtmlProcessor::new();
    let html = "<html><head><style>.x{background:url('/i.png')}</style></head><body></body></html>";
    let (links, _title, new_urls) = p.process("http://h/", html, 1, "h", "/");
    assert_eq!(links, vec!["http://h/i.png".to_string()]);
    assert_eq!(new_urls, vec![("http://h/i.png".to_string(), 1)]);
}

#[test]
fn links_follow_selector_table_without_repeats() {
    let p = HtmlProcessor::new();
    let html = "<a href=\"/b\">1</a><img src=\"/c.png\"><a href=\"/a\">2</a><a href=\"/b#x\">3</a>";
    let (links, _, _) = p.process("http://h/", html, 2, "h", "/");
    assert_eq!(
        links,
        vec!["http://h/b".to_string(), "http://h/a".to_string(), "http://h/c.png".to_string()]
    );
}

#[test]
fn blacklisted_suffix_is_not_extracted() {
    let bl = Blacklist::with_data(vec!["ads.example".to_string()], vec![], vec![]);
    let p = HtmlProcessor::with_blacklist(bl);
    let html = "<a href=\"http://x.ads.example/t\">ad</a><a href=\"/ok\">ok</a>";
    let (links, _, _) = p.process("http://h/", html, 1, "h", "/");
    assert_eq!(links, vec!["http://h/ok".to_string()]);
}

#[test]
fn script_values_and_bad_extensions_are_rejected() {
    let p = HtmlProcessor::new();
    let html = "<a href=\"javascript:void(0)\">x</a><a href=\"mailto:a@b\">m</a><a href=\"/f.exe\">e</a><a href=\"{{x}}\">t</a>";
    let (links, _, _) = p.process("http://h/", html, 1, "h", "/");
    assert!(links.is_empty());
}

#[test]
fn srcset_and_inline_style_are_mined() {
    let p = HtmlProcessor::new();
    let html = "<img srcset=\"/a.png 1x, /b.png 2x\"><div style=\"background: url(/c.gif)\"></div>";
    let (links, _, _) = p.process("http://h/p/", html, 1, "h", "/");
    assert_eq!(
        links,
        vec![
            "http://h/a.png".to_string(),
            "http://h/b.png".to_string(),
            "http://h/c.gif".to_string()
        ]
    );
}

#[test]
fn base_href_overrides_page_url() {
    let p = HtmlProcessor::new();
    let html = "<html><head><base href=\"http://h/sub/\"></head><body><a href=\"x.html\">x</a></body></html>";
    let (links, _, _) = p.process("http://h/", html, 1, "h", "/");
    assert_eq!(links, vec!["http://h/sub/x.html".to_string()]);
}

#[test]
fn extractor_sets_child_depth() {
    let e = SimpleResourceExtractor::new();
    let bl = Blacklist::new();
    let r = e.extract_resources("<a href=\"/q\">q</a>", "http://h/", 3, "h", "/", &bl);
    assert_eq!(r.len(), 1);
    assert_eq!(r[0].url, "http://h/q");
    assert_eq!(r[0].depth, 3);
}

#[test]
fn css_scanner_captures_quoted_and_bare_urls() {
    let got = extract_css_urls("a{b:url( \"x.png\" )} c{d:url(y.css)} e{f:url()}");
    assert_eq!(got, vec![chars("x.png"), chars("y.css")]);
    assert!(extract_css_urls("no urls here").is_empty());
    assert!(extract_css_urls("url(").is_empty());
}

#[test]
fn preprocessor_drops_unsafe_hrefs() {
    let p = HtmlPreprocessor::new();
    assert!(p.should_remove_href("   "));
    assert!(p.should_remove_href(""));
    assert!(p.should_remove_href("  javascript:alert(1)"));
    assert!(p.should_remove_href("data:text/plain,hi"));
    assert!(!p.should_remove_href("/page"));
    assert!(!p.should_remove_href("http://h/javascript:x"));
}

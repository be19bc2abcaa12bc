use site_mirror::validation::ResourceValidator;

#[test]
fn test_valid_urls() {
    assert!(ResourceValidator::is_valid_resource_url("https://example.com/page.html"));
    assert!(ResourceValidator::is_valid_resource_url("/static/style.css"));
    assert!(ResourceValidator::is_valid_resource_url("image.jpg"));
}

#[test]
fn test_invalid_urls() {
    assert!(!ResourceValidator::is_valid_resource_url(""));
    assert!(!ResourceValidator::is_valid_resource_url("javascript:void(0)"));
    assert!(!ResourceValidator::is_valid_resource_url("/path/with/''"));
    assert!(!ResourceValidator::is_valid_resource_url("/.hidden/file.html"));
}

#[test]
fn well_known_and_extension_rules() {
    assert!(ResourceValidator::is_valid_resource_url("http://h/.well-known/security.txt"));
    assert!(ResourceValidator::is_valid_resource_url("http://h/docs/intro"));
    assert!(ResourceValidator::is_valid_resource_url("http://h/IMG.PNG"));
    assert!(!ResourceValidator::is_valid_resource_url("http://h/setup.exe"));
    assert!(!ResourceValidator::is_valid_resource_url("http://h/a;b"));
    assert!(!ResourceValidator::is_valid_resource_url("   "));
    assert!(!ResourceValidator::is_valid_resource_url("a b.html"));
    assert!(ResourceValidator::is_valid_resource_url("http://h/a b.html"));
}

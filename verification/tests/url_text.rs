use nimble::url::{resolve_url, validate_text};

// ── resolve_url ────────────────────────────────────────────────────────────

#[test]
fn bare_string_rejected() {
    assert!(resolve_url("google.com".into(), None).is_err());
}

#[test]
fn accepts_https() {
    assert!(resolve_url("https://example.com".into(), None).is_ok());
}

#[test]
fn accepts_http() {
    assert!(resolve_url("http://example.com".into(), None).is_ok());
}

#[test]
fn accepts_deep_link() {
    assert!(resolve_url("slack://open".into(), None).is_ok());
}

#[test]
fn accepts_mailto() {
    assert!(resolve_url("mailto:a@b.com".into(), None).is_ok());
}

#[test]
fn param_substitution_encodes_spaces() {
    let r = resolve_url(
        "https://g.com/search?q={param}".into(),
        Some("hello world".into()),
    )
    .unwrap();
    assert_eq!(r, "https://g.com/search?q=hello+world");
}

#[test]
fn param_substitution_encodes_special_chars() {
    let r = resolve_url("https://g.com/search?q={param}".into(), Some("a&b".into())).unwrap();
    assert!(r.contains("%26"), "expected %26 in {r}");
}

#[test]
fn url_without_placeholder_ignores_param() {
    let r = resolve_url("https://example.com".into(), Some("ignored".into())).unwrap();
    assert_eq!(r, "https://example.com");
}

// ── validate_text ──────────────────────────────────────────────────────────

#[test]
fn nul_byte_rejected() {
    assert!(validate_text("hello\0world").is_err());
}

#[test]
fn plain_text_accepted() {
    assert!(validate_text("Hello, world!").is_ok());
}

#[test]
fn empty_string_accepted() {
    assert!(validate_text("").is_ok());
}

#[test]
fn param_encoding_uses_utf8_bytes() {
    let r = resolve_url("https://x/?q={param}".into(), Some("é ~a/b".into())).unwrap();
    assert_eq!(r, "https://x/?q=%C3%A9+~a%2Fb");
}

#[test]
fn every_placeholder_is_replaced() {
    let r = resolve_url("x:{param}/{param}{param".into(), Some("1".into())).unwrap();
    assert_eq!(r, "x:1/1{param");
}

#[test]
fn rejected_url_error_quotes_url() {
    assert_eq!(
        resolve_url("{param}".into(), Some("1a:b".into())).err().unwrap(),
        "Rejected URL with missing or invalid scheme: 1a%3Ab"
    );
    assert!(resolve_url(":x".into(), None).is_err());
    assert!(resolve_url("a b:x".into(), None).is_err());
    assert!(resolve_url("x+y-z.w:rest".into(), None).is_ok());
}

#[test]
fn nul_error_message() {
    assert_eq!(validate_text("\0").err().unwrap(), "Text must not contain NUL bytes");
}

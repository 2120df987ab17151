use har_viewer::filter::{status_class_of, FilterQuery};
use har_viewer::har::EntrySummary;

fn summary(method: &str, host: &str, path: &str, status: u16, mime: &str) -> EntrySummary {
    EntrySummary {
        id: 0,
        started_at: "2025-01-01T00:00:00.000Z".to_string(),
        method: method.to_string(),
        host: host.to_string(),
        path: path.to_string(),
        status,
        mime: mime.to_string(),
        req_bytes: 0,
        res_bytes: 0,
        duration_ms_bits: 0,
    }
}

#[test]
fn default_filter_accepts_everything() {
    let q = FilterQuery::default();
    assert!(q.matches(&summary("GET", "a.test", "/", 200, "text/html")));
    assert!(q.matches(&summary("", "", "", 0, "")));
}

#[test]
fn method_matches_ignoring_ascii_case() {
    let s = summary("POST", "a.test", "/", 200, "text/html");
    let mut q = FilterQuery::default();
    q.method = Some("post".to_string());
    assert!(q.matches(&s));
    q.method = Some("GET".to_string());
    assert!(!q.matches(&s));
    q.method = Some(String::new());
    assert!(q.matches(&s));
}

#[test]
fn status_class_is_the_hundreds_digit() {
    let s = summary("GET", "a.test", "/", 404, "text/html");
    let mut q = FilterQuery::default();
    q.status_class = Some(4);
    assert!(q.matches(&s));
    q.status_class = Some(2);
    assert!(!q.matches(&s));
}

#[test]
fn mime_category_is_the_top_level_type() {
    let s = summary("GET", "a.test", "/", 200, " Application /json");
    let mut q = FilterQuery::default();
    q.mime_category = Some("application".to_string());
    assert!(q.matches(&s));
    q.mime_category = Some("TEXT".to_string());
    assert!(!q.matches(&s));
    q.mime_category = Some(String::new());
    assert!(q.matches(&s));
    let bare = summary("GET", "a.test", "/", 200, "-");
    q.mime_category = Some("-".to_string());
    assert!(bare.mime == "-" && q.matches(&bare));
}

#[test]
fn text_searches_method_host_path_mime_and_status() {
    let s = summary("GET", "Example.COM", "/Api?q=1", 503, "text/plain");
    let mut q = FilterQuery::default();
    for (text, expected) in [
        ("example.com", true),
        ("  API?Q ", true),
        ("get example", true),
        ("503", true),
        ("plain 503", true),
        ("404", false),
        ("post", false),
        ("   ", true),
    ] {
        q.text = text.to_string();
        assert_eq!(q.matches(&s), expected, "{text}");
    }
}

#[test]
fn every_part_must_accept() {
    let s = summary("GET", "a.test", "/x", 200, "image/png");
    let q = FilterQuery {
        text: "a.test".to_string(),
        method: Some("get".to_string()),
        status_class: Some(2),
        mime_category: Some("image".to_string()),
    };
    assert!(q.matches(&s));
    let q = FilterQuery { status_class: Some(3), ..q };
    assert!(!q.matches(&s));
}

#[test]
fn status_labels_name_classes() {
    assert_eq!(status_class_of("1xx"), Some(1));
    assert_eq!(status_class_of("2xx"), Some(2));
    assert_eq!(status_class_of("5xx"), Some(5));
    assert_eq!(status_class_of(""), None);
    assert_eq!(status_class_of("6xx"), None);
    assert_eq!(status_class_of("2XX"), None);
    assert_eq!(status_class_of("2xxx"), None);
}

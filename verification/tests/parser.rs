use har_viewer::har::parser::{detail_from_entry, summarize_entry};
use har_viewer::har::{
    HarContent, HarEntry, HarHeader, HarPostData, HarRequest, HarResponse, TimingBreakdown,
};

fn request(method: &str, url: &str) -> HarRequest {
    HarRequest {
        method: method.to_string(),
        url: url.to_string(),
        http_version: None,
        headers: Vec::new(),
        post_data: None,
        headers_size: None,
        body_size: None,
    }
}

fn response(status: u16, status_text: &str) -> HarResponse {
    HarResponse {
        status,
        status_text: status_text.to_string(),
        http_version: None,
        headers: Vec::new(),
        content: None,
        headers_size: None,
        body_size: None,
    }
}

fn entry(request: HarRequest, response: HarResponse) -> HarEntry {
    HarEntry {
        started_date_time: "2025-01-01T00:00:00.000Z".to_string(),
        request,
        response,
        server_ip_address: None,
        connection: None,
    }
}

fn timings(send: f64, wait: f64, receive: f64) -> TimingBreakdown {
    TimingBreakdown {
        blocked_bits: 0f64.to_bits(),
        dns_bits: 0f64.to_bits(),
        connect_bits: 0f64.to_bits(),
        ssl_bits: 0f64.to_bits(),
        send_bits: send.to_bits(),
        wait_bits: wait.to_bits(),
        receive_bits: receive.to_bits(),
    }
}

fn header(name: &str, value: &str) -> HarHeader {
    HarHeader { name: name.to_string(), value: value.to_string() }
}

#[test]
fn parses_summary_with_optional_fields() {
    let mut req = request("GET", "https://example.com/api?q=1");
    req.headers_size = Some(100);
    req.body_size = Some(-1);
    let mut res = response(200, "OK");
    res.content = Some(HarContent {
        mime_type: Some("application/json".to_string()),
        size: Some(42),
        text: Some("{\"ok\":true}".to_string()),
    });
    res.headers_size = Some(150);
    res.body_size = Some(40);

    let summary = summarize_entry(7, entry(req, res), 123.4f64.to_bits());
    assert_eq!(summary.id, 7);
    assert_eq!(summary.method, "GET");
    assert_eq!(summary.host, "example.com");
    assert_eq!(summary.path, "/api?q=1");
    assert_eq!(summary.status, 200);
    assert_eq!(summary.mime, "application/json");
    assert_eq!(summary.req_bytes, 100);
    assert_eq!(summary.res_bytes, 192);
    assert_eq!(f64::from_bits(summary.duration_ms_bits), 123.4);
}

#[test]
fn parses_detail_with_full_bodies() {
    let mut req = request("POST", "https://example.com/login");
    req.http_version = Some("HTTP/2".to_string());
    req.headers = vec![header("content-type", "application/json")];
    req.post_data = Some(HarPostData { text: Some("{\"user\":\"alice\"}".to_string()) });
    let mut res = response(401, "Unauthorized");
    res.http_version = Some("HTTP/2".to_string());
    res.headers = vec![header("content-type", "application/json")];
    res.content = Some(HarContent {
        mime_type: Some("application/json".to_string()),
        size: None,
        text: Some("{\"error\":\"bad creds\"}".to_string()),
    });

    let detail = detail_from_entry(entry(req, res), timings(1.0, 8.0, 1.0));
    assert_eq!(detail.request_method, "POST");
    assert_eq!(detail.request_path, "/login");
    assert_eq!(detail.request_http_version, "HTTP/2");
    assert_eq!(detail.response_http_version, "HTTP/2");
    assert_eq!(detail.response_status, 401);
    assert!(detail.request_body.contains("alice"));
    assert!(detail.response_body.contains("error"));
    assert_eq!(f64::from_bits(detail.timings.wait_bits), 8.0);
}

#[test]
fn parses_string_encoded_numbers() {
    // The decoded values of `"headersSize":"-1"`, `"bodySize":"23093"` and so on.
    let mut req = request("GET", "https://example.com/robots.txt");
    req.headers_size = Some(-1);
    req.body_size = Some(23093);
    let mut res = response(200, "OK");
    res.content = Some(HarContent {
        mime_type: Some("text/plain".to_string()),
        size: Some(23093),
        text: Some("hello".to_string()),
    });
    res.headers_size = Some(-1);
    res.body_size = Some(23093);

    let summary = summarize_entry(0, entry(req.clone(), res.clone()), 579.0f64.to_bits());
    assert_eq!(summary.res_bytes, 23093);
    assert_eq!(summary.req_bytes, 23093);
    assert_eq!(f64::from_bits(summary.duration_ms_bits), 579.0);

    let detail = detail_from_entry(entry(req, res), timings(0.0, 579.0, 0.0));
    assert_eq!(detail.response_status, 200);
    assert_eq!(f64::from_bits(detail.timings.wait_bits), 579.0);
}

#[test]
fn defaults_http_version_when_missing() {
    let detail = detail_from_entry(
        entry(request("GET", "https://example.com/"), response(200, "OK")),
        timings(0.0, 0.0, 0.0),
    );
    assert_eq!(detail.request_http_version, "HTTP/1.1");
    assert_eq!(detail.response_http_version, "HTTP/1.1");
}

#[test]
fn http_versions_are_trimmed_upper_cased_and_checked() {
    let mut req = request("GET", "https://example.com/");
    req.http_version = Some("  http/1.0 ".to_string());
    let mut res = response(200, "OK");
    res.http_version = Some("h3".to_string());
    let detail = detail_from_entry(entry(req, res), timings(0.0, 0.0, 0.0));
    assert_eq!(detail.request_http_version, "HTTP/1.0");
    assert_eq!(detail.response_http_version, "HTTP/1.1");

    let mut req = request("GET", "https://example.com/");
    req.http_version = Some("   ".to_string());
    let detail = detail_from_entry(entry(req, response(200, "OK")), timings(0.0, 0.0, 0.0));
    assert_eq!(detail.request_http_version, "HTTP/1.1");
}

#[test]
fn unparsable_url_keeps_raw_text_as_path() {
    let summary = summarize_entry(
        3,
        entry(request("GET", "not a url"), response(0, "")),
        0f64.to_bits(),
    );
    assert_eq!(summary.host, "-");
    assert_eq!(summary.path, "not a url");
    assert_eq!(summary.mime, "-");
    assert_eq!(summary.req_bytes, 0);
    assert_eq!(summary.res_bytes, 0);
}

#[test]
fn url_without_host_shows_dash() {
    let summary = summarize_entry(0, entry(request("GET", "data:text/plain,hi"), response(200, "OK")), 0);
    assert_eq!(summary.host, "-");
    assert_eq!(summary.path, "text/plain,hi");
}

#[test]
fn response_bytes_take_the_larger_body_figure() {
    let mut res = response(200, "OK");
    res.headers_size = Some(10);
    res.body_size = Some(5);
    res.content = Some(HarContent { mime_type: Some(String::new()), size: Some(70), text: None });
    let summary = summarize_entry(0, entry(request("GET", "https://a.test/x"), res), 0);
    assert_eq!(summary.res_bytes, 80);
    assert_eq!(summary.mime, "-");

    let mut req = request("GET", "https://a.test/x");
    req.headers_size = Some(i64::MAX);
    req.body_size = Some(i64::MAX);
    let summary = summarize_entry(0, entry(req, response(200, "OK")), 0);
    assert_eq!(summary.req_bytes, 2 * (i64::MAX as u64));
}

#[test]
fn detail_keeps_headers_bodies_and_connection_data() {
    let mut req = request("GET", "https://a.test");
    req.headers = vec![header("A", "1"), header("B", "2")];
    let mut res = response(204, "No Content");
    res.headers = vec![header("C", "3")];
    let mut e = entry(req, res);
    e.server_ip_address = Some("10.0.0.1".to_string());
    e.connection = Some("443".to_string());
    let detail = detail_from_entry(e, timings(0.0, 0.0, 0.0));
    assert_eq!(detail.request_path, "/");
    assert_eq!(detail.url, "https://a.test");
    assert_eq!(
        detail.request_headers,
        vec![("A".to_string(), "1".to_string()), ("B".to_string(), "2".to_string())]
    );
    assert_eq!(detail.response_headers, vec![("C".to_string(), "3".to_string())]);
    assert_eq!(detail.request_body, "");
    assert_eq!(detail.response_body, "");
    assert_eq!(detail.response_reason, "No Content");
    assert_eq!(detail.server_ip.as_deref(), Some("10.0.0.1"));
    assert_eq!(detail.connection.as_deref(), Some("443"));
}

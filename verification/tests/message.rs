use har_viewer::har::message::{
    build_request_message, build_response_message, pretty_json_if_possible,
};
use har_viewer::har::{EntryDetail, TimingBreakdown};

fn detail() -> EntryDetail {
    EntryDetail {
        request_method: "POST".to_string(),
        request_path: "/login".to_string(),
        request_http_version: "HTTP/2".to_string(),
        url: "https://example.com/login".to_string(),
        request_headers: vec![("content-type".to_string(), "application/json".to_string())],
        request_body: "{\"user\":\"alice\"}".to_string(),
        response_http_version: "HTTP/2".to_string(),
        response_status: 401,
        response_reason: "Unauthorized".to_string(),
        response_headers: vec![("content-type".to_string(), "application/json".to_string())],
        response_body: "{\"error\":\"bad creds\"}".to_string(),
        timings: TimingBreakdown {
            blocked_bits: 0,
            dns_bits: 0,
            connect_bits: 0,
            ssl_bits: 0,
            send_bits: 0,
            wait_bits: 0,
            receive_bits: 0,
        },
        server_ip: None,
        connection: None,
    }
}

#[test]
fn request_message_derives_host_when_header_is_absent() {
    let message = build_request_message(&detail());
    assert_eq!(
        message,
        "POST /login HTTP/2\nHost: example.com\ncontent-type: application/json\n\n{\n  \"user\": \"alice\"\n}"
    );
}

#[test]
fn request_message_keeps_existing_host_header() {
    let mut d = detail();
    d.request_headers.insert(0, ("HoSt".to_string(), "other.test".to_string()));
    let message = build_request_message(&d);
    assert_eq!(
        message,
        "POST /login HTTP/2\nHoSt: other.test\ncontent-type: application/json\n\n{\n  \"user\": \"alice\"\n}"
    );
}

#[test]
fn request_message_defaults_path_and_version() {
    let mut d = detail();
    d.request_method = "GET".to_string();
    d.request_path = "  ".to_string();
    d.request_http_version = " ".to_string();
    d.url = "not a url".to_string();
    d.request_headers.clear();
    d.request_body = "   ".to_string();
    assert_eq!(build_request_message(&d), "GET / HTTP/1.1\n\n");
}

#[test]
fn response_message_has_status_line_headers_and_body() {
    let message = build_response_message(&detail());
    assert_eq!(
        message,
        "HTTP/2 401 Unauthorized\ncontent-type: application/json\n\n{\n  \"error\": \"bad creds\"\n}"
    );
}

#[test]
fn response_message_without_reason() {
    let mut d = detail();
    d.response_reason = "  ".to_string();
    d.response_status = 204;
    d.response_headers.clear();
    d.response_body = "plain text".to_string();
    d.response_http_version = " HTTP/1.0 ".to_string();
    assert_eq!(build_response_message(&d), "HTTP/1.0 204\n\nplain text");
}

#[test]
fn pretty_prints_valid_json_only() {
    assert_eq!(pretty_json_if_possible("{\"a\":1}"), "{\n  \"a\": 1\n}");
    assert_eq!(pretty_json_if_possible("[1,2]"), "[\n  1,\n  2\n]");
    assert_eq!(pretty_json_if_possible("{not json"), "{not json");
    assert_eq!(pretty_json_if_possible(" \n\t "), "");
    assert_eq!(pretty_json_if_possible(""), "");
    assert_eq!(pretty_json_if_possible("\"\""), "\"\"");
    assert_eq!(pretty_json_if_possible(" null "), "null");
}

use har_viewer::har::parser::{detail_from_entry, summarize_entry};
use har_viewer::har::scanner::scan_entry_ranges;
use har_viewer::har::{
    entry_slice, EntrySummary, HarContent, HarEntry, HarHeader, HarPostData, HarRequest,
    HarResponse, TimingBreakdown,
};
use serde_json::Value;

fn sample_har(entries: &str) -> Vec<u8> {
    format!("{{\"log\":{{\"entries\":[{}]}}}}", entries).into_bytes()
}

fn text(v: &Value) -> Option<String> {
    v.as_str().map(|s| s.to_string())
}

fn number(v: &Value) -> Option<i64> {
    v.as_i64().or_else(|| v.as_str().and_then(|s| s.trim().parse().ok()))
}

fn headers(v: &Value) -> Vec<HarHeader> {
    v.as_array()
        .map(|a| {
            a.iter()
                .map(|h| HarHeader {
                    name: text(&h["name"]).unwrap_or_default(),
                    value: text(&h["value"]).unwrap_or_default(),
                })
                .collect()
        })
        .unwrap_or_default()
}

/// Decodes the fields of one entry object through `serde_json::Value`.
fn decode(bytes: &[u8]) -> HarEntry {
    let v: Value = serde_json::from_slice(bytes).expect("entry json");
    let req = &v["request"];
    let res = &v["response"];
    HarEntry {
        started_date_time: text(&v["startedDateTime"]).unwrap_or_default(),
        request: HarRequest {
            method: text(&req["method"]).expect("method"),
            url: text(&req["url"]).expect("url"),
            http_version: text(&req["httpVersion"]),
            headers: headers(&req["headers"]),
            post_data: req.get("postData").map(|p| HarPostData { text: text(&p["text"]) }),
            headers_size: number(&req["headersSize"]),
            body_size: number(&req["bodySize"]),
        },
        response: HarResponse {
            status: number(&res["status"]).unwrap_or(0) as u16,
            status_text: text(&res["statusText"]).unwrap_or_default(),
            http_version: text(&res["httpVersion"]),
            headers: headers(&res["headers"]),
            content: res.get("content").map(|c| HarContent {
                mime_type: text(&c["mimeType"]),
                size: number(&c["size"]),
                text: text(&c["text"]),
            }),
            headers_size: number(&res["headersSize"]),
            body_size: number(&res["bodySize"]),
        },
        server_ip_address: text(&v["serverIPAddress"]),
        connection: text(&v["connection"]),
    }
}

fn no_timings() -> TimingBreakdown {
    TimingBreakdown {
        blocked_bits: 0,
        dns_bits: 0,
        connect_bits: 0,
        ssl_bits: 0,
        send_bits: 0,
        wait_bits: 0,
        receive_bits: 0,
    }
}

fn index(file: &[u8]) -> Vec<EntrySummary> {
    let ranges = scan_entry_ranges(file).expect("ranges");
    ranges
        .iter()
        .enumerate()
        .map(|(id, r)| {
            let slice = entry_slice(file, *r).expect("slice");
            let time = serde_json::from_slice::<Value>(slice).expect("json")["time"]
                .as_f64()
                .unwrap_or(0.0);
            summarize_entry(id, decode(slice), time.to_bits())
        })
        .collect()
}

#[test]
fn load_detail_uses_selected_range() {
    let har = sample_har(
        r#"{"startedDateTime":"2025-01-01T00:00:00.000Z","time":1,"request":{"method":"GET","url":"https://a.test/","headers":[]},"response":{"status":200,"statusText":"OK","headers":[],"content":{"text":"A"}},"timings":{}}
           ,{"startedDateTime":"2025-01-01T00:00:01.000Z","time":1,"request":{"method":"GET","url":"https://b.test/","headers":[]},"response":{"status":500,"statusText":"ERR","headers":[],"content":{"text":"B"}},"timings":{}}"#,
    );

    let ranges = scan_entry_ranges(&har).expect("index");
    assert_eq!(index(&har).len(), 2);
    let slice = entry_slice(&har, ranges[1]).expect("detail");
    let detail = detail_from_entry(decode(slice), no_timings());

    assert_eq!(detail.response_status, 500);
    assert_eq!(detail.response_body, "B");
}

#[test]
fn performance_guard_large_synthetic_payload() {
    let mut entries = String::new();
    for i in 0..5_000u32 {
        if i > 0 {
            entries.push(',');
        }
        entries.push_str(&format!(
            "{{\"startedDateTime\":\"2025-01-01T00:00:{:02}.000Z\",\"time\":5,\"request\":{{\"method\":\"GET\",\"url\":\"https://example.test/item/{}\",\"headers\":[]}},\"response\":{{\"status\":200,\"statusText\":\"OK\",\"headers\":[],\"content\":{{\"mimeType\":\"text/plain\",\"text\":\"x\"}}}},\"timings\":{{\"wait\":5}}}}",
            i % 60,
            i
        ));
    }

    let har = sample_har(&entries);
    let summaries = index(&har);
    assert_eq!(summaries.len(), 5_000);
    assert_eq!(summaries[4_999].path, "/item/4999");
    assert_eq!(summaries[17].id, 17);
}

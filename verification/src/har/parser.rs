//! Summaries and details of decoded HAR entries.

use vstd::prelude::*;

use super::types::{
    EntryDetail, EntrySummary, HarContent, HarEntry, HarHeader, HarPostData, TimingBreakdown,
};
use crate::text::{
    is_whitespace, push_char, push_str, to_ascii_uppercase, trim, trim_end, trim_start, trim_str, upper,
};

verus! {

/// The view of an optional string.
pub open spec fn opt_view(o: Option<String>) -> Option<Seq<char>> {
    match o {
        Some(s) => Some(s@),
        None => None,
    }
}

/// What `url::Url::parse` makes of `raw`, read through `Url::host_str`,
/// `Url::path` and `Url::query`; `None` where parsing fails.
pub uninterp spec fn url_parts(raw: Seq<char>) -> Option<
    (Option<Seq<char>>, Seq<char>, Option<Seq<char>>),
>;

/// Parses a URL with `url::Url::parse` and reads its host, path and query.
/// Trusted: the result is [`url_parts`] of the input.
#[verifier::external_body]
pub(crate) fn parse_url_parts(raw: &str) -> (r: Option<(Option<String>, String, Option<String>)>)
    ensures
        match (r, url_parts(raw@)) {
            (None, None) => true,
            (Some((h, p, q)), Some((h2, p2, q2))) => opt_view(h) == h2 && p@ == p2 && opt_view(q)
                == q2,
            _ => false,
        },
{
    match url::Url::parse(raw) {
        Ok(u) => Some((u.host_str().map(String::from), String::from(u.path()), u.query().map(String::from))),
        Err(_) => None,
    }
}

pub open spec fn dash() -> Seq<char> {
    seq!['-']
}

/// Host and path (with `?query` when there is one) of a request URL; a URL
/// that does not parse has host `-` and is its own path.
pub open spec fn split_url_view(raw: Seq<char>) -> (Seq<char>, Seq<char>) {
    match url_parts(raw) {
        Some((host, path, query)) => (
            match host {
                Some(h) => h,
                None => dash(),
            },
            match query {
                Some(q) => path + seq!['?'] + q,
                None => path,
            },
        ),
        None => (dash(), raw),
    }
}

fn dash_string() -> (s: String)
    ensures
        s@ == dash(),
{
    let mut s = String::new();
    push_char(&mut s, '-');
    assert(s@ =~= dash());
    s
}

/// Splits a request URL into host and path-with-query.
fn split_url(raw: &str) -> (r: (String, String))
    ensures
        (r.0@, r.1@) == split_url_view(raw@),
{
    match parse_url_parts(raw) {
        Some((host, path, query)) => {
            let host = match host {
                Some(h) => h,
                None => dash_string(),
            };
            let mut full = path;
            match query {
                Some(q) => {
                    push_char(&mut full, '?');
                    push_str(&mut full, q.as_str());
                },
                None => {},
            }
            (host, full)
        },
        None => (dash_string(), String::from_str(raw)),
    }
}

/// A size field clamped to be non-negative; absent counts as zero.
pub open spec fn clamp(size: Option<i64>) -> nat {
    match size {
        Some(v) => if v > 0 {
            v as nat
        } else {
            0
        },
        None => 0,
    }
}

fn clamp_size(size: Option<i64>) -> (r: u64)
    ensures
        r == clamp(size),
{
    match size {
        Some(v) => if v > 0 {
            v as u64
        } else {
            0
        },
        None => 0,
    }
}

pub open spec fn http_1_1() -> Seq<char> {
    seq!['H', 'T', 'T', 'P', '/', '1', '.', '1']
}

pub open spec fn http_prefix() -> Seq<char> {
    seq!['H', 'T', 'T', 'P', '/']
}

pub open spec fn starts_with(s: Seq<char>, p: Seq<char>) -> bool {
    p.len() <= s.len() && s.subrange(0, p.len() as int) == p
}

/// The HTTP version as shown: trimmed and upper-cased, and `HTTP/1.1` when it
/// is absent, blank, or does not start with `HTTP/`.
pub open spec fn normalized_version(version: Option<Seq<char>>) -> Seq<char> {
    let n = match version {
        Some(v) => if trim(v).len() > 0 {
            upper(trim(v))
        } else {
            http_1_1()
        },
        None => http_1_1(),
    };
    if starts_with(n, http_prefix()) {
        n
    } else {
        http_1_1()
    }
}

fn http_1_1_string() -> (s: String)
    ensures
        s@ == http_1_1(),
{
    let lit = "HTTP/1.1";
    proof {
        reveal_strlit("HTTP/1.1");
    }
    String::from_str(lit)
}

fn normalize_http_version(version: Option<&str>) -> (r: String)
    ensures
        r@ == normalized_version(match version {
            Some(v) => Some(v@),
            None => None,
        }),
{
    let normalized = match version {
        Some(v) => {
            let t = trim_str(v);
            if t.unicode_len() > 0 {
                to_ascii_uppercase(t)
            } else {
                http_1_1_string()
            }
        },
        None => http_1_1_string(),
    };
    let n = normalized.as_str();
    if n.unicode_len() >= 5 && n.get_char(0) == 'H' && n.get_char(1) == 'T' && n.get_char(2) == 'T'
        && n.get_char(3) == 'P' && n.get_char(4) == '/' {
        assert(n@.subrange(0, 5) =~= http_prefix());
        normalized
    } else {
        assert(starts_with(n@, http_prefix()) ==> n@.subrange(0, 5)[0] == 'H');
        http_1_1_string()
    }
}

/// Law: a normalized HTTP version always starts with `HTTP/`.
pub proof fn law_normalized_version_is_http(version: Option<Seq<char>>)
    ensures
        starts_with(normalized_version(version), http_prefix()),
{
    assert(http_1_1().subrange(0, 5) =~= http_prefix());
}

/// Law: a version already in canonical form (starting with `HTTP/`, with no
/// ASCII lower-case letter and no whitespace at its end) is kept as it is.
pub proof fn law_canonical_version_is_kept(v: Seq<char>)
    requires
        starts_with(v, http_prefix()),
        forall|k: int| 0 <= k < v.len() ==> !('a' <= #[trigger] v[k] <= 'z'),
        !is_whitespace(v.last()),
    ensures
        normalized_version(Some(v)) == v,
{
    assert(v.subrange(0, 5)[0] == v[0]);
    assert(!is_whitespace(v[0]));
    assert(trim_start(v) == v);
    assert(trim_end(v) == v);
    assert(upper(v) =~= v);
}

/// Law: a normalized version has no ASCII lower-case letter.
pub proof fn law_normalized_version_is_upper_case(version: Option<Seq<char>>)
    ensures
        forall|k: int|
            0 <= k < normalized_version(version).len() ==> !('a' <= #[trigger] normalized_version(
                version,
            )[k] <= 'z'),
{
    let n = normalized_version(version);
    assert forall|k: int| 0 <= k < n.len() implies !('a' <= #[trigger] n[k] <= 'z') by {
        match version {
            Some(v) => {
                if trim(v).len() > 0 && starts_with(upper(trim(v)), http_prefix()) {
                    let c = trim(v)[k];
                    if 'a' <= c <= 'z' {
                        assert((c as u32) - 32 < 'a' as u32);
                    }
                }
            },
            None => {},
        }
    }
}

/// Law: request bytes are the header size plus the body size, where an
/// absent or negative size counts as zero.
pub proof fn law_request_bytes(e: HarEntry)
    ensures
        ({
            let hs = e.request.headers_size;
            let bs = e.request.body_size;
            let h_ok = hs is Some && hs->0 >= 0;
            let b_ok = bs is Some && bs->0 >= 0;
            &&& h_ok && b_ok ==> request_bytes(e) == hs->0 + bs->0
            &&& h_ok && !b_ok ==> request_bytes(e) == hs->0
            &&& !h_ok && b_ok ==> request_bytes(e) == bs->0
            &&& !h_ok && !b_ok ==> request_bytes(e) == 0
        }),
{
}

/// Law: response bytes are the header size plus the larger of the body size
/// and the content size, where an absent or negative size counts as zero.
pub proof fn law_response_bytes(e: HarEntry)
    ensures
        ({
            let hs = e.response.headers_size;
            let bs = e.response.body_size;
            let cs = content_size(e.response.content);
            let h = if hs is Some && hs->0 >= 0 { hs->0 as int } else { 0 };
            let b = if bs is Some && bs->0 >= 0 { bs->0 as int } else { 0 };
            let c = if cs is Some && cs->0 >= 0 { cs->0 as int } else { 0 };
            &&& b >= c ==> response_bytes(e) == h + b
            &&& b < c ==> response_bytes(e) == h + c
            &&& response_bytes(e) >= h + b
            &&& response_bytes(e) >= h + c
        }),
{
}

/// The MIME type shown for a response: `content.mimeType` when present and
/// non-empty, `-` otherwise.
pub open spec fn mime_of(content: Option<HarContent>) -> Seq<char> {
    match content {
        Some(c) => match c.mime_type {
            Some(m) => if m@.len() > 0 {
                m@
            } else {
                dash()
            },
            None => dash(),
        },
        None => dash(),
    }
}

/// Law: the MIME type of a response is its declared `mimeType` whenever that
/// is present and non-empty, whatever the content's text and size hold; it
/// is `-` otherwise.
pub proof fn law_mime_is_declared_type(content: Option<HarContent>)
    ensures
        match content {
            Some(HarContent { mime_type: Some(m), .. }) => m@.len() > 0 ==> mime_of(content) == m@,
            _ => true,
        },
        content is None || content->0.mime_type is None || content->0.mime_type->0@.len() == 0
            ==> mime_of(content) == seq!['-'],
{
}

/// The declared size of the response content.
pub open spec fn content_size(content: Option<HarContent>) -> Option<i64> {
    match content {
        Some(c) => c.size,
        None => None,
    }
}

/// Request bytes: header size plus body size, each clamped.
pub open spec fn request_bytes(e: HarEntry) -> nat {
    clamp(e.request.headers_size) + clamp(e.request.body_size)
}

/// Response bytes: header size plus the larger of the body size and the
/// content size, each clamped.
pub open spec fn response_bytes(e: HarEntry) -> nat {
    let body = clamp(e.response.body_size);
    let content = clamp(content_size(e.response.content));
    clamp(e.response.headers_size) + if body >= content {
        body
    } else {
        content
    }
}

/// Builds the history row of entry `id` from its decoded fields and its
/// duration (as the bit pattern of a non-negative `f64` in milliseconds).
pub fn summarize_entry(id: usize, entry: HarEntry, duration_ms_bits: u64) -> (s: EntrySummary)
    ensures
        s.id == id,
        s.started_at@ == entry.started_date_time@,
        s.method@ == entry.request.method@,
        (s.host@, s.path@) == split_url_view(entry.request.url@),
        s.status == entry.response.status,
        s.mime@ == mime_of(entry.response.content),
        s.req_bytes == request_bytes(entry),
        s.res_bytes == response_bytes(entry),
        s.duration_ms_bits == duration_ms_bits,
        match entry.response.content {
            Some(HarContent { mime_type: Some(m), .. }) => m@.len() > 0 ==> s.mime@ == m@,
            _ => true,
        },
        match url_parts(entry.request.url@) {
            Some((_, p, Some(q))) => s.path@ == p + seq!['?'] + q,
            _ => true,
        },
        match url_parts(entry.request.url@) {
            Some((Some(h), _, _)) => s.host@ == h,
            _ => true,
        },
{
    proof {
        law_mime_is_declared_type(entry.response.content);
        law_request_path_keeps_query(entry.request.url@);
        law_host_of_url(entry.request.url@);
    }
    let (host, path) = split_url(entry.request.url.as_str());
    let mime = match &entry.response.content {
        Some(c) => match &c.mime_type {
            Some(m) => if m.as_str().unicode_len() > 0 {
                m.clone()
            } else {
                dash_string()
            },
            None => dash_string(),
        },
        None => dash_string(),
    };
    let req_bytes = clamp_size(entry.request.headers_size) + clamp_size(entry.request.body_size);
    let content_size = match &entry.response.content {
        Some(c) => c.size,
        None => None,
    };
    let body = clamp_size(entry.response.body_size);
    let content = clamp_size(content_size);
    let res_body = if body >= content {
        body
    } else {
        content
    };
    let res_bytes = clamp_size(entry.response.headers_size) + res_body;
    EntrySummary {
        id,
        started_at: entry.started_date_time,
        method: entry.request.method,
        host,
        path,
        status: entry.response.status,
        mime,
        req_bytes,
        res_bytes,
        duration_ms_bits,
    }
}

/// Headers as (name, value) pairs of character sequences.
pub open spec fn header_pairs(hs: Seq<HarHeader>) -> Seq<(Seq<char>, Seq<char>)> {
    hs.map_values(|h: HarHeader| (h.name@, h.value@))
}

/// Law: the header pairs are the headers' names and values, one pair per
/// header, in order.
pub proof fn law_header_pairs_keep_every_header(hs: Seq<HarHeader>)
    ensures
        header_pairs(hs).len() == hs.len(),
        forall|i: int|
            0 <= i < hs.len() ==> #[trigger] header_pairs(hs)[i] == (hs[i].name@, hs[i].value@),
{
}

/// Law: the bodies shown are the recorded texts, and empty where none was
/// recorded.
pub proof fn law_bodies_are_recorded_text(post: Option<HarPostData>, content: Option<HarContent>)
    ensures
        match post {
            Some(HarPostData { text: Some(t) }) => request_body_of(post) == t@,
            _ => request_body_of(post).len() == 0,
        },
        match content {
            Some(HarContent { text: Some(t), .. }) => response_body_of(content) == t@,
            _ => response_body_of(content).len() == 0,
        },
{
}

/// The view of (name, value) string pairs.
pub open spec fn pair_views(ps: Seq<(String, String)>) -> Seq<(Seq<char>, Seq<char>)> {
    ps.map_values(|p: (String, String)| (p.0@, p.1@))
}

fn header_pairs_of(hs: &Vec<HarHeader>) -> (r: Vec<(String, String)>)
    ensures
        pair_views(r@) == header_pairs(hs@),
{
    let mut r: Vec<(String, String)> = Vec::new();
    let mut i: usize = 0;
    while i < hs.len()
        invariant
            i <= hs.len(),
            pair_views(r@) == header_pairs(hs@.take(i as int)),
        decreases hs.len() - i,
    {
        let ghost before = r@;
        let name = hs[i].name.clone();
        let value = hs[i].value.clone();
        r.push((name, value));
        proof {
            assert(pair_views(r@) =~= pair_views(before).push((name@, value@)));
            assert(hs@.take(i + 1) =~= hs@.take(i as int).push(hs@[i as int]));
            assert(header_pairs(hs@.take(i + 1)) =~= header_pairs(hs@.take(i as int)).push(
                (hs@[i as int].name@, hs@[i as int].value@),
            ));
        }
        i = i + 1;
    }
    assert(hs@.take(hs.len() as int) =~= hs@);
    r
}

/// The request body: `postData.text`, or empty.
pub open spec fn request_body_of(post: Option<HarPostData>) -> Seq<char> {
    match post {
        Some(p) => match p.text {
            Some(t) => t@,
            None => Seq::empty(),
        },
        None => Seq::empty(),
    }
}

/// The response body: `content.text`, or empty.
pub open spec fn response_body_of(content: Option<HarContent>) -> Seq<char> {
    match content {
        Some(c) => match c.text {
            Some(t) => t@,
            None => Seq::empty(),
        },
        None => Seq::empty(),
    }
}

/// The request path shown: the URL's path with query, or `/` when empty.
pub open spec fn request_path_of(url: Seq<char>) -> Seq<char> {
    let path = split_url_view(url).1;
    if path.len() == 0 {
        seq!['/']
    } else {
        path
    }
}

/// Law: the request path of a URL that parses keeps its query: it is the
/// URL's path, `?` and the query, as the history row shows it; without a
/// query it is the path (`/` when empty); a URL that does not parse is its
/// own path. The path shown in the detail is the one the row shows, or `/`
/// when that is empty.
pub proof fn law_request_path_keeps_query(url: Seq<char>)
    ensures
        match url_parts(url) {
            Some((_, p, Some(q))) => request_path_of(url) == p + seq!['?'] + q && split_url_view(
                url,
            ).1 == p + seq!['?'] + q,
            Some((_, p, None)) => split_url_view(url).1 == p && request_path_of(url) == (
            if p.len() == 0 {
                seq!['/']
            } else {
                p
            }),
            None => split_url_view(url).1 == url && request_path_of(url) == (if url.len() == 0 {
                seq!['/']
            } else {
                url
            }),
        },
        split_url_view(url).1.len() > 0 ==> request_path_of(url) == split_url_view(url).1,
{
}

/// Law: the host of a row is the host that the URL parses to, and `-` for a
/// URL without a host or that does not parse.
pub proof fn law_host_of_url(url: Seq<char>)
    ensures
        match url_parts(url) {
            Some((Some(h), _, _)) => split_url_view(url).0 == h,
            _ => split_url_view(url).0 == seq!['-'],
        },
{
}

fn opt_str(o: &Option<String>) -> (r: Option<&str>)
    ensures
        match (r, o) {
            (Some(a), Some(b)) => a@ == b@,
            (None, None) => true,
            _ => false,
        },
{
    match o {
        Some(s) => Some(s.as_str()),
        None => None,
    }
}

/// Builds the inspector view of an entry from its decoded fields and its
/// clamped timings.
pub fn detail_from_entry(entry: HarEntry, timings: TimingBreakdown) -> (d: EntryDetail)
    ensures
        d.request_method@ == entry.request.method@,
        d.request_path@ == request_path_of(entry.request.url@),
        d.request_http_version@ == normalized_version(opt_view(entry.request.http_version)),
        d.url@ == entry.request.url@,
        pair_views(d.request_headers@) == header_pairs(entry.request.headers@),
        d.request_body@ == request_body_of(entry.request.post_data),
        d.response_http_version@ == normalized_version(opt_view(entry.response.http_version)),
        d.response_status == entry.response.status,
        d.response_reason@ == entry.response.status_text@,
        pair_views(d.response_headers@) == header_pairs(entry.response.headers@),
        d.response_body@ == response_body_of(entry.response.content),
        d.timings == timings,
        opt_view(d.server_ip) == opt_view(entry.server_ip_address),
        opt_view(d.connection) == opt_view(entry.connection),
        starts_with(d.request_http_version@, http_prefix()),
        starts_with(d.response_http_version@, http_prefix()),
        d.request_path@.len() > 0,
        match url_parts(entry.request.url@) {
            Some((_, p, Some(q))) => d.request_path@ == p + seq!['?'] + q,
            _ => true,
        },
        d.request_headers@.len() == entry.request.headers@.len(),
        forall|i: int|
            0 <= i < d.request_headers@.len() ==> (#[trigger] d.request_headers@[i]).0@
                == entry.request.headers@[i].name@ && d.request_headers@[i].1@
                == entry.request.headers@[i].value@,
        d.response_headers@.len() == entry.response.headers@.len(),
        forall|i: int|
            0 <= i < d.response_headers@.len() ==> (#[trigger] d.response_headers@[i]).0@
                == entry.response.headers@[i].name@ && d.response_headers@[i].1@
                == entry.response.headers@[i].value@,
{
    proof {
        law_request_path_keeps_query(entry.request.url@);
    }
    let (_, path) = split_url(entry.request.url.as_str());
    let request_path = if path.as_str().unicode_len() == 0 {
        let mut p = String::new();
        push_char(&mut p, '/');
        p
    } else {
        path
    };
    let request_headers = header_pairs_of(&entry.request.headers);
    let response_headers = header_pairs_of(&entry.response.headers);
    let request_body = match &entry.request.post_data {
        Some(pd) => match &pd.text {
            Some(t) => t.clone(),
            None => String::new(),
        },
        None => String::new(),
    };
    let response_body = match &entry.response.content {
        Some(c) => match &c.text {
            Some(t) => t.clone(),
            None => String::new(),
        },
        None => String::new(),
    };
    let request_http_version = normalize_http_version(opt_str(&entry.request.http_version));
    let response_http_version = normalize_http_version(opt_str(&entry.response.http_version));
    proof {
        law_normalized_version_is_http(opt_view(entry.request.http_version));
        law_normalized_version_is_http(opt_view(entry.response.http_version));
    }
    proof {
        law_header_pairs_keep_every_header(entry.request.headers@);
        law_header_pairs_keep_every_header(entry.response.headers@);
        assert forall|i: int| 0 <= i < request_headers@.len() implies (
        #[trigger] request_headers@[i]).0@ == entry.request.headers@[i].name@
            && request_headers@[i].1@ == entry.request.headers@[i].value@ by {
            assert(pair_views(request_headers@)[i] == header_pairs(entry.request.headers@)[i]);
        }
        assert forall|i: int| 0 <= i < response_headers@.len() implies (
        #[trigger] response_headers@[i]).0@ == entry.response.headers@[i].name@
            && response_headers@[i].1@ == entry.response.headers@[i].value@ by {
            assert(pair_views(response_headers@)[i] == header_pairs(entry.response.headers@)[i]);
        }
    }
    EntryDetail {
        request_method: entry.request.method,
        request_path,
        request_http_version,
        url: entry.request.url,
        request_headers,
        request_body,
        response_http_version,
        response_status: entry.response.status,
        response_reason: entry.response.status_text,
        response_headers,
        response_body,
        timings,
        server_ip: entry.server_ip_address,
        connection: entry.connection,
    }
}

} // verus!

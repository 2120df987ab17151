//! Raw HTTP request and response messages rendered from an entry.

use vstd::prelude::*;

use super::parser::{opt_view, pair_views, parse_url_parts, url_parts, http_1_1};
use super::types::EntryDetail;
use crate::text::{eq_ignore_ascii_case, lower, push_char, push_decimal, push_str, trim, trim_str, decimal};

verus! {

/// What `serde_json` makes of `text` when it parses it as a `serde_json::Value`
/// and prints that value again with `serde_json::to_string_pretty`; `None`
/// where either step fails.
pub uninterp spec fn json_pretty(text: Seq<char>) -> Option<Seq<char>>;

/// Re-prints JSON text with serde_json's pretty printer. Trusted: the result
/// is [`json_pretty`] of the input, and a printed value is never empty
/// (serde_json writes every `Value` as at least one character: `null`, a
/// number, `true`/`false`, a quoted string, or brackets).
#[verifier::external_body]
fn pretty_json(text: &str) -> (r: Option<String>)
    ensures
        opt_view(r) == json_pretty(text@),
        r matches Some(p) ==> p@.len() > 0,
{
    match serde_json::from_str::<serde_json::Value>(text) {
        Ok(value) => serde_json::to_string_pretty(&value).ok(),
        Err(_) => None,
    }
}

/// A message body as shown: empty when blank, pretty-printed when it is
/// JSON, unchanged otherwise.
pub open spec fn pretty_body(body: Seq<char>) -> Seq<char> {
    if trim(body).len() == 0 {
        Seq::empty()
    } else {
        match json_pretty(body) {
            Some(p) => p,
            None => body,
        }
    }
}

/// Pretty-prints a body that is JSON; a blank body becomes empty and any
/// other body is returned unchanged. The result is empty exactly when the
/// body is blank.
pub fn pretty_json_if_possible(body: &str) -> (r: String)
    ensures
        r@ == pretty_body(body@),
        r@.len() == 0 <==> trim(body@).len() == 0,
{
    proof {
        crate::text::lemma_trim_len(body@);
    }
    if trim_str(body).unicode_len() == 0 {
        return String::new();
    }
    match pretty_json(body) {
        Some(p) => p,
        None => String::from_str(body),
    }
}

/// The request target shown: `/` when the path is blank.
pub open spec fn shown_path(path: Seq<char>) -> Seq<char> {
    if trim(path).len() == 0 {
        seq!['/']
    } else {
        path
    }
}

fn display_request_path(path: &str) -> (r: &str)
    ensures
        r@ == shown_path(path@),
{
    if trim_str(path).unicode_len() == 0 {
        let slash = "/";
        proof {
            reveal_strlit("/");
            assert(slash@ =~= seq!['/']);
        }
        slash
    } else {
        path
    }
}

/// The HTTP version shown: trimmed, and `HTTP/1.1` when blank.
pub open spec fn shown_version(version: Seq<char>) -> Seq<char> {
    if trim(version).len() == 0 {
        http_1_1()
    } else {
        trim(version)
    }
}

fn display_http_version(version: &str) -> (r: &str)
    ensures
        r@ == shown_version(version@),
{
    let trimmed = trim_str(version);
    if trimmed.unicode_len() == 0 {
        let dflt = "HTTP/1.1";
        proof {
            reveal_strlit("HTTP/1.1");
            assert(dflt@ =~= http_1_1());
        }
        dflt
    } else {
        trimmed
    }
}

/// The host of a URL, as `url::Url::parse` and `Url::host_str` find it.
pub open spec fn url_host(url: Seq<char>) -> Option<Seq<char>> {
    match url_parts(url) {
        Some((host, _, _)) => host,
        None => None,
    }
}

fn derive_host(url: &str) -> (r: Option<String>)
    ensures
        opt_view(r) == url_host(url@),
{
    match parse_url_parts(url) {
        Some((host, _, _)) => host,
        None => None,
    }
}

pub open spec fn host_name() -> Seq<char> {
    seq!['h', 'o', 's', 't']
}

/// Some header is named `host`, in any ASCII case.
pub open spec fn has_host_header(headers: Seq<(Seq<char>, Seq<char>)>) -> bool {
    exists|i: int| 0 <= i < headers.len() && lower(#[trigger] headers[i].0) == lower(host_name())
}

/// Header lines, each preceded by a line break: `\nname: value`.
pub open spec fn header_lines(headers: Seq<(Seq<char>, Seq<char>)>) -> Seq<char>
    decreases headers.len(),
{
    if headers.len() == 0 {
        Seq::empty()
    } else {
        header_lines(headers.drop_last()) + seq!['\n'] + headers.last().0 + seq![':', ' ']
            + headers.last().1
    }
}

/// A `Host` line derived from the URL, preceded by a line break, when no
/// header names the host and the URL has one.
pub open spec fn host_line(headers: Seq<(Seq<char>, Seq<char>)>, url: Seq<char>) -> Seq<char> {
    if !has_host_header(headers) && url_host(url) is Some {
        seq!['\n', 'H', 'o', 's', 't', ':', ' '] + url_host(url)->0
    } else {
        Seq::empty()
    }
}

/// The raw request message of an entry: request line, an optional derived
/// `Host` line, the headers, a blank line, and the (pretty) body.
pub open spec fn request_message(d: EntryDetail) -> Seq<char> {
    d.request_method@ + seq![' '] + shown_path(d.request_path@) + seq![' '] + shown_version(
        d.request_http_version@,
    ) + host_line(pair_views(d.request_headers@), d.url@) + header_lines(
        pair_views(d.request_headers@),
    ) + seq!['\n', '\n'] + pretty_body(d.request_body@)
}

/// The status line of a response: version, status code and, when it is not
/// blank, the trimmed reason phrase.
pub open spec fn status_line(d: EntryDetail) -> Seq<char> {
    let head = shown_version(d.response_http_version@) + seq![' '] + decimal(
        d.response_status as nat,
    );
    if trim(d.response_reason@).len() == 0 {
        head
    } else {
        head + seq![' '] + trim(d.response_reason@)
    }
}

/// The raw response message of an entry: status line, headers, a blank line,
/// and the (pretty) body.
pub open spec fn response_message(d: EntryDetail) -> Seq<char> {
    status_line(d) + header_lines(pair_views(d.response_headers@)) + seq!['\n', '\n'] + pretty_body(
        d.response_body@,
    )
}

fn has_host(headers: &Vec<(String, String)>) -> (r: bool)
    ensures
        r == has_host_header(pair_views(headers@)),
{
    let host = "host";
    proof {
        reveal_strlit("host");
        assert(host@ =~= host_name());
    }
    let mut i: usize = 0;
    while i < headers.len()
        invariant
            i <= headers.len(),
            host@ == host_name(),
            forall|k: int|
                0 <= k < i ==> lower(#[trigger] pair_views(headers@)[k].0) != lower(host_name()),
        decreases headers.len() - i,
    {
        if eq_ignore_ascii_case(headers[i].0.as_str(), host) {
            assert(pair_views(headers@)[i as int].0 == headers@[i as int].0@);
            return true;
        }
        assert(pair_views(headers@)[i as int].0 == headers@[i as int].0@);
        i = i + 1;
    }
    false
}

/// Appends `\nname: value` for every header.
fn push_header_lines(m: &mut String, headers: &Vec<(String, String)>)
    ensures
        final(m)@ == old(m)@ + header_lines(pair_views(headers@)),
{
    let mut i: usize = 0;
    while i < headers.len()
        invariant
            i <= headers.len(),
            m@ == old(m)@ + header_lines(pair_views(headers@.take(i as int))),
        decreases headers.len() - i,
    {
        let ghost before = m@;
        push_char(m, '\n');
        push_str(m, headers[i].0.as_str());
        push_char(m, ':');
        push_char(m, ' ');
        push_str(m, headers[i].1.as_str());
        proof {
            let hs = pair_views(headers@.take(i + 1));
            assert(hs.drop_last() =~= pair_views(headers@.take(i as int)));
            assert(hs.last() == (headers@[i as int].0@, headers@[i as int].1@));
        }
        i = i + 1;
        assert(m@ =~= old(m)@ + header_lines(pair_views(headers@.take(i as int))));
    }
    assert(headers@.take(headers.len() as int) =~= headers@);
}

/// Renders the raw HTTP request of an entry.
pub fn build_request_message(detail: &EntryDetail) -> (m: String)
    ensures
        m@ == request_message(*detail),
{
    let mut m = String::new();
    push_str(&mut m, detail.request_method.as_str());
    push_char(&mut m, ' ');
    push_str(&mut m, display_request_path(detail.request_path.as_str()));
    push_char(&mut m, ' ');
    push_str(&mut m, display_http_version(detail.request_http_version.as_str()));
    let ghost first = m@;
    if !has_host(&detail.request_headers) {
        match derive_host(detail.url.as_str()) {
            Some(host) => {
                push_char(&mut m, '\n');
                push_char(&mut m, 'H');
                push_char(&mut m, 'o');
                push_char(&mut m, 's');
                push_char(&mut m, 't');
                push_char(&mut m, ':');
                push_char(&mut m, ' ');
                push_str(&mut m, host.as_str());
            },
            None => {},
        }
    }
    assert(m@ =~= first + host_line(pair_views(detail.request_headers@), detail.url@));
    push_header_lines(&mut m, &detail.request_headers);
    push_char(&mut m, '\n');
    push_char(&mut m, '\n');
    let body = pretty_json_if_possible(detail.request_body.as_str());
    push_str(&mut m, body.as_str());
    assert(m@ =~= request_message(*detail));
    m
}

/// Renders the raw HTTP response of an entry.
pub fn build_response_message(detail: &EntryDetail) -> (m: String)
    ensures
        m@ == response_message(*detail),
{
    let mut m = String::new();
    push_str(&mut m, display_http_version(detail.response_http_version.as_str()));
    push_char(&mut m, ' ');
    push_decimal(&mut m, detail.response_status as u64);
    let reason = trim_str(detail.response_reason.as_str());
    if reason.unicode_len() > 0 {
        push_char(&mut m, ' ');
        push_str(&mut m, reason);
    }
    assert(m@ =~= status_line(*detail));
    push_header_lines(&mut m, &detail.response_headers);
    push_char(&mut m, '\n');
    push_char(&mut m, '\n');
    let body = pretty_json_if_possible(detail.response_body.as_str());
    push_str(&mut m, body.as_str());
    assert(m@ =~= response_message(*detail));
    m
}

} // verus!

verus! {

proof fn lemma_pair_views_push(hs: Seq<(String, String)>, h: (String, String))
    ensures
        pair_views(hs.push(h)) == pair_views(hs).push((h.0@, h.1@)),
{
    assert(pair_views(hs.push(h)) =~= pair_views(hs).push((h.0@, h.1@)));
}

/// Law: a response with no headers is its status line, a blank line and the
/// body as shown.
pub proof fn law_response_without_headers(d: EntryDetail)
    requires
        d.response_headers@.len() == 0,
    ensures
        response_message(d) == status_line(d) + seq!['\n', '\n'] + pretty_body(d.response_body@),
{
    assert(pair_views(d.response_headers@) =~= Seq::<(Seq<char>, Seq<char>)>::empty());
    assert(response_message(d) =~= status_line(d) + seq!['\n', '\n'] + pretty_body(
        d.response_body@,
    ));
}

/// Law: one more response header adds one line `name: value` at the end of
/// the header section, just before the blank line, and leaves the rest of the
/// message as it was; the message grows by the length of that line.
pub proof fn law_response_header_appended(d1: EntryDetail, d2: EntryDetail, h: (String, String))
    requires
        d2.response_http_version@ == d1.response_http_version@,
        d2.response_status == d1.response_status,
        d2.response_reason@ == d1.response_reason@,
        d2.response_body@ == d1.response_body@,
        d2.response_headers@ == d1.response_headers@.push(h),
    ensures
        ({
            let m1 = response_message(d1);
            let k = m1.len() - 2 - pretty_body(d1.response_body@).len();
            &&& 0 <= k <= m1.len()
            &&& response_message(d2) == m1.take(k) + seq!['\n'] + h.0@ + seq![':', ' '] + h.1@
                + m1.skip(k)
        }),
        response_message(d2).len() == response_message(d1).len() + 3 + h.0@.len() + h.1@.len(),
{
    let m1 = response_message(d1);
    let body = pretty_body(d1.response_body@);
    let hs1 = pair_views(d1.response_headers@);
    lemma_pair_views_push(d1.response_headers@, h);
    let head = status_line(d1) + header_lines(hs1);
    let k = m1.len() - 2 - body.len();
    assert(m1 == head + seq!['\n', '\n'] + body);
    assert(k == head.len());
    assert(pair_views(d2.response_headers@).drop_last() =~= hs1);
    assert(m1.take(k) =~= head);
    assert(m1.skip(k) =~= seq!['\n', '\n'] + body);
    assert(status_line(d2) == status_line(d1));
    assert(response_message(d2) =~= m1.take(k) + seq!['\n'] + h.0@ + seq![':', ' '] + h.1@ + m1.skip(
        k,
    ));
}

/// Law: one more request header adds one line `name: value` at the end of
/// the header section, just before the blank line, and leaves the rest of the
/// message as it was, unless it is the first header naming the host (which
/// replaces the `Host` line derived from the URL).
pub proof fn law_request_header_appended(d1: EntryDetail, d2: EntryDetail, h: (String, String))
    requires
        d2.request_method@ == d1.request_method@,
        d2.request_path@ == d1.request_path@,
        d2.request_http_version@ == d1.request_http_version@,
        d2.url@ == d1.url@,
        d2.request_body@ == d1.request_body@,
        d2.request_headers@ == d1.request_headers@.push(h),
        lower(h.0@) != lower(host_name()) || has_host_header(pair_views(d1.request_headers@)),
    ensures
        ({
            let m1 = request_message(d1);
            let k = m1.len() - 2 - pretty_body(d1.request_body@).len();
            &&& 0 <= k <= m1.len()
            &&& request_message(d2) == m1.take(k) + seq!['\n'] + h.0@ + seq![':', ' '] + h.1@
                + m1.skip(k)
        }),
        request_message(d2).len() == request_message(d1).len() + 3 + h.0@.len() + h.1@.len(),
{
    let m1 = request_message(d1);
    let body = pretty_body(d1.request_body@);
    let hs1 = pair_views(d1.request_headers@);
    let hs2 = pair_views(d2.request_headers@);
    lemma_pair_views_push(d1.request_headers@, h);
    assert(hs2.drop_last() =~= hs1);
    if has_host_header(hs1) {
        let i = choose|i: int| 0 <= i < hs1.len() && lower(#[trigger] hs1[i].0) == lower(host_name());
        assert(hs2[i] == hs1[i]);
    }
    if has_host_header(hs2) {
        let i = choose|i: int| 0 <= i < hs2.len() && lower(#[trigger] hs2[i].0) == lower(host_name());
        if i < hs1.len() {
            assert(hs2[i] == hs1[i]);
        }
    }
    assert(has_host_header(hs2) == has_host_header(hs1));
    let line = d1.request_method@ + seq![' '] + shown_path(d1.request_path@) + seq![' ']
        + shown_version(d1.request_http_version@) + host_line(hs1, d1.url@);
    let head = line + header_lines(hs1);
    let k = m1.len() - 2 - body.len();
    assert(m1 == head + seq!['\n', '\n'] + body);
    assert(k == head.len());
    assert(m1.take(k) =~= head);
    assert(m1.skip(k) =~= seq!['\n', '\n'] + body);
    assert(host_line(hs2, d2.url@) == host_line(hs1, d1.url@));
    assert(request_message(d2) =~= m1.take(k) + seq!['\n'] + h.0@ + seq![':', ' '] + h.1@ + m1.skip(
        k,
    ));
}

} // verus!

verus! {

/// The request line as shown: method, target (`/` when blank) and version
/// (trimmed, `HTTP/1.1` when blank), separated by spaces.
pub open spec fn shown_request_line(d: EntryDetail) -> Seq<char> {
    d.request_method@ + seq![' '] + (if trim(d.request_path@).len() == 0 {
        seq!['/']
    } else {
        d.request_path@
    }) + seq![' '] + (if trim(d.request_http_version@).len() == 0 {
        seq!['H', 'T', 'T', 'P', '/', '1', '.', '1']
    } else {
        trim(d.request_http_version@)
    })
}

/// Law: a request message begins with its request line.
pub proof fn law_request_message_starts_with_request_line(d: EntryDetail)
    ensures
        shown_request_line(d).len() <= request_message(d).len(),
        request_message(d).take(shown_request_line(d).len() as int) == shown_request_line(d),
{
    let line = shown_request_line(d);
    assert(http_1_1() =~= seq!['H', 'T', 'T', 'P', '/', '1', '.', '1']);
    let m = request_message(d);
    let rest = host_line(pair_views(d.request_headers@), d.url@) + header_lines(
        pair_views(d.request_headers@),
    ) + seq!['\n', '\n'] + pretty_body(d.request_body@);
    assert(m =~= line + rest);
    assert(m.take(line.len() as int) =~= line);
}

/// Law: where no header names the host, the host of the URL is shown in a
/// `Host` line right after the request line; a URL without a host adds no
/// line there.
pub proof fn law_host_line_from_url(d1: EntryDetail, d2: EntryDetail, h: Seq<char>)
    requires
        d2.request_method@ == d1.request_method@,
        d2.request_path@ == d1.request_path@,
        d2.request_http_version@ == d1.request_http_version@,
        d2.request_headers@ == d1.request_headers@,
        d2.request_body@ == d1.request_body@,
        !has_host_header(pair_views(d1.request_headers@)),
        url_host(d1.url@) == Some(h),
        url_host(d2.url@) is None,
    ensures
        ({
            let m2 = request_message(d2);
            let l = shown_request_line(d1).len() as int;
            &&& l <= m2.len()
            &&& request_message(d1) == m2.take(l) + seq!['\n', 'H', 'o', 's', 't', ':', ' '] + h
                + m2.skip(l)
        }),
{
    let line = shown_request_line(d1);
    assert(http_1_1() =~= seq!['H', 'T', 'T', 'P', '/', '1', '.', '1']);
    let hs = pair_views(d1.request_headers@);
    let tail = header_lines(hs) + seq!['\n', '\n'] + pretty_body(d1.request_body@);
    let m2 = request_message(d2);
    assert(host_line(hs, d2.url@) =~= Seq::<char>::empty());
    assert(m2 =~= line + tail);
    assert(m2.take(line.len() as int) =~= line);
    assert(m2.skip(line.len() as int) =~= tail);
    assert(request_message(d1) =~= line + seq!['\n', 'H', 'o', 's', 't', ':', ' '] + h + tail);
}

/// Law: where a header names the host, the URL does not change the request
/// message.
pub proof fn law_host_header_overrides_url(d1: EntryDetail, d2: EntryDetail)
    requires
        d2.request_method@ == d1.request_method@,
        d2.request_path@ == d1.request_path@,
        d2.request_http_version@ == d1.request_http_version@,
        d2.request_headers@ == d1.request_headers@,
        d2.request_body@ == d1.request_body@,
        has_host_header(pair_views(d1.request_headers@)),
    ensures
        request_message(d1) == request_message(d2),
{
}

/// The status line as shown: version (trimmed, `HTTP/1.1` when blank), the
/// status code in decimal and, when not blank, the trimmed reason phrase.
pub open spec fn shown_status_line(d: EntryDetail) -> Seq<char> {
    (if trim(d.response_http_version@).len() == 0 {
        seq!['H', 'T', 'T', 'P', '/', '1', '.', '1']
    } else {
        trim(d.response_http_version@)
    }) + seq![' '] + decimal(d.response_status as nat) + (if trim(d.response_reason@).len() == 0 {
        Seq::empty()
    } else {
        seq![' '] + trim(d.response_reason@)
    })
}

/// Law: a response message begins with its status line.
pub proof fn law_response_message_starts_with_status_line(d: EntryDetail)
    ensures
        shown_status_line(d).len() <= response_message(d).len(),
        response_message(d).take(shown_status_line(d).len() as int) == shown_status_line(d),
{
    let line = shown_status_line(d);
    assert(http_1_1() =~= seq!['H', 'T', 'T', 'P', '/', '1', '.', '1']);
    assert(status_line(d) =~= line);
    let m = response_message(d);
    let rest = header_lines(pair_views(d.response_headers@)) + seq!['\n', '\n'] + pretty_body(
        d.response_body@,
    );
    assert(m =~= line + rest);
    assert(m.take(line.len() as int) =~= line);
}

/// Law: a message body is shown unchanged when it is not blank and not JSON,
/// and not at all when it is blank.
pub proof fn law_plain_body_is_unchanged(body: Seq<char>)
    ensures
        trim(body).len() == 0 ==> pretty_body(body).len() == 0,
        trim(body).len() > 0 && json_pretty(body) is None ==> pretty_body(body) == body,
        trim(body).len() > 0 && json_pretty(body) is Some ==> pretty_body(body) == json_pretty(
            body,
        )->0,
{
}

} // verus!

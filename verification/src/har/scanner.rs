//! A byte-level scanner that finds the `log.entries` array of a HAR document
//! and the byte range of each entry object in it without decoding the
//! entries, honouring string literals and their escapes.

use vstd::prelude::*;
use vstd::utf8::valid_utf8;

use super::types::{agrees_at, EntryRange, HarError, HarErrorKind};
use crate::text::str_eq;

verus! {

/// `"`
pub const QUOTE: u8 = 0x22;

/// Backslash.
pub const BACKSLASH: u8 = 0x5c;

/// `{`
pub const LBRACE: u8 = 0x7b;

/// `}`
pub const RBRACE: u8 = 0x7d;

/// `[`
pub const LBRACKET: u8 = 0x5b;

/// `]`
pub const RBRACKET: u8 = 0x5d;

/// `:`
pub const COLON: u8 = 0x3a;

/// `,`
pub const COMMA: u8 = 0x2c;

/// JSON insignificant whitespace: space, tab, carriage return, line feed.
pub open spec fn is_ws(b: u8) -> bool {
    b == 0x20u8 || b == 0x09u8 || b == 0x0du8 || b == 0x0au8
}

/// The first position at or after `i` that does not hold a byte of the skipped
/// class (whitespace, and commas too when `commas` holds), or `i` itself once
/// `i` is at or past the end.
pub open spec fn skip_from(bytes: Seq<u8>, i: int, commas: bool) -> int
    decreases bytes.len() - i,
{
    if 0 <= i < bytes.len() && (is_ws(bytes[i]) || (commas && bytes[i] == COMMA)) {
        skip_from(bytes, i + 1, commas)
    } else {
        i
    }
}

/// Skipping moves forward, stays inside the bytes, and stops at a byte
/// outside the skipped class.
pub proof fn lemma_skip_from(bytes: Seq<u8>, i: int, commas: bool)
    requires
        0 <= i,
    ensures
        i <= skip_from(bytes, i, commas),
        i <= bytes.len() ==> skip_from(bytes, i, commas) <= bytes.len(),
        skip_from(bytes, i, commas) < bytes.len() ==> !is_ws(bytes[skip_from(bytes, i, commas)]),
        skip_from(bytes, i, commas) < bytes.len() && commas ==> bytes[skip_from(bytes, i, commas)]
            != COMMA,
    decreases bytes.len() - i,
{
    if 0 <= i < bytes.len() && (is_ws(bytes[i]) || (commas && bytes[i] == COMMA)) {
        lemma_skip_from(bytes, i + 1, commas);
    }
}

fn is_ws_byte(b: u8) -> (r: bool)
    ensures
        r == is_ws(b),
{
    b == 0x20 || b == 0x09 || b == 0x0d || b == 0x0a
}

/// Moves `i` past whitespace.
fn skip_ws(bytes: &[u8], i: &mut usize)
    ensures
        *final(i) == skip_from(bytes@, *old(i) as int, false),
{
    while *i < bytes.len() && is_ws_byte(bytes[*i])
        invariant
            skip_from(bytes@, *i as int, false) == skip_from(bytes@, *old(i) as int, false),
        decreases bytes.len() - *i,
    {
        *i = *i + 1;
    }
}

/// Moves `i` past whitespace and commas.
fn skip_ws_and_commas(bytes: &[u8], i: &mut usize)
    ensures
        *final(i) == skip_from(bytes@, *old(i) as int, true),
{
    while *i < bytes.len() && (is_ws_byte(bytes[*i]) || bytes[*i] == COMMA)
        invariant
            skip_from(bytes@, *i as int, true) == skip_from(bytes@, *old(i) as int, true),
        decreases bytes.len() - *i,
    {
        *i = *i + 1;
    }
}

/// One byte of the bracket scan: the nesting depth of `open`/`close` pairs,
/// whether the scan is inside a string literal, and whether the previous byte
/// inside that literal was an unescaped backslash.
pub open spec fn delim_step(st: (int, bool, bool), ch: u8, open: u8, close: u8) -> (int, bool, bool) {
    let (depth, in_string, escaped) = st;
    if in_string {
        if ch == BACKSLASH && !escaped {
            (depth, true, true)
        } else if ch == QUOTE && !escaped {
            (depth, false, escaped)
        } else {
            (depth, true, false)
        }
    } else if ch == QUOTE {
        (depth, true, escaped)
    } else if ch == open {
        (depth + 1, false, escaped)
    } else if ch == close {
        (if depth > 0 { depth - 1 } else { 0 }, false, escaped)
    } else {
        (depth, false, escaped)
    }
}

/// The bracket-scan state after reading `bytes[start..k]`.
pub open spec fn delim_state(bytes: Seq<u8>, start: int, k: int, open: u8, close: u8) -> (
    int,
    bool,
    bool,
)
    decreases k - start,
{
    if k <= start {
        (0, false, false)
    } else {
        delim_step(delim_state(bytes, start, k - 1, open, close), bytes[k - 1], open, close)
    }
}

/// Reading `bytes[k - 1]` is an unquoted `close` that brings the depth of the
/// scan started at `start` back to zero.
pub open spec fn closes_at(bytes: Seq<u8>, start: int, k: int, open: u8, close: u8) -> bool {
    let st = delim_state(bytes, start, k - 1, open, close);
    &&& start < k <= bytes.len()
    &&& !st.1
    &&& bytes[k - 1] != QUOTE
    &&& bytes[k - 1] != open
    &&& bytes[k - 1] == close
    &&& st.0 <= 1
}

/// Where the bracketed value that starts at `start` ends (one past its closing
/// byte): the first unquoted `close` that brings the nesting depth back to
/// zero. `None` when `start` does not hold `open` or no such byte exists.
#[verifier::opaque]
pub open spec fn delim_end(bytes: Seq<u8>, start: int, open: u8, close: u8) -> Option<int> {
    if 0 <= start < bytes.len() && bytes[start] == open && exists|k: int|
        #[trigger] closes_at(bytes, start, k, open, close) {
        Some(
            choose|k: int|
                #[trigger] closes_at(bytes, start, k, open, close) && forall|j: int|
                    start < j < k ==> !closes_at(bytes, start, j, open, close),
        )
    } else {
        None
    }
}

/// Any position at which the scan closes has a first such position.
pub proof fn lemma_first_close(bytes: Seq<u8>, start: int, k: int, open: u8, close: u8)
    requires
        closes_at(bytes, start, k, open, close),
    ensures
        exists|m: int|
            #[trigger] closes_at(bytes, start, m, open, close) && forall|j: int|
                start < j < m ==> !closes_at(bytes, start, j, open, close),
    decreases k - start,
{
    if exists|j: int| start < j < k && closes_at(bytes, start, j, open, close) {
        let j = choose|j: int| start < j < k && closes_at(bytes, start, j, open, close);
        lemma_first_close(bytes, start, j, open, close);
    }
}

/// The least closing position is unique.
pub proof fn lemma_delim_end(bytes: Seq<u8>, start: int, open: u8, close: u8)
    ensures
        delim_end(bytes, start, open, close) matches Some(e) ==> {
            &&& closes_at(bytes, start, e, open, close)
            &&& start < e <= bytes.len()
            &&& forall|j: int| start < j < e ==> !closes_at(bytes, start, j, open, close)
        },
        delim_end(bytes, start, open, close) is None <==> !(0 <= start < bytes.len()
            && bytes[start] == open && exists|k: int| closes_at(bytes, start, k, open, close)),
{
    reveal(delim_end);
    if 0 <= start < bytes.len() && bytes[start] == open && exists|k: int|
        #[trigger] closes_at(bytes, start, k, open, close) {
        let k = choose|k: int| #[trigger] closes_at(bytes, start, k, open, close);
        lemma_first_close(bytes, start, k, open, close);
    }
}

/// Finds the end of the bracketed value that starts at `start`, skipping
/// brackets inside string literals and honouring backslash escapes there.
fn match_delimited(bytes: &[u8], start: usize, open: u8, close: u8) -> (r: Result<usize, HarError>)
    ensures
        match r {
            Ok(e) => delim_end(bytes@, start as int, open, close) == Some(e as int),
            Err(err) => err is InvalidEntriesShape && delim_end(bytes@, start as int, open, close)
                is None,
        },
{
    proof {
        lemma_delim_end(bytes@, start as int, open, close);
    }
    if !(start < bytes.len() && bytes[start] == open) {
        return Err(HarError::InvalidEntriesShape);
    }
    let mut i = start;
    let mut depth: usize = 0;
    let mut in_string = false;
    let mut escaped = false;
    while i < bytes.len()
        invariant
            start <= i <= bytes.len(),
            start < bytes.len(),
            bytes[start as int] == open,
            depth <= i - start,
            delim_state(bytes@, start as int, i as int, open, close) == (
                depth as int,
                in_string,
                escaped,
            ),
            forall|k: int| start < k <= i ==> !closes_at(bytes@, start as int, k, open, close),
        decreases bytes.len() - i,
    {
        let ch = bytes[i];
        if in_string {
            if ch == BACKSLASH && !escaped {
                escaped = true;
            } else if ch == QUOTE && !escaped {
                in_string = false;
            } else {
                escaped = false;
            }
            i = i + 1;
            continue;
        }
        if ch == QUOTE {
            in_string = true;
        } else if ch == open {
            depth = depth + 1;
        } else if ch == close {
            depth = if depth > 0 { depth - 1 } else { 0 };
            if depth == 0 {
                assert(closes_at(bytes@, start as int, i + 1, open, close));
                proof {
                    lemma_delim_end(bytes@, start as int, open, close);
                }
                return Ok(i + 1);
            }
        }
        i = i + 1;
    }
    Err(HarError::InvalidEntriesShape)
}

/// The text that serde_json decodes from the bytes of one JSON string literal
/// (quotes included), or `None` where serde_json refuses them.
pub uninterp spec fn json_string_value(raw: Seq<u8>) -> Option<Seq<char>>;

/// Decodes one JSON string literal with `serde_json::from_slice::<String>`.
/// Trusted: the call succeeds exactly when [`json_string_value`] is `Some`, and
/// then yields that text; which error it yields otherwise is not stated.
#[verifier::external_body]
fn decode_json_string(raw: &[u8]) -> (r: Result<String, serde_json::Error>)
    ensures
        r is Ok <==> json_string_value(raw@) is Some,
        r matches Ok(s) ==> json_string_value(raw@) == Some(s@),
{
    serde_json::from_slice::<String>(raw)
}

/// Inside the string literal opened at `start`, whether the byte before `k`
/// was an unescaped backslash (so that `bytes[k]` is escaped).
pub open spec fn escaped_before(bytes: Seq<u8>, start: int, k: int) -> bool
    decreases k - start,
{
    if k <= start + 1 {
        false
    } else {
        bytes[k - 1] == BACKSLASH && !escaped_before(bytes, start, k - 1)
    }
}

/// `bytes[q]` is an unescaped quote that closes the string literal opened at `start`.
pub open spec fn string_closes_at(bytes: Seq<u8>, start: int, q: int) -> bool {
    &&& start < q < bytes.len()
    &&& bytes[q] == QUOTE
    &&& !escaped_before(bytes, start, q)
}

/// Position of the quote that closes the string literal opened at `start`.
pub open spec fn string_close(bytes: Seq<u8>, start: int) -> Option<int> {
    if 0 <= start < bytes.len() && bytes[start] == QUOTE && exists|q: int|
        #[trigger] string_closes_at(bytes, start, q) {
        Some(
            choose|q: int|
                #[trigger] string_closes_at(bytes, start, q) && forall|j: int|
                    start < j < q ==> !string_closes_at(bytes, start, j),
        )
    } else {
        None
    }
}

/// Any closing quote has a first one.
pub proof fn lemma_first_string_close(bytes: Seq<u8>, start: int, q: int)
    requires
        string_closes_at(bytes, start, q),
    ensures
        exists|m: int|
            #[trigger] string_closes_at(bytes, start, m) && forall|j: int|
                start < j < m ==> !string_closes_at(bytes, start, j),
    decreases q - start,
{
    if exists|j: int| start < j < q && string_closes_at(bytes, start, j) {
        let j = choose|j: int| start < j < q && string_closes_at(bytes, start, j);
        lemma_first_string_close(bytes, start, j);
    }
}

/// The closing quote found is the first one.
pub proof fn lemma_string_close(bytes: Seq<u8>, start: int)
    ensures
        string_close(bytes, start) matches Some(q) ==> {
            &&& string_closes_at(bytes, start, q)
            &&& forall|j: int| start < j < q ==> !string_closes_at(bytes, start, j)
        },
        string_close(bytes, start) is None ==> !(0 <= start < bytes.len() && bytes[start]
            == QUOTE && exists|q: int| string_closes_at(bytes, start, q)),
{
    if 0 <= start < bytes.len() && bytes[start] == QUOTE && exists|q: int|
        #[trigger] string_closes_at(bytes, start, q) {
        let q = choose|q: int| #[trigger] string_closes_at(bytes, start, q);
        lemma_first_string_close(bytes, start, q);
    }
}

/// The string literal at `start`: its decoded text and the position just past
/// its closing quote.
#[verifier::opaque]
pub open spec fn string_at(bytes: Seq<u8>, start: int) -> Result<(Seq<char>, int), HarErrorKind> {
    match string_close(bytes, start) {
        None => Err(HarErrorKind::InvalidEntriesShape),
        Some(q) => match json_string_value(bytes.subrange(start, q + 1)) {
            None => Err(HarErrorKind::Json),
            Some(text) => Ok((text, q + 1)),
        },
    }
}

/// Reads the JSON string literal that starts at `start`.
fn parse_json_string(bytes: &[u8], start: usize) -> (r: Result<(String, usize), HarError>)
    ensures
        match (r, string_at(bytes@, start as int)) {
            (Ok((text, end)), Ok((t, e))) => text@ == t && end == e,
            (Err(err), Err(k)) => err.kind() == k,
            _ => false,
        },
{
    reveal(string_at);
    proof {
        lemma_string_close(bytes@, start as int);
    }
    if !(start < bytes.len() && bytes[start] == QUOTE) {
        return Err(HarError::InvalidEntriesShape);
    }
    let mut i = start + 1;
    let mut escaped = false;
    while i < bytes.len()
        invariant
            start < i <= bytes.len(),
            bytes[start as int] == QUOTE,
            escaped == escaped_before(bytes@, start as int, i as int),
            forall|j: int| start < j < i ==> !string_closes_at(bytes@, start as int, j),
        decreases bytes.len() - i,
    {
        let ch = bytes[i];
        if ch == BACKSLASH && !escaped {
            escaped = true;
        } else if ch == QUOTE && !escaped {
            assert(string_closes_at(bytes@, start as int, i as int));
            proof {
                reveal(string_at);
                lemma_string_close(bytes@, start as int);
            }
            let raw = vstd::slice::slice_subrange(bytes, start, i + 1);
            return match decode_json_string(raw) {
                Ok(text) => Ok((text, i + 1)),
                Err(e) => Err(HarError::Json(e)),
            };
        } else {
            escaped = false;
        }
        i = i + 1;
    }
    Err(HarError::InvalidEntriesShape)
}

/// A string literal ends after its opening quote and inside the bytes.
pub proof fn lemma_string_at(bytes: Seq<u8>, start: int)
    ensures
        string_at(bytes, start) matches Ok((_, e)) ==> start + 1 < e <= bytes.len(),
{
    reveal(string_at);
    lemma_string_close(bytes, start);
}

/// A byte that ends a bare scalar (number, `true`, `false`, `null`).
pub open spec fn is_scalar_stop(b: u8) -> bool {
    b == COMMA || b == RBRACE || b == RBRACKET || is_ws(b)
}

/// The first position at or after `i` that holds a scalar-ending byte, or the end.
pub open spec fn scalar_end(bytes: Seq<u8>, i: int) -> int
    decreases bytes.len() - i,
{
    if 0 <= i < bytes.len() && !is_scalar_stop(bytes[i]) {
        scalar_end(bytes, i + 1)
    } else {
        i
    }
}

pub proof fn lemma_scalar_end(bytes: Seq<u8>, i: int)
    requires
        0 <= i <= bytes.len(),
    ensures
        i <= scalar_end(bytes, i) <= bytes.len(),
    decreases bytes.len() - i,
{
    if 0 <= i < bytes.len() && !is_scalar_stop(bytes[i]) {
        lemma_scalar_end(bytes, i + 1);
    }
}

/// One past the end of the JSON value that starts at `start`: a string
/// literal, a bracketed object or array, or a bare scalar.
pub open spec fn value_end(bytes: Seq<u8>, start: int) -> Result<int, HarErrorKind> {
    if !(0 <= start < bytes.len()) {
        Err(HarErrorKind::InvalidEntriesShape)
    } else if bytes[start] == QUOTE {
        match string_at(bytes, start) {
            Ok((_, e)) => Ok(e),
            Err(k) => Err(k),
        }
    } else if bytes[start] == LBRACE {
        match delim_end(bytes, start, LBRACE, RBRACE) {
            Some(e) => Ok(e),
            None => Err(HarErrorKind::InvalidEntriesShape),
        }
    } else if bytes[start] == LBRACKET {
        match delim_end(bytes, start, LBRACKET, RBRACKET) {
            Some(e) => Ok(e),
            None => Err(HarErrorKind::InvalidEntriesShape),
        }
    } else {
        Ok(scalar_end(bytes, start))
    }
}

pub proof fn lemma_value_end(bytes: Seq<u8>, start: int)
    ensures
        value_end(bytes, start) matches Ok(e) ==> start <= e <= bytes.len(),
{
    lemma_string_at(bytes, start);
    lemma_delim_end(bytes, start, LBRACE, RBRACE);
    lemma_delim_end(bytes, start, LBRACKET, RBRACKET);
    if 0 <= start < bytes.len() {
        lemma_scalar_end(bytes, start);
    }
}

/// Skips the JSON value that starts at `start`.
fn skip_json_value(bytes: &[u8], start: usize) -> (r: Result<usize, HarError>)
    ensures
        agrees_at(r, value_end(bytes@, start as int)),
{
    if start >= bytes.len() {
        return Err(HarError::InvalidEntriesShape);
    }
    let ch = bytes[start];
    if ch == QUOTE {
        match parse_json_string(bytes, start) {
            Ok((_, e)) => Ok(e),
            Err(err) => Err(err),
        }
    } else if ch == LBRACE {
        match_delimited(bytes, start, LBRACE, RBRACE)
    } else if ch == LBRACKET {
        match_delimited(bytes, start, LBRACKET, RBRACKET)
    } else {
        let mut i = start;
        while i < bytes.len() && !(bytes[i] == COMMA || bytes[i] == RBRACE || bytes[i] == RBRACKET
            || is_ws_byte(bytes[i]))
            invariant
                start <= i <= bytes.len(),
                scalar_end(bytes@, i as int) == scalar_end(bytes@, start as int),
            decreases bytes.len() - i,
        {
            i = i + 1;
        }
        Ok(i)
    }
}

/// The object member whose name literal starts at `j`: either the start of
/// its value when the name is `wanted` (`(true, v)`), or the position just past
/// its value otherwise (`(false, n)`).
#[verifier::opaque]
pub open spec fn member_at(bytes: Seq<u8>, j: int, wanted: Seq<char>) -> Result<
    (bool, int),
    HarErrorKind,
> {
    match string_at(bytes, j) {
        Err(k) => Err(k),
        Ok((key, e)) => {
            let c = skip_from(bytes, e, false);
            if !(c < bytes.len() && bytes[c] == COLON) {
                Err(HarErrorKind::InvalidEntriesShape)
            } else {
                let v = skip_from(bytes, c + 1, false);
                if key == wanted {
                    Ok((true, v))
                } else {
                    match value_end(bytes, v) {
                        Err(k) => Err(k),
                        Ok(n) => Ok((false, n)),
                    }
                }
            }
        },
    }
}

pub proof fn lemma_member_at(bytes: Seq<u8>, j: int, wanted: Seq<char>)
    requires
        0 <= j,
    ensures
        member_at(bytes, j, wanted) matches Ok((_, n)) ==> j < n <= bytes.len(),
{
    reveal(member_at);
    lemma_string_at(bytes, j);
    if let Ok((key, e)) = string_at(bytes, j) {
        lemma_skip_from(bytes, e, false);
        let c = skip_from(bytes, e, false);
        if c < bytes.len() {
            lemma_skip_from(bytes, c + 1, false);
            lemma_value_end(bytes, skip_from(bytes, c + 1, false));
        }
    }
}

/// Reads one object member whose name literal starts at `j`.
fn read_member(bytes: &[u8], j: usize, wanted_key: &str) -> (r: Result<(bool, usize), HarError>)
    ensures
        match (r, member_at(bytes@, j as int, wanted_key@)) {
            (Ok((found, p)), Ok((f, q))) => found == f && p as int == q,
            (Err(err), Err(k)) => err.kind() == k,
            _ => false,
        },
{
    reveal(member_at);
    proof {
        lemma_string_at(bytes@, j as int);
    }
    let (key, end) = match parse_json_string(bytes, j) {
        Ok(p) => p,
        Err(err) => {
            return Err(err);
        },
    };
    proof {
        lemma_skip_from(bytes@, end as int, false);
    }
    let mut i = end;
    skip_ws(bytes, &mut i);
    if !(i < bytes.len() && bytes[i] == COLON) {
        return Err(HarError::InvalidEntriesShape);
    }
    i = i + 1;
    skip_ws(bytes, &mut i);
    if str_eq(key.as_str(), wanted_key) {
        return Ok((true, i));
    }
    match skip_json_value(bytes, i) {
        Ok(n) => Ok((false, n)),
        Err(err) => Err(err),
    }
}

/// Scanning the members of an object from position `i`: where the value of
/// the first member named `wanted` starts. Commas between members are skipped
/// and the values of other members are stepped over; reaching the closing
/// brace first is `MissingEntries`.
#[verifier::opaque]
pub open spec fn field_value_from(bytes: Seq<u8>, i: int, wanted: Seq<char>) -> Result<
    int,
    HarErrorKind,
>
    decreases bytes.len() - i,
{
    let j = skip_from(bytes, i, false);
    if !(0 <= i && j < bytes.len()) {
        Err(HarErrorKind::InvalidEntriesShape)
    } else if bytes[j] == RBRACE {
        Err(HarErrorKind::MissingEntries)
    } else if bytes[j] == COMMA {
        proof {
            lemma_skip_from(bytes, i, false);
        }
        field_value_from(bytes, j + 1, wanted)
    } else if bytes[j] == QUOTE {
        match member_at(bytes, j, wanted) {
            Err(k) => Err(k),
            Ok((found, n)) => if found {
                Ok(n)
            } else {
                proof {
                    lemma_skip_from(bytes, i, false);
                    lemma_member_at(bytes, j, wanted);
                }
                field_value_from(bytes, n, wanted)
            },
        }
    } else {
        Err(HarErrorKind::InvalidEntriesShape)
    }
}

/// Where the value of the member named `wanted` starts, in the object that
/// opens at `object_start`.
pub open spec fn field_value_in(bytes: Seq<u8>, object_start: int, wanted: Seq<char>) -> Result<
    int,
    HarErrorKind,
> {
    if 0 <= object_start < bytes.len() && bytes[object_start] == LBRACE {
        field_value_from(bytes, object_start + 1, wanted)
    } else {
        Err(HarErrorKind::InvalidEntriesShape)
    }
}

/// Finds where the value of member `wanted_key` starts in the object that
/// opens at `object_start`.
fn find_field_value_start(bytes: &[u8], object_start: usize, wanted_key: &str) -> (r: Result<
    usize,
    HarError,
>)
    ensures
        agrees_at(r, field_value_in(bytes@, object_start as int, wanted_key@)),
{
    reveal(field_value_from);
    if !(object_start < bytes.len() && bytes[object_start] == LBRACE) {
        return Err(HarError::InvalidEntriesShape);
    }
    let mut i = object_start + 1;
    loop
        invariant
            object_start < i <= bytes.len(),
            field_value_from(bytes@, i as int, wanted_key@) == field_value_in(
                bytes@,
                object_start as int,
                wanted_key@,
            ),
        decreases bytes.len() - i,
    {
        let ghost i0 = i as int;
        proof {
            reveal(field_value_from);
            lemma_skip_from(bytes@, i as int, false);
        }
        skip_ws(bytes, &mut i);
        if i >= bytes.len() {
            return Err(HarError::InvalidEntriesShape);
        }
        let ch = bytes[i];
        if ch == RBRACE {
            return Err(HarError::MissingEntries);
        } else if ch == COMMA {
            i = i + 1;
        } else if ch == QUOTE {
            proof {
                lemma_member_at(bytes@, i as int, wanted_key@);
            }
            match read_member(bytes, i, wanted_key) {
                Ok((true, v)) => {
                    return Ok(v);
                },
                Ok((false, n)) => {
                    i = n;
                },
                Err(err) => {
                    return Err(err);
                },
            }
        } else {
            return Err(HarError::InvalidEntriesShape);
        }
    }
}

/// Checks UTF-8 with `std::str::from_utf8`. Trusted: std documents that it
/// succeeds exactly on valid UTF-8, which `valid_utf8` defines.
#[verifier::external_body]
fn is_valid_utf8(bytes: &[u8]) -> (ok: bool)
    ensures
        ok == valid_utf8(bytes@),
{
    std::str::from_utf8(bytes).is_ok()
}

/// `InvalidUtf8` unless the bytes are UTF-8.
fn ensure_utf8(bytes: &[u8]) -> (r: Result<(), HarError>)
    ensures
        r is Ok <==> valid_utf8(bytes@),
        r matches Err(e) ==> e is InvalidUtf8,
{
    if is_valid_utf8(bytes) {
        Ok(())
    } else {
        Err(HarError::InvalidUtf8)
    }
}

/// The member name `log`.
pub open spec fn log_key() -> Seq<char> {
    seq!['l', 'o', 'g']
}

/// The member name `entries`.
pub open spec fn entries_key() -> Seq<char> {
    seq!['e', 'n', 't', 'r', 'i', 'e', 's']
}

/// Where the `log.entries` array of a HAR document lies: the position of its
/// opening bracket and one past its closing bracket.
///
/// The document must be UTF-8 and, after leading whitespace, an object whose
/// member `log` is an object whose member `entries` is an array.
#[verifier::opaque]
pub open spec fn entries_array(bytes: Seq<u8>) -> Result<(int, int), HarErrorKind> {
    let i = skip_from(bytes, 0, false);
    if !valid_utf8(bytes) {
        Err(HarErrorKind::InvalidUtf8)
    } else if !(i < bytes.len() && bytes[i] == LBRACE) {
        Err(HarErrorKind::InvalidEntriesShape)
    } else {
        match field_value_in(bytes, i, log_key()) {
            Err(k) => Err(k),
            Ok(l) => if !(0 <= l < bytes.len() && bytes[l] == LBRACE) {
                Err(HarErrorKind::InvalidEntriesShape)
            } else {
                match field_value_in(bytes, l, entries_key()) {
                    Err(k) => Err(k),
                    Ok(a) => if !(0 <= a < bytes.len() && bytes[a] == LBRACKET) {
                        Err(HarErrorKind::InvalidEntriesShape)
                    } else {
                        match delim_end(bytes, a, LBRACKET, RBRACKET) {
                            None => Err(HarErrorKind::InvalidEntriesShape),
                            Some(e) => Ok((a, e)),
                        }
                    },
                }
            },
        }
    }
}

pub proof fn lemma_entries_array(bytes: Seq<u8>)
    ensures
        entries_array(bytes) matches Ok((a, e)) ==> {
            &&& 0 <= a < e <= bytes.len()
            &&& bytes[a] == LBRACKET
            &&& delim_end(bytes, a, LBRACKET, RBRACKET) == Some(e)
        },
{
    reveal(entries_array);
    if let Ok((a, e)) = entries_array(bytes) {
        lemma_delim_end(bytes, a, LBRACKET, RBRACKET);
    }
}

/// Locates the `log.entries` array: the position of its `[` and one past its `]`.
pub fn find_entries_array(bytes: &[u8]) -> (r: Result<(usize, usize), HarError>)
    ensures
        match (r, entries_array(bytes@)) {
            (Ok((s, e)), Ok((s2, e2))) => s as int == s2 && e as int == e2,
            (Err(err), Err(k)) => err.kind() == k,
            _ => false,
        },
{
    reveal(entries_array);
    match ensure_utf8(bytes) {
        Ok(()) => {},
        Err(err) => {
            return Err(err);
        },
    }
    let mut i: usize = 0;
    skip_ws(bytes, &mut i);
    if !(i < bytes.len() && bytes[i] == LBRACE) {
        return Err(HarError::InvalidEntriesShape);
    }
    let log_key_text = "log";
    proof {
        reveal_strlit("log");
        assert(log_key_text@ =~= log_key());
    }
    let log_value_start = match find_field_value_start(bytes, i, log_key_text) {
        Ok(v) => v,
        Err(err) => {
            return Err(err);
        },
    };
    if !(log_value_start < bytes.len() && bytes[log_value_start] == LBRACE) {
        return Err(HarError::InvalidEntriesShape);
    }
    let entries_key_text = "entries";
    proof {
        reveal_strlit("entries");
        assert(entries_key_text@ =~= entries_key());
    }
    let entries_value_start = match find_field_value_start(bytes, log_value_start, entries_key_text) {
        Ok(v) => v,
        Err(err) => {
            return Err(err);
        },
    };
    if !(entries_value_start < bytes.len() && bytes[entries_value_start] == LBRACKET) {
        return Err(HarError::InvalidEntriesShape);
    }
    match match_delimited(bytes, entries_value_start, LBRACKET, RBRACKET) {
        Ok(end) => Ok((entries_value_start, end)),
        Err(err) => Err(err),
    }
}

/// The entry objects of the array whose bytes lie before `end`, scanning from
/// `i`: separators (whitespace and commas) are skipped, a `]` or the array end
/// stops the scan, and every element must be an object.
#[verifier::opaque]
pub open spec fn ranges_from(bytes: Seq<u8>, i: int, end: int) -> Result<
    Seq<EntryRange>,
    HarErrorKind,
>
    decreases bytes.len() - i,
{
    let j = skip_from(bytes, i, true);
    if !(0 <= i < end) || j >= end || j >= bytes.len() || bytes[j] == RBRACKET {
        Ok(seq![])
    } else if bytes[j] != LBRACE {
        Err(HarErrorKind::InvalidEntriesShape)
    } else {
        match delim_end(bytes, j, LBRACE, RBRACE) {
            None => Err(HarErrorKind::InvalidEntriesShape),
            Some(k) => {
                proof {
                    lemma_skip_from(bytes, i, true);
                    lemma_delim_end(bytes, j, LBRACE, RBRACE);
                }
                match ranges_from(bytes, k, end) {
                    Err(err) => Err(err),
                    Ok(rest) => Ok(seq![EntryRange { start: j as usize, end: k as usize }] + rest),
                }
            },
        }
    }
}

pub proof fn lemma_skip_idempotent(bytes: Seq<u8>, i: int, commas: bool)
    requires
        0 <= i,
    ensures
        skip_from(bytes, skip_from(bytes, i, commas), commas) == skip_from(bytes, i, commas),
{
    lemma_skip_from(bytes, i, commas);
}

/// Skipping separators first does not change the scanned ranges.
pub proof fn lemma_ranges_from_skip(bytes: Seq<u8>, i: int, end: int)
    requires
        0 <= i,
    ensures
        ranges_from(bytes, skip_from(bytes, i, true), end) == ranges_from(bytes, i, end),
{
    reveal(ranges_from);
    lemma_skip_from(bytes, i, true);
    lemma_skip_idempotent(bytes, i, true);
}

/// The byte ranges of the entry objects of `log.entries`, in file order.
pub open spec fn entry_ranges(bytes: Seq<u8>) -> Result<Seq<EntryRange>, HarErrorKind> {
    match entries_array(bytes) {
        Err(k) => Err(k),
        Ok((s, e)) => ranges_from(bytes, s + 1, e),
    }
}

/// Scans a HAR document for the byte range of every entry object in
/// `log.entries`, without decoding the entries.
pub fn scan_entry_ranges(bytes: &[u8]) -> (r: Result<Vec<EntryRange>, HarError>)
    ensures
        match (r, entry_ranges(bytes@)) {
            (Ok(v), Ok(s)) => v@ == s,
            (Err(err), Err(k)) => err.kind() == k,
            _ => false,
        },
{
    reveal(ranges_from);
    let (entries_start, entries_end) = match find_entries_array(bytes) {
        Ok(p) => p,
        Err(err) => {
            return Err(err);
        },
    };
    proof {
        lemma_entries_array(bytes@);
        reveal(ranges_from);
    }
    let mut i = entries_start + 1;
    let mut ranges: Vec<EntryRange> = Vec::new();
    while i < entries_end
        invariant
            entries_end <= bytes.len(),
            i <= bytes.len(),
            entry_ranges(bytes@) == match ranges_from(bytes@, i as int, entries_end as int) {
                Ok(rest) => Ok::<Seq<EntryRange>, HarErrorKind>(ranges@ + rest),
                Err(k) => Err(k),
            },
        decreases bytes.len() - i,
    {
        let ghost i0 = i as int;
        proof {
            reveal(ranges_from);
            lemma_skip_from(bytes@, i as int, true);
        }
        skip_ws_and_commas(bytes, &mut i);
        proof {
            lemma_ranges_from_skip(bytes@, i0, entries_end as int);
        }
        if i >= entries_end || bytes[i] == RBRACKET {
            proof {
                lemma_skip_idempotent(bytes@, i0, true);
                assert(ranges@ + seq![] =~= ranges@);
            }
            return Ok(ranges);
        }
        if bytes[i] != LBRACE {
            return Err(HarError::InvalidEntriesShape);
        }
        proof {
            lemma_delim_end(bytes@, i as int, LBRACE, RBRACE);
        }
        let end = match match_delimited(bytes, i, LBRACE, RBRACE) {
            Ok(e) => e,
            Err(err) => {
                return Err(err);
            },
        };
        let ghost before = ranges@;
        ranges.push(EntryRange { start: i, end });
        proof {
            let r = EntryRange { start: i, end };
            match ranges_from(bytes@, end as int, entries_end as int) {
                Ok(rest) => {
                    assert(before + (seq![r] + rest) =~= ranges@ + rest);
                },
                Err(_) => {},
            }
        }
        i = end;
    }
    Ok(ranges)
}

} // verus!

verus! {

pub proof fn lemma_ranges_from(bytes: Seq<u8>, i: int, end: int)
    requires
        0 <= i,
        bytes.len() <= usize::MAX,
    ensures
        ranges_from(bytes, i, end) matches Ok(rs) ==> {
            &&& forall|k: int|
                0 <= k < rs.len() ==> {
                    &&& i <= rs[k].start < end
                    &&& rs[k].start < rs[k].end <= bytes.len()
                    &&& bytes[rs[k].start as int] == LBRACE
                    &&& delim_end(bytes, rs[k].start as int, LBRACE, RBRACE) == Some(
                        rs[k].end as int,
                    )
                }
            &&& forall|k: int, l: int| 0 <= k < l < rs.len() ==> rs[k].end <= rs[l].start
        },
    decreases bytes.len() - i,
{
    reveal(ranges_from);
    let j = skip_from(bytes, i, true);
    lemma_skip_from(bytes, i, true);
    if !(0 <= i < end) || j >= end || j >= bytes.len() || bytes[j] == RBRACKET {
    } else if bytes[j] != LBRACE {
    } else {
        lemma_delim_end(bytes, j, LBRACE, RBRACE);
        match delim_end(bytes, j, LBRACE, RBRACE) {
            None => {},
            Some(k) => {
                lemma_ranges_from(bytes, k, end);
                match ranges_from(bytes, k, end) {
                    Err(_) => {},
                    Ok(rest) => {
                        let r = EntryRange { start: j as usize, end: k as usize };
                        let rs = seq![r] + rest;
                        assert forall|a: int, b: int| 0 <= a < b < rs.len() implies rs[a].end
                            <= rs[b].start by {
                            if a > 0 {
                                assert(rs[a] == rest[a - 1]);
                                assert(rs[b] == rest[b - 1]);
                            } else {
                                assert(rs[b] == rest[b - 1]);
                            }
                        }
                        assert forall|a: int| 0 <= a < rs.len() implies {
                            &&& i <= rs[a].start < end
                            &&& rs[a].start < rs[a].end <= bytes.len()
                            &&& bytes[rs[a].start as int] == LBRACE
                            &&& delim_end(bytes, rs[a].start as int, LBRACE, RBRACE) == Some(
                                rs[a].end as int,
                            )
                        } by {
                            if a > 0 {
                                assert(rs[a] == rest[a - 1]);
                            }
                        }
                    },
                }
            },
        }
    }
}

/// Law: the entry ranges are well formed. Each lies inside the file and
/// inside the `log.entries` array, starts with `{`, ends with the `}` that
/// closes it, and the ranges follow one another in file order without
/// overlapping.
pub proof fn law_entry_ranges_well_formed(bytes: Seq<u8>)
    requires
        bytes.len() <= usize::MAX,
    ensures
        entry_ranges(bytes) matches Ok(rs) ==> {
            &&& entries_array(bytes) matches Ok((s, e)) && forall|k: int|
                0 <= k < rs.len() ==> s < #[trigger] rs[k].start < e
            &&& forall|k: int|
                0 <= k < rs.len() ==> {
                    &&& rs[k].start < rs[k].end <= bytes.len()
                    &&& bytes[rs[k].start as int] == LBRACE
                    &&& bytes[rs[k].end - 1] == RBRACE
                    &&& delim_end(bytes, rs[k].start as int, LBRACE, RBRACE) == Some(
                        rs[k].end as int,
                    )
                }
            &&& forall|k: int, l: int| 0 <= k < l < rs.len() ==> rs[k].end <= rs[l].start
        },
{
    lemma_entries_array(bytes);
    if let Ok((s, e)) = entries_array(bytes) {
        lemma_ranges_from(bytes, s + 1, e);
        if let Ok(rs) = entry_ranges(bytes) {
            assert forall|k: int| 0 <= k < rs.len() implies bytes[rs[k].end - 1] == RBRACE by {
                lemma_delim_end(bytes, rs[k].start as int, LBRACE, RBRACE);
            }
        }
    }
}

/// The bracket-scan state depends only on the bytes read so far.
pub proof fn lemma_delim_state_local(bytes: Seq<u8>, start: int, stop: int, k: int, open: u8, close: u8)
    requires
        0 <= start <= stop <= bytes.len(),
        0 <= k <= stop - start,
    ensures
        delim_state(bytes.subrange(start, stop), 0, k, open, close) == delim_state(
            bytes,
            start,
            start + k,
            open,
            close,
        ),
    decreases k,
{
    if k > 0 {
        lemma_delim_state_local(bytes, start, stop, k - 1, open, close);
    }
}

/// Law: a bracketed value is self-contained. Scanning the bytes of the value
/// alone, from its first byte, finds the same end.
pub proof fn law_delimited_value_is_self_contained(bytes: Seq<u8>, start: int, open: u8, close: u8)
    requires
        delim_end(bytes, start, open, close) is Some,
    ensures
        delim_end(bytes, start, open, close) matches Some(e) && delim_end(
            bytes.subrange(start, e),
            0,
            open,
            close,
        ) == Some(e - start),
{
    lemma_delim_end(bytes, start, open, close);
    let e = delim_end(bytes, start, open, close)->0;
    let sub = bytes.subrange(start, e);
    assert forall|k: int| 0 < k <= e - start implies #[trigger] closes_at(sub, 0, k, open, close)
        == closes_at(bytes, start, start + k, open, close) by {
        lemma_delim_state_local(bytes, start, e, k - 1, open, close);
    }
    assert(closes_at(sub, 0, e - start, open, close));
    lemma_delim_end(sub, 0, open, close);
    let e2 = delim_end(sub, 0, open, close)->0;
    assert(closes_at(bytes, start, start + e2, open, close));
}

/// Law: every entry range found in a HAR document is a self-contained object.
/// Scanning the entry's bytes alone finds its closing brace at their end.
pub proof fn law_entry_slices_are_self_contained(bytes: Seq<u8>)
    requires
        bytes.len() <= usize::MAX,
    ensures
        entry_ranges(bytes) matches Ok(rs) ==> forall|k: int|
            0 <= k < rs.len() ==> delim_end(
                #[trigger] bytes.subrange(rs[k].start as int, rs[k].end as int),
                0,
                LBRACE,
                RBRACE,
            ) == Some(rs[k].end - rs[k].start),
{
    law_entry_ranges_well_formed(bytes);
    if let Ok(rs) = entry_ranges(bytes) {
        assert forall|k: int| 0 <= k < rs.len() implies delim_end(
            #[trigger] bytes.subrange(rs[k].start as int, rs[k].end as int),
            0,
            LBRACE,
            RBRACE,
        ) == Some(rs[k].end - rs[k].start) by {
            law_delimited_value_is_self_contained(bytes, rs[k].start as int, LBRACE, RBRACE);
        }
    }
}

} // verus!

verus! {

/// Every byte of `bytes[i..j]` is whitespace.
pub open spec fn only_ws(bytes: Seq<u8>, i: int, j: int) -> bool {
    &&& 0 <= i <= j <= bytes.len()
    &&& forall|k: int| i <= k < j ==> is_ws(#[trigger] bytes[k])
}

/// `bytes[i..j]` separates two array elements: whitespace, one comma,
/// whitespace.
pub open spec fn element_separator(bytes: Seq<u8>, i: int, j: int) -> bool {
    exists|c: int|
        i <= c < j && #[trigger] bytes[c] == COMMA && only_ws(bytes, i, c) && only_ws(
            bytes,
            c + 1,
            j,
        )
}

/// The array that opens with `[` at `a` and closes with `]` at `e - 1` is a
/// JSON list of objects whose source texts are exactly `bytes[s.start..s.end]`
/// for the spans `s` of `spans`, in order: each object runs from its `{` to
/// the `}` that balances it, and the objects are separated by one comma each,
/// with whitespace allowed around them.
#[verifier::opaque]
pub open spec fn objects_array(bytes: Seq<u8>, a: int, e: int, spans: Seq<EntryRange>) -> bool {
    let n = spans.len() as int;
    &&& 0 <= a < e - 1
    &&& e <= bytes.len()
    &&& bytes[a] == LBRACKET
    &&& bytes[e - 1] == RBRACKET
    &&& forall|k: int|
        0 <= k < n ==> bytes[#[trigger] spans[k].start as int] == LBRACE && delim_end(
            bytes,
            spans[k].start as int,
            LBRACE,
            RBRACE,
        ) == Some(spans[k].end as int)
    &&& if n == 0 {
        only_ws(bytes, a + 1, e - 1)
    } else {
        &&& only_ws(bytes, a + 1, spans[0].start as int)
        &&& forall|k: int|
            0 <= k < n - 1 ==> element_separator(
                bytes,
                #[trigger] spans[k].end as int,
                spans[k + 1].start as int,
            )
        &&& only_ws(bytes, spans[n - 1].end as int, e - 1)
    }
}

/// Where the separator run before the `k`-th object starts: just after `[`
/// for the first, at the end of the previous object otherwise.
pub open spec fn gap_start(a: int, spans: Seq<EntryRange>, k: int) -> int {
    if k == 0 {
        a + 1
    } else {
        spans[k - 1].end as int
    }
}

/// Where the separator run before the `k`-th object ends: at its `{`, or at
/// the closing `]` after the last object.
pub open spec fn gap_end(e: int, spans: Seq<EntryRange>, k: int) -> int {
    if k < spans.len() {
        spans[k].start as int
    } else {
        e - 1
    }
}

proof fn lemma_objects_array_bounds(bytes: Seq<u8>, a: int, e: int, spans: Seq<EntryRange>)
    requires
        objects_array(bytes, a, e, spans),
    ensures
        0 <= a < e - 1,
        e <= bytes.len(),
        bytes[e - 1] == RBRACKET,
{
    reveal(objects_array);
}

proof fn lemma_objects_array_object(bytes: Seq<u8>, a: int, e: int, spans: Seq<EntryRange>, k: int)
    requires
        objects_array(bytes, a, e, spans),
        0 <= k < spans.len(),
    ensures
        bytes[spans[k].start as int] == LBRACE,
        delim_end(bytes, spans[k].start as int, LBRACE, RBRACE) == Some(spans[k].end as int),
        spans[k].start < spans[k].end <= bytes.len(),
{
    reveal(objects_array);
    assert(bytes[spans[k].start as int] == LBRACE);
    lemma_delim_end(bytes, spans[k].start as int, LBRACE, RBRACE);
}

/// Between objects there are only separators.
proof fn lemma_objects_array_gap(bytes: Seq<u8>, a: int, e: int, spans: Seq<EntryRange>, k: int)
    requires
        objects_array(bytes, a, e, spans),
        0 <= k <= spans.len(),
    ensures
        0 <= gap_start(a, spans, k) <= gap_end(e, spans, k) <= bytes.len(),
        forall|t: int|
            gap_start(a, spans, k) <= t < gap_end(e, spans, k) ==> is_ws(#[trigger] bytes[t])
                || bytes[t] == COMMA,
{
    reveal(objects_array);
    let n = spans.len() as int;
    if n == 0 {
        assert(only_ws(bytes, a + 1, e - 1));
    } else if k == 0 {
        assert(only_ws(bytes, a + 1, spans[0].start as int));
    } else if k == n {
        assert(only_ws(bytes, spans[n - 1].end as int, e - 1));
    } else {
        assert(element_separator(bytes, spans[k - 1].end as int, spans[k].start as int));
        let c = choose|c: int|
            spans[k - 1].end <= c < spans[k].start && #[trigger] bytes[c] == COMMA && only_ws(
                bytes,
                spans[k - 1].end as int,
                c,
            ) && only_ws(bytes, c + 1, spans[k].start as int);
        assert forall|t: int|
            gap_start(a, spans, k) <= t < gap_end(e, spans, k) implies is_ws(#[trigger] bytes[t])
            || bytes[t] == COMMA by {
            if t < c {
            } else if t > c {
            }
        }
    }
}

/// Skipping separators from `i` stops at `j` when everything before `j` is a
/// separator and `bytes[j]` is not.
proof fn lemma_skip_to(bytes: Seq<u8>, i: int, j: int)
    requires
        0 <= i <= j < bytes.len(),
        forall|k: int| i <= k < j ==> is_ws(#[trigger] bytes[k]) || bytes[k] == COMMA,
        !is_ws(bytes[j]),
        bytes[j] != COMMA,
    ensures
        skip_from(bytes, i, true) == j,
    decreases j - i,
{
    if i < j {
        lemma_skip_to(bytes, i + 1, j);
    }
}

/// In a list of objects, every object ends before the closing `]`.
proof fn lemma_spans_end_before_close(bytes: Seq<u8>, a: int, e: int, spans: Seq<EntryRange>, k: int)
    requires
        objects_array(bytes, a, e, spans),
        0 <= k < spans.len(),
    ensures
        spans[k].start < spans[k].end <= e - 1,
    decreases spans.len() - k,
{
    lemma_objects_array_object(bytes, a, e, spans, k);
    lemma_objects_array_gap(bytes, a, e, spans, k + 1);
    if k < spans.len() - 1 {
        lemma_spans_end_before_close(bytes, a, e, spans, k + 1);
    }
}

/// One object found by the scan.
proof fn lemma_ranges_step(bytes: Seq<u8>, i: int, e: int, s: EntryRange, rest: Seq<EntryRange>)
    requires
        0 <= i,
        skip_from(bytes, i, true) == s.start as int,
        s.start < e,
        s.start < bytes.len(),
        bytes[s.start as int] == LBRACE,
        delim_end(bytes, s.start as int, LBRACE, RBRACE) == Some(s.end as int),
        ranges_from(bytes, s.end as int, e) == Ok::<Seq<EntryRange>, HarErrorKind>(rest),
    ensures
        ranges_from(bytes, i, e) == Ok::<Seq<EntryRange>, HarErrorKind>(seq![s] + rest),
{
    reveal(ranges_from);
    lemma_skip_from(bytes, i, true);
    assert(EntryRange { start: s.start as int as usize, end: s.end as int as usize } == s);
}

/// The closing bracket ends the scan.
proof fn lemma_ranges_stop(bytes: Seq<u8>, i: int, e: int)
    requires
        0 <= i < e,
        e <= bytes.len(),
        skip_from(bytes, i, true) == e - 1,
        bytes[e - 1] == RBRACKET,
    ensures
        ranges_from(bytes, i, e) == Ok::<Seq<EntryRange>, HarErrorKind>(Seq::empty()),
{
    reveal(ranges_from);
}

/// Scanning from the end of the `k`-th object (or from just after `[`)
/// finds exactly the remaining objects.
proof fn lemma_ranges_of_objects(bytes: Seq<u8>, a: int, e: int, spans: Seq<EntryRange>, k: int)
    requires
        objects_array(bytes, a, e, spans),
        0 <= k <= spans.len(),
    ensures
        ranges_from(bytes, gap_start(a, spans, k), e) == Ok::<Seq<EntryRange>, HarErrorKind>(
            spans.subrange(k, spans.len() as int),
        ),
    decreases spans.len() - k,
{
    let n = spans.len() as int;
    let i = gap_start(a, spans, k);
    let j = gap_end(e, spans, k);
    lemma_objects_array_bounds(bytes, a, e, spans);
    lemma_objects_array_gap(bytes, a, e, spans, k);
    if k == n {
        lemma_skip_to(bytes, i, j);
        lemma_ranges_stop(bytes, i, e);
        assert(spans.subrange(k, n) =~= Seq::<EntryRange>::empty());
    } else {
        let s = spans[k];
        lemma_spans_end_before_close(bytes, a, e, spans, k);
        lemma_objects_array_object(bytes, a, e, spans, k);
        lemma_skip_to(bytes, i, j);
        lemma_ranges_of_objects(bytes, a, e, spans, k + 1);
        lemma_ranges_step(bytes, i, e, s, spans.subrange(k + 1, n));
        assert(seq![s] + spans.subrange(k + 1, n) =~= spans.subrange(k, n));
    }
}

/// Law: the scanner finds the source texts of the elements of `log.entries`.
/// When the entries array is a comma-separated list of objects, the `k`-th
/// range is exactly the span of the `k`-th object, and there is one range
/// per object.
pub proof fn law_entry_ranges_are_array_elements(bytes: Seq<u8>, spans: Seq<EntryRange>)
    requires
        entries_array(bytes) matches Ok((a, e)) && objects_array(bytes, a, e, spans),
    ensures
        entry_ranges(bytes) == Ok::<Seq<EntryRange>, HarErrorKind>(spans),
{
    let (a, e) = entries_array(bytes)->Ok_0;
    lemma_ranges_of_objects(bytes, a, e, spans, 0);
    assert(spans.subrange(0, spans.len() as int) =~= spans);
}

} // verus!

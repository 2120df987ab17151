use vstd::prelude::*;

verus! {

/// The serde_json error type, carried through unchanged inside [`HarError::Json`].
#[verifier::external_type_specification]
#[verifier::external_body]
pub struct ExJsonError(serde_json::Error);

/// Half-open byte range `start..end` of one entry object inside a HAR file.
#[derive(Clone, Copy, Debug, PartialEq, Eq, Structural)]
pub struct EntryRange {
    pub start: usize,
    pub end: usize,
}

/// Per-phase timings of one entry, in milliseconds, each clamped to be
/// non-negative. Each field holds the IEEE-754 bit pattern of the `f64` value.
#[derive(Clone, Copy, Debug, PartialEq, Eq, Structural)]
pub struct TimingBreakdown {
    pub blocked_bits: u64,
    pub dns_bits: u64,
    pub connect_bits: u64,
    pub ssl_bits: u64,
    pub send_bits: u64,
    pub wait_bits: u64,
    pub receive_bits: u64,
}

/// One row of the request history: what the table shows of an entry.
#[derive(Clone, Debug, PartialEq)]
pub struct EntrySummary {
    /// Position of the entry in `log.entries`.
    pub id: usize,
    pub started_at: String,
    pub method: String,
    pub host: String,
    pub path: String,
    pub status: u16,
    pub mime: String,
    pub req_bytes: u64,
    pub res_bytes: u64,
    /// IEEE-754 bit pattern of the non-negative duration in milliseconds; for
    /// non-negative values this orders as the durations do.
    pub duration_ms_bits: u64,
}

/// One entry in full, as the inspector renders it.
#[derive(Clone, Debug, PartialEq)]
pub struct EntryDetail {
    pub request_method: String,
    pub request_path: String,
    pub request_http_version: String,
    pub url: String,
    pub request_headers: Vec<(String, String)>,
    pub request_body: String,
    pub response_http_version: String,
    pub response_status: u16,
    pub response_reason: String,
    pub response_headers: Vec<(String, String)>,
    pub response_body: String,
    pub timings: TimingBreakdown,
    pub server_ip: Option<String>,
    pub connection: Option<String>,
}

/// Totals of an indexing run.
#[derive(Clone, Copy, Debug, PartialEq, Eq, Structural)]
pub struct IndexStats {
    pub entry_count: usize,
    pub indexed_bytes: usize,
}

/// The summaries of all entries of a file and the byte range of each.
#[derive(Clone, Debug, PartialEq)]
pub struct IndexResult {
    pub summaries: Vec<EntrySummary>,
    pub ranges: Vec<EntryRange>,
    pub stats: IndexStats,
}

/// A request or response header as a HAR file records it.
#[derive(Clone, Debug, PartialEq)]
pub struct HarHeader {
    pub name: String,
    pub value: String,
}

/// `request.postData` of a HAR entry.
#[derive(Clone, Debug, PartialEq)]
pub struct HarPostData {
    pub text: Option<String>,
}

/// `response.content` of a HAR entry.
#[derive(Clone, Debug, PartialEq)]
pub struct HarContent {
    pub mime_type: Option<String>,
    pub size: Option<i64>,
    pub text: Option<String>,
}

/// `request` of a HAR entry.
#[derive(Clone, Debug, PartialEq)]
pub struct HarRequest {
    pub method: String,
    pub url: String,
    pub http_version: Option<String>,
    pub headers: Vec<HarHeader>,
    pub post_data: Option<HarPostData>,
    pub headers_size: Option<i64>,
    pub body_size: Option<i64>,
}

/// `response` of a HAR entry.
#[derive(Clone, Debug, PartialEq)]
pub struct HarResponse {
    pub status: u16,
    pub status_text: String,
    pub http_version: Option<String>,
    pub headers: Vec<HarHeader>,
    pub content: Option<HarContent>,
    pub headers_size: Option<i64>,
    pub body_size: Option<i64>,
}

/// The fields of one decoded HAR entry that summaries and details are made
/// of (all but the floating-point `time` and `timings`).
#[derive(Clone, Debug, PartialEq)]
pub struct HarEntry {
    pub started_date_time: String,
    pub request: HarRequest,
    pub response: HarResponse,
    pub server_ip_address: Option<String>,
    pub connection: Option<String>,
}

/// Everything that can go wrong while indexing a HAR file or loading one entry.
#[derive(Debug)]
pub enum HarError {
    /// The file is not valid UTF-8.
    InvalidUtf8,
    /// An object searched for a field ended before the field was found.
    MissingEntries,
    /// The bytes do not have the shape expected around `log.entries`.
    InvalidEntriesShape,
    /// A byte range lies outside the file.
    InvalidRange,
    /// serde_json refused a piece of JSON.
    Json(serde_json::Error),
}

/// The variant of a [`HarError`], without the payload of `Json`.
#[derive(Clone, Copy, Debug, PartialEq, Eq, Structural)]
pub enum HarErrorKind {
    InvalidUtf8,
    MissingEntries,
    InvalidEntriesShape,
    InvalidRange,
    Json,
}

impl HarError {
    pub open spec fn kind(&self) -> HarErrorKind {
        match self {
            HarError::InvalidUtf8 => HarErrorKind::InvalidUtf8,
            HarError::MissingEntries => HarErrorKind::MissingEntries,
            HarError::InvalidEntriesShape => HarErrorKind::InvalidEntriesShape,
            HarError::InvalidRange => HarErrorKind::InvalidRange,
            HarError::Json(_) => HarErrorKind::Json,
        }
    }
}

/// An executable position agrees with a specified one: the same position
/// on success, and on failure an error of the specified variant.
pub open spec fn agrees_at(r: Result<usize, HarError>, s: Result<int, HarErrorKind>) -> bool {
    match (r, s) {
        (Ok(a), Ok(b)) => a as int == b,
        (Err(e), Err(k)) => e.kind() == k,
        _ => false,
    }
}

} // verus!

//! The toolbar filter over history rows.

use vstd::prelude::*;

use crate::har::types::EntrySummary;
use crate::text::{
    chars_of, contains, contains_chars, decimal, digit, decimal_string, eq_ignore_ascii_case, is_whitespace,
    lower, to_ascii_lowercase, trim, trim_end, trim_start, trim_str,
};

verus! {

/// What the toolbar filters on. Every part that is unset (or empty) accepts
/// every entry.
#[derive(Clone, Debug, PartialEq)]
pub struct FilterQuery {
    /// Free text searched for in method, host, path, MIME type and status.
    pub text: String,
    /// Request method, compared without regard to ASCII case.
    pub method: Option<String>,
    /// Status class: the hundreds digit of the status code (2 for 2xx).
    pub status_class: Option<u16>,
    /// Top-level MIME type (the part before `/`), compared without regard to ASCII case.
    pub mime_category: Option<String>,
}

impl Default for FilterQuery {
    fn default() -> (q: Self)
        ensures
            q.text@.len() == 0,
            q.method is None,
            q.status_class is None,
            q.mime_category is None,
    {
        FilterQuery { text: String::new(), method: None, status_class: None, mime_category: None }
    }
}

/// The status class that a toolbar label `1xx` to `5xx` stands for.
pub open spec fn status_class_label(label: Seq<char>) -> Option<u16> {
    if label.len() == 3 && '1' <= label[0] <= '5' && label[1] == 'x' && label[2] == 'x' {
        Some(((label[0] as u32) - ('0' as u32)) as u16)
    } else {
        None
    }
}

/// The status class chosen by a toolbar label: `Some(n)` for `nxx` with
/// `n` from 1 to 5, `None` for any other label (all statuses).
pub fn status_class_of(label: &str) -> (r: Option<u16>)
    ensures
        r == status_class_label(label@),
{
    let v = chars_of(label);
    if v.len() == 3 && '1' <= v[0] && v[0] <= '5' && v[1] == 'x' && v[2] == 'x' {
        Some(((v[0] as u8) - 48) as u16)
    } else {
        None
    }
}

/// The part of `s` before its first `/`, or all of `s`.
pub open spec fn before_slash(s: Seq<char>) -> Seq<char>
    decreases s.len(),
{
    if s.len() == 0 || s[0] == '/' {
        Seq::empty()
    } else {
        seq![s[0]] + before_slash(s.drop_first())
    }
}

/// The text that the free-text search looks in: method, host, path and MIME
/// type in ASCII lower case, and the status code, joined by spaces.
pub open spec fn haystack(s: EntrySummary) -> Seq<char> {
    lower(s.method@) + seq![' '] + lower(s.host@) + seq![' '] + lower(s.path@) + seq![' '] + lower(
        s.mime@,
    ) + seq![' '] + decimal(s.status as nat)
}

pub open spec fn method_accepts(q: FilterQuery, s: EntrySummary) -> bool {
    match q.method {
        Some(m) => m@.len() == 0 || lower(s.method@) == lower(m@),
        None => true,
    }
}

pub open spec fn status_accepts(q: FilterQuery, s: EntrySummary) -> bool {
    match q.status_class {
        Some(c) => s.status / 100 == c,
        None => true,
    }
}

pub open spec fn mime_accepts(q: FilterQuery, s: EntrySummary) -> bool {
    match q.mime_category {
        Some(c) => c@.len() == 0 || lower(trim(before_slash(s.mime@))) == lower(c@),
        None => true,
    }
}

pub open spec fn text_accepts(q: FilterQuery, s: EntrySummary) -> bool {
    let t = lower(trim(q.text@));
    t.len() == 0 || contains(haystack(s), t)
}

/// Whether the filter accepts an entry: every part of it does.
pub open spec fn accepts(q: FilterQuery, s: EntrySummary) -> bool {
    &&& method_accepts(q, s)
    &&& status_accepts(q, s)
    &&& mime_accepts(q, s)
    &&& text_accepts(q, s)
}

/// Law: a status label `nxx` names the class whose hundreds digit is `n`,
/// for each `n` from 1 to 5; any other label names none.
pub proof fn law_status_class_label(label: Seq<char>)
    ensures
        status_class_label(label) matches Some(c) ==> 1 <= c <= 5 && label == seq![
            digit(c as nat),
            'x',
            'x',
        ],
        forall|n: nat|
            1 <= n <= 5 ==> status_class_label(seq![#[trigger] digit(n), 'x', 'x']) == Some(
                n as u16,
            ),
{
    assert forall|n: nat| 1 <= n <= 5 implies status_class_label(seq![#[trigger] digit(n), 'x', 'x'])
        == Some(n as u16) by {
        let l = seq![digit(n), 'x', 'x'];
        assert(l[0] == digit(n));
    }
    if status_class_label(label) is Some {
        let c = status_class_label(label)->0;
        assert(label =~= seq![digit(c as nat), 'x', 'x']);
    }
}

/// The characters of `s` before its first `/`.
fn head_before_slash(s: &str) -> (r: String)
    ensures
        r@ == before_slash(s@),
{
    let v = chars_of(s);
    let mut k: usize = 0;
    while k < v.len() && v[k] != '/'
        invariant
            k <= v.len(),
            forall|j: int| 0 <= j < k ==> v@[j] != '/',
        decreases v.len() - k,
    {
        k = k + 1;
    }
    proof {
        lemma_before_slash(s@, k as int);
    }
    crate::text::string_from_chars(vstd::slice::slice_subrange(v.as_slice(), 0, k))
}

proof fn lemma_before_slash(s: Seq<char>, k: int)
    requires
        0 <= k <= s.len(),
        forall|j: int| 0 <= j < k ==> s[j] != '/',
        k == s.len() || s[k] == '/',
    ensures
        before_slash(s) == s.subrange(0, k),
    decreases k,
{
    if k > 0 {
        lemma_before_slash(s.drop_first(), k - 1);
        assert(seq![s[0]] + s.drop_first().subrange(0, k - 1) =~= s.subrange(0, k));
    } else {
        assert(s.subrange(0, 0) =~= Seq::<char>::empty());
    }
}

fn push_all(v: &mut Vec<char>, s: &str)
    ensures
        final(v)@ == old(v)@ + s@,
{
    let c = chars_of(s);
    let mut i: usize = 0;
    while i < c.len()
        invariant
            i <= c.len(),
            c@ == s@,
            v@ == old(v)@ + c@.take(i as int),
        decreases c.len() - i,
    {
        v.push(c[i]);
        i = i + 1;
        assert(v@ =~= old(v)@ + c@.take(i as int));
    }
    assert(c@.take(c.len() as int) =~= c@);
}

/// Law: a filter with nothing set accepts every entry.
pub proof fn law_empty_filter_accepts_all(q: FilterQuery, s: EntrySummary)
    requires
        trim(q.text@).len() == 0,
        q.method is None,
        q.status_class is None,
        q.mime_category is None,
    ensures
        accepts(q, s),
{
}

/// Law: a filter set to status class `c` accepts only rows whose status
/// code has `c` as its hundreds digit; set to that alone, it accepts exactly
/// those rows.
pub proof fn law_status_class_filter(q: FilterQuery, s: EntrySummary, c: u16)
    requires
        q.status_class == Some(c),
    ensures
        s.status / 100 != c ==> !accepts(q, s),
        accepts(q, s) ==> s.status / 100 == c,
        trim(q.text@).len() == 0 && q.method is None && q.mime_category is None ==> (accepts(q, s)
            <==> s.status / 100 == c),
{
}

/// Law: a filter set to a non-empty method accepts only rows whose method is
/// that one up to ASCII case; set to that alone, it accepts a row with
/// exactly that method.
pub proof fn law_method_filter(q: FilterQuery, s: EntrySummary, m: String)
    requires
        q.method == Some(m),
        m@.len() > 0,
    ensures
        lower(s.method@) != lower(m@) ==> !accepts(q, s),
        trim(q.text@).len() == 0 && q.status_class is None && q.mime_category is None && s.method@
            == m@ ==> accepts(q, s),
{
}

/// Law: a MIME category filter accepts a row whose MIME type is that
/// category, a `/` and any subtype; set to that alone, it accepts the row.
pub proof fn law_mime_category_filter(q: FilterQuery, s: EntrySummary, c: String, rest: Seq<char>)
    requires
        q.mime_category == Some(c),
        forall|k: int| 0 <= k < c@.len() ==> !is_whitespace(#[trigger] c@[k]) && c@[k] != '/',
        s.mime@ == c@ + seq!['/'] + rest,
    ensures
        mime_accepts(q, s),
        trim(q.text@).len() == 0 && q.method is None && q.status_class is None ==> accepts(q, s),
{
    let m = s.mime@;
    let n = c@.len() as int;
    lemma_before_slash(m, n);
    assert(m.subrange(0, n) =~= c@);
    if n > 0 {
        assert(!is_whitespace(c@[0]));
        assert(!is_whitespace(c@.last()));
        assert(trim_start(c@) == c@);
        assert(trim_end(c@) == c@);
    } else {
        assert(trim(c@) =~= c@);
    }
}

proof fn lemma_contains_in_left(a: Seq<char>, b: Seq<char>, t: Seq<char>)
    requires
        contains(a, t),
    ensures
        contains(a + b, t),
{
    let i = choose|i: int| 0 <= i && i + t.len() <= a.len() && #[trigger] a.subrange(i, i + t.len()) == t;
    assert((a + b).subrange(i, i + t.len()) =~= a.subrange(i, i + t.len()));
}

proof fn lemma_contains_in_right(a: Seq<char>, b: Seq<char>, t: Seq<char>)
    requires
        contains(b, t),
    ensures
        contains(a + b, t),
{
    let i = choose|i: int| 0 <= i && i + t.len() <= b.len() && #[trigger] b.subrange(i, i + t.len()) == t;
    assert((a + b).subrange(a.len() + i, a.len() + i + t.len()) =~= b.subrange(i, i + t.len()));
}

/// Law: free text found (in ASCII lower case) in a row's method, host, path,
/// MIME type or status code lets the row through the text search.
pub proof fn law_text_found_in_a_field_is_accepted(q: FilterQuery, s: EntrySummary)
    ensures
        contains(lower(s.method@), lower(trim(q.text@))) ==> text_accepts(q, s),
        contains(lower(s.host@), lower(trim(q.text@))) ==> text_accepts(q, s),
        contains(lower(s.path@), lower(trim(q.text@))) ==> text_accepts(q, s),
        contains(lower(s.mime@), lower(trim(q.text@))) ==> text_accepts(q, s),
        contains(decimal(s.status as nat), lower(trim(q.text@))) ==> text_accepts(q, s),
{
    let t = lower(trim(q.text@));
    let sp = seq![' '];
    let a1 = lower(s.method@);
    let a2 = a1 + sp + lower(s.host@);
    let a3 = a2 + sp + lower(s.path@);
    let a4 = a3 + sp + lower(s.mime@);
    assert(haystack(s) == a4 + sp + decimal(s.status as nat));
    if contains(a1, t) {
        lemma_contains_in_left(a1, sp, t);
        lemma_contains_in_left(a1 + sp, lower(s.host@), t);
    }
    if contains(lower(s.host@), t) {
        lemma_contains_in_right(a1 + sp, lower(s.host@), t);
    }
    if contains(a2, t) {
        lemma_contains_in_left(a2, sp, t);
        lemma_contains_in_left(a2 + sp, lower(s.path@), t);
    }
    if contains(lower(s.path@), t) {
        lemma_contains_in_right(a2 + sp, lower(s.path@), t);
    }
    if contains(a3, t) {
        lemma_contains_in_left(a3, sp, t);
        lemma_contains_in_left(a3 + sp, lower(s.mime@), t);
    }
    if contains(lower(s.mime@), t) {
        lemma_contains_in_right(a3 + sp, lower(s.mime@), t);
    }
    if contains(a4, t) {
        lemma_contains_in_left(a4, sp, t);
        lemma_contains_in_left(a4 + sp, decimal(s.status as nat), t);
    }
    if contains(decimal(s.status as nat), t) {
        lemma_contains_in_right(a4 + sp, decimal(s.status as nat), t);
    }
}

impl FilterQuery {
    /// Whether this filter accepts the entry.
    pub fn matches(&self, summary: &EntrySummary) -> (r: bool)
        ensures
            r == accepts(*self, *summary),
            self.status_class matches Some(c) && summary.status / 100 != c ==> !r,
    {
        match &self.method {
            Some(method) => {
                if method.as_str().unicode_len() != 0 && !eq_ignore_ascii_case(
                    summary.method.as_str(),
                    method.as_str(),
                ) {
                    return false;
                }
            },
            None => {},
        }
        match self.status_class {
            Some(class) => {
                if summary.status / 100 != class {
                    return false;
                }
            },
            None => {},
        }
        match &self.mime_category {
            Some(category) => {
                if category.as_str().unicode_len() != 0 {
                    let head = head_before_slash(summary.mime.as_str());
                    if !eq_ignore_ascii_case(trim_str(head.as_str()), category.as_str()) {
                        return false;
                    }
                }
            },
            None => {},
        }
        let text = to_ascii_lowercase(trim_str(self.text.as_str()));
        if text.as_str().unicode_len() == 0 {
            return true;
        }
        let mut hay: Vec<char> = Vec::new();
        let method = to_ascii_lowercase(summary.method.as_str());
        push_all(&mut hay, method.as_str());
        hay.push(' ');
        let host = to_ascii_lowercase(summary.host.as_str());
        push_all(&mut hay, host.as_str());
        hay.push(' ');
        let path = to_ascii_lowercase(summary.path.as_str());
        push_all(&mut hay, path.as_str());
        hay.push(' ');
        let mime = to_ascii_lowercase(summary.mime.as_str());
        push_all(&mut hay, mime.as_str());
        hay.push(' ');
        let status = decimal_string(summary.status as u64);
        push_all(&mut hay, status.as_str());
        assert(hay@ =~= haystack(*summary));
        let needle = chars_of(text.as_str());
        contains_chars(hay.as_slice(), needle.as_slice())
    }
}

} // verus!

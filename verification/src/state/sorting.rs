//! The order of history rows: by the sorted column, then by entry id, both
//! in the sort's direction (so a descending sort puts rows that tie on the
//! column in descending id order); rows equal on both keep file order.

use vstd::prelude::*;
use vstd::utf8::encode_utf8;

use super::{SortColumn, SortConfig, SortDirection};
use crate::har::types::EntrySummary;

verus! {

/// The outcome of comparing two values.
#[derive(Clone, Copy, Debug, PartialEq, Eq, Structural)]
pub enum Order {
    Less,
    Equal,
    Greater,
}

/// The same comparison with its operands swapped.
pub open spec fn flip(o: Order) -> Order {
    match o {
        Order::Less => Order::Greater,
        Order::Equal => Order::Equal,
        Order::Greater => Order::Less,
    }
}

pub open spec fn int_order(a: int, b: int) -> Order {
    if a < b {
        Order::Less
    } else if a == b {
        Order::Equal
    } else {
        Order::Greater
    }
}

/// Lexicographic comparison of `a[i..]` and `b[i..]`; a proper prefix
/// comes first.
pub open spec fn lex_from(a: Seq<int>, b: Seq<int>, i: int) -> Order
    decreases a.len() - i,
{
    if i >= a.len() {
        if i >= b.len() {
            Order::Equal
        } else {
            Order::Less
        }
    } else if i >= b.len() {
        Order::Greater
    } else if a[i] < b[i] {
        Order::Less
    } else if a[i] > b[i] {
        Order::Greater
    } else {
        lex_from(a, b, i + 1)
    }
}

/// Lexicographic comparison of two sequences.
pub open spec fn lex(a: Seq<int>, b: Seq<int>) -> Order {
    lex_from(a, b, 0)
}

pub proof fn lemma_lex_flip(a: Seq<int>, b: Seq<int>, i: int)
    ensures
        lex_from(a, b, i) == flip(lex_from(b, a, i)),
    decreases a.len() - i,
{
    if i < a.len() && i < b.len() && a[i] == b[i] {
        lemma_lex_flip(a, b, i + 1);
    }
}

pub proof fn lemma_lex_equal(a: Seq<int>, b: Seq<int>, i: int)
    requires
        0 <= i <= a.len(),
        i <= b.len(),
    ensures
        lex_from(a, b, i) is Equal <==> (a.len() == b.len() && forall|k: int|
            i <= k < a.len() ==> a[k] == b[k]),
    decreases a.len() - i,
{
    if i < a.len() && i < b.len() && a[i] == b[i] {
        lemma_lex_equal(a, b, i + 1);
    }
}

pub proof fn lemma_lex_transitive(a: Seq<int>, b: Seq<int>, c: Seq<int>, i: int)
    requires
        lex_from(a, b, i) is Less,
        lex_from(b, c, i) is Less,
    ensures
        lex_from(a, c, i) is Less,
    decreases a.len() - i,
{
    if i < a.len() && i < b.len() && i < c.len() && a[i] == b[i] && b[i] == c[i] {
        lemma_lex_transitive(a, b, c, i + 1);
    }
}

/// The bytes of a string as integers.
pub open spec fn byte_key(s: Seq<char>) -> Seq<int> {
    encode_utf8(s).map_values(|b: u8| b as int)
}

/// What a row is sorted by in a column: the UTF-8 bytes of a text column
/// (so text compares as `String` does), the value of a number column.
pub open spec fn column_key(e: EntrySummary, column: SortColumn) -> Seq<int> {
    match column {
        SortColumn::StartedAt => byte_key(e.started_at@),
        SortColumn::Method => byte_key(e.method@),
        SortColumn::Host => byte_key(e.host@),
        SortColumn::Path => byte_key(e.path@),
        SortColumn::Mime => byte_key(e.mime@),
        SortColumn::Status => seq![e.status as int],
        SortColumn::ReqBytes => seq![e.req_bytes as int],
        SortColumn::ResBytes => seq![e.res_bytes as int],
        SortColumn::Duration => seq![e.duration_ms_bits as int],
    }
}

/// Comparison of two rows: by the column, then by id, reversed for a
/// descending sort.
pub open spec fn row_order(l: EntrySummary, r: EntrySummary, sort: SortConfig) -> Order {
    let by_column = lex(column_key(l, sort.column), column_key(r, sort.column));
    let o = if by_column is Equal {
        int_order(l.id as int, r.id as int)
    } else {
        by_column
    };
    match sort.direction {
        SortDirection::Asc => o,
        SortDirection::Desc => flip(o),
    }
}

/// Row `i` comes before row `j`: it compares less, or equal and earlier in
/// the file (the sort is stable).
pub open spec fn precedes(es: Seq<EntrySummary>, sort: SortConfig, i: int, j: int) -> bool {
    let o = row_order(es[i], es[j], sort);
    o is Less || (o is Equal && i < j)
}

/// `rows` lists row indices in sorted order.
pub open spec fn sorted_rows(es: Seq<EntrySummary>, sort: SortConfig, rows: Seq<usize>) -> bool {
    forall|a: int, b: int|
        0 <= a < b < rows.len() ==> !precedes(es, sort, #[trigger] rows[b] as int, #[trigger] rows[a] as int)
}

pub proof fn lemma_row_order_flip(l: EntrySummary, r: EntrySummary, sort: SortConfig)
    ensures
        row_order(l, r, sort) == flip(row_order(r, l, sort)),
{
    lemma_lex_flip(column_key(l, sort.column), column_key(r, sort.column), 0);
}

proof fn lemma_row_order_equal(l: EntrySummary, r: EntrySummary, sort: SortConfig)
    ensures
        row_order(l, r, sort) is Equal ==> column_key(l, sort.column) == column_key(r, sort.column)
            && l.id == r.id,
{
    let a = column_key(l, sort.column);
    let b = column_key(r, sort.column);
    if lex(a, b) is Equal {
        lemma_lex_equal(a, b, 0);
        assert(a =~= b);
    }
}

proof fn lemma_row_order_self(l: EntrySummary, sort: SortConfig)
    ensures
        row_order(l, l, sort) is Equal,
{
    let a = column_key(l, sort.column);
    lemma_lex_equal(a, a, 0);
}

/// Ascending comparison is transitive on `Less`.
proof fn lemma_asc_transitive(a: EntrySummary, b: EntrySummary, c: EntrySummary, column: SortColumn)
    requires
        row_order(a, b, SortConfig { column, direction: SortDirection::Asc }) is Less,
        row_order(b, c, SortConfig { column, direction: SortDirection::Asc }) is Less,
    ensures
        row_order(a, c, SortConfig { column, direction: SortDirection::Asc }) is Less,
{
    let ka = column_key(a, column);
    let kb = column_key(b, column);
    let kc = column_key(c, column);
    lemma_lex_equal(ka, kb, 0);
    lemma_lex_equal(kb, kc, 0);
    lemma_lex_equal(ka, kc, 0);
    if lex(ka, kb) is Equal {
        assert(ka =~= kb);
    }
    if lex(kb, kc) is Equal {
        assert(kb =~= kc);
    }
    if lex(ka, kb) is Less && lex(kb, kc) is Less {
        lemma_lex_transitive(ka, kb, kc, 0);
    }
}

pub proof fn lemma_row_order_transitive(a: EntrySummary, b: EntrySummary, c: EntrySummary, sort: SortConfig)
    requires
        row_order(a, b, sort) is Less,
        row_order(b, c, sort) is Less,
    ensures
        row_order(a, c, sort) is Less,
{
    let asc = SortConfig { column: sort.column, direction: SortDirection::Asc };
    match sort.direction {
        SortDirection::Asc => {
            lemma_asc_transitive(a, b, c, sort.column);
        },
        SortDirection::Desc => {
            lemma_row_order_flip(a, b, asc);
            lemma_row_order_flip(b, c, asc);
            lemma_row_order_flip(a, c, asc);
            lemma_asc_transitive(c, b, a, sort.column);
        },
    }
}

/// Rows comparing equal are interchangeable in any comparison.
proof fn lemma_row_order_congruent(a: EntrySummary, b: EntrySummary, c: EntrySummary, sort: SortConfig)
    requires
        row_order(b, c, sort) is Equal,
    ensures
        row_order(a, b, sort) == row_order(a, c, sort),
        row_order(b, a, sort) == row_order(c, a, sort),
{
    lemma_row_order_equal(b, c, sort);
}

/// Law: `precedes` is a strict total order on row indices.
pub proof fn law_precedes_strict_total_order(es: Seq<EntrySummary>, sort: SortConfig, i: int, j: int, k: int)
    requires
        0 <= i < es.len(),
        0 <= j < es.len(),
        0 <= k < es.len(),
    ensures
        !precedes(es, sort, i, i),
        precedes(es, sort, i, j) ==> !precedes(es, sort, j, i),
        i != j ==> precedes(es, sort, i, j) || precedes(es, sort, j, i),
        precedes(es, sort, i, j) && precedes(es, sort, j, k) ==> precedes(es, sort, i, k),
{
    lemma_row_order_self(es[i], sort);
    lemma_row_order_flip(es[i], es[j], sort);
    if precedes(es, sort, i, j) && precedes(es, sort, j, k) {
        let oij = row_order(es[i], es[j], sort);
        let ojk = row_order(es[j], es[k], sort);
        if oij is Less && ojk is Less {
            lemma_row_order_transitive(es[i], es[j], es[k], sort);
        } else if oij is Equal {
            lemma_row_order_congruent(es[k], es[i], es[j], sort);
            lemma_row_order_flip(es[i], es[k], sort);
            lemma_row_order_flip(es[j], es[k], sort);
        } else {
            lemma_row_order_congruent(es[i], es[j], es[k], sort);
        }
    }
}

} // verus!

verus! {

/// Lexicographic comparison of two byte strings.
fn lex_bytes(a: &[u8], b: &[u8]) -> (o: Order)
    ensures
        o == lex(a@.map_values(|x: u8| x as int), b@.map_values(|x: u8| x as int)),
{
    let ghost sa = a@.map_values(|x: u8| x as int);
    let ghost sb = b@.map_values(|x: u8| x as int);
    let mut i: usize = 0;
    while i < a.len() && i < b.len()
        invariant
            i <= a.len(),
            i <= b.len(),
            sa == a@.map_values(|x: u8| x as int),
            sb == b@.map_values(|x: u8| x as int),
            lex_from(sa, sb, 0) == lex_from(sa, sb, i as int),
        decreases a.len() - i,
    {
        if a[i] < b[i] {
            return Order::Less;
        }
        if a[i] > b[i] {
            return Order::Greater;
        }
        i = i + 1;
    }
    if i < a.len() {
        Order::Greater
    } else if i < b.len() {
        Order::Less
    } else {
        Order::Equal
    }
}

fn text_order(a: &String, b: &String) -> (o: Order)
    ensures
        o == lex(byte_key(a@), byte_key(b@)),
{
    lex_bytes(a.as_str().as_bytes(), b.as_str().as_bytes())
}

fn number_order(a: u64, b: u64) -> (o: Order)
    ensures
        o == lex(seq![a as int], seq![b as int]),
{
    let ghost sa = seq![a as int];
    let ghost sb = seq![b as int];
    assert(lex_from(sa, sb, 1) is Equal);
    if a < b {
        Order::Less
    } else if a > b {
        Order::Greater
    } else {
        Order::Equal
    }
}

/// Compares two rows as [`row_order`] does.
pub fn compare_entries(left: &EntrySummary, right: &EntrySummary, sort: SortConfig) -> (o: Order)
    ensures
        o == row_order(*left, *right, sort),
        sort.column is Status && left.status < right.status ==> o == (if sort.direction is Asc {
            Order::Less
        } else {
            Order::Greater
        }),
        sort.column is Status && left.status > right.status ==> o == (if sort.direction is Asc {
            Order::Greater
        } else {
            Order::Less
        }),
        sort.column is ReqBytes && left.req_bytes < right.req_bytes ==> o == (
        if sort.direction is Asc {
            Order::Less
        } else {
            Order::Greater
        }),
        sort.column is ResBytes && left.res_bytes < right.res_bytes ==> o == (
        if sort.direction is Asc {
            Order::Less
        } else {
            Order::Greater
        }),
{
    proof {
        law_status_column_orders_by_status(*left, *right);
        law_status_column_orders_by_status(*right, *left);
        law_req_bytes_column_orders_by_req_bytes(*left, *right);
        law_res_bytes_column_orders_by_res_bytes(*left, *right);
    }
    let by_column = match sort.column {
        SortColumn::StartedAt => text_order(&left.started_at, &right.started_at),
        SortColumn::Method => text_order(&left.method, &right.method),
        SortColumn::Host => text_order(&left.host, &right.host),
        SortColumn::Path => text_order(&left.path, &right.path),
        SortColumn::Mime => text_order(&left.mime, &right.mime),
        SortColumn::Status => number_order(left.status as u64, right.status as u64),
        SortColumn::ReqBytes => number_order(left.req_bytes, right.req_bytes),
        SortColumn::ResBytes => number_order(left.res_bytes, right.res_bytes),
        SortColumn::Duration => number_order(left.duration_ms_bits, right.duration_ms_bits),
    };
    let o = match by_column {
        Order::Equal => if left.id < right.id {
            Order::Less
        } else if left.id == right.id {
            Order::Equal
        } else {
            Order::Greater
        },
        other => other,
    };
    match sort.direction {
        SortDirection::Asc => o,
        SortDirection::Desc => match o {
            Order::Less => Order::Greater,
            Order::Equal => Order::Equal,
            Order::Greater => Order::Less,
        },
    }
}

/// Whether row `i` comes before row `j`.
fn precedes_exec(es: &Vec<EntrySummary>, sort: SortConfig, i: usize, j: usize) -> (r: bool)
    requires
        i < es.len(),
        j < es.len(),
    ensures
        r == precedes(es@, sort, i as int, j as int),
{
    match compare_entries(&es[i], &es[j], sort) {
        Order::Less => true,
        Order::Equal => i < j,
        Order::Greater => false,
    }
}

/// All indices lie inside the rows.
pub open spec fn in_rows(rows: Seq<usize>, n: int) -> bool {
    forall|k: int| 0 <= k < rows.len() ==> #[trigger] rows[k] < n
}

proof fn lemma_le_transitive(es: Seq<EntrySummary>, sort: SortConfig, x: int, y: int, z: int)
    requires
        0 <= x < es.len(),
        0 <= y < es.len(),
        0 <= z < es.len(),
        !precedes(es, sort, y, x),
        !precedes(es, sort, z, y),
    ensures
        !precedes(es, sort, z, x),
{
    law_precedes_strict_total_order(es, sort, x, y, z);
    law_precedes_strict_total_order(es, sort, z, y, x);
    law_precedes_strict_total_order(es, sort, y, z, x);
    law_precedes_strict_total_order(es, sort, z, x, y);
    law_precedes_strict_total_order(es, sort, x, z, y);
}

/// Merges two sorted lists of rows into one.
fn merge_rows(es: &Vec<EntrySummary>, sort: SortConfig, l: Vec<usize>, r: Vec<usize>) -> (m: Vec<usize>)
    requires
        in_rows(l@, es.len() as int),
        in_rows(r@, es.len() as int),
        sorted_rows(es@, sort, l@),
        sorted_rows(es@, sort, r@),
    ensures
        m@.to_multiset() == l@.to_multiset().add(r@.to_multiset()),
        in_rows(m@, es.len() as int),
        sorted_rows(es@, sort, m@),
{
    broadcast use vstd::seq_lib::group_to_multiset_ensures, vstd::multiset::group_multiset_axioms;

    let mut m: Vec<usize> = Vec::new();
    let mut i: usize = 0;
    let mut j: usize = 0;
    while i < l.len() || j < r.len()
        invariant
            i <= l.len(),
            j <= r.len(),
            in_rows(l@, es.len() as int),
            in_rows(r@, es.len() as int),
            sorted_rows(es@, sort, l@),
            sorted_rows(es@, sort, r@),
            m@.to_multiset() == l@.take(i as int).to_multiset().add(r@.take(j as int).to_multiset()),
            in_rows(m@, es.len() as int),
            sorted_rows(es@, sort, m@),
            m@.len() > 0 ==> forall|k: int|
                i <= k < l.len() ==> !precedes(es@, sort, #[trigger] l@[k] as int, m@.last() as int),
            m@.len() > 0 ==> forall|k: int|
                j <= k < r.len() ==> !precedes(es@, sort, #[trigger] r@[k] as int, m@.last() as int),
        decreases l.len() + r.len() - i - j,
    {
        let take_left = if i < l.len() && j < r.len() {
            !precedes_exec(es, sort, r[j], l[i])
        } else {
            i < l.len()
        };
        let ghost before = m@;
        let x = if take_left {
            l[i]
        } else {
            r[j]
        };
        m.push(x);
        proof {
            assert(m@ == before.push(x));
            vstd::seq_lib::to_multiset_build(before, x);
            if take_left {
                assert(l@.take(i + 1) =~= l@.take(i as int).push(x));
                vstd::seq_lib::to_multiset_build(l@.take(i as int), x);
                assert(m@.to_multiset() =~= l@.take(i + 1).to_multiset().add(
                    r@.take(j as int).to_multiset(),
                ));
                assert forall|k: int| i + 1 <= k < l.len() implies !precedes(
                    es@,
                    sort,
                    #[trigger] l@[k] as int,
                    x as int,
                ) by {
                    assert(!precedes(es@, sort, l@[k] as int, l@[i as int] as int));
                }
                assert forall|k: int| j <= k < r.len() implies !precedes(
                    es@,
                    sort,
                    #[trigger] r@[k] as int,
                    x as int,
                ) by {
                    if k > j {
                        assert(!precedes(es@, sort, r@[k] as int, r@[j as int] as int));
                        lemma_le_transitive(es@, sort, x as int, r@[j as int] as int, r@[k] as int);
                    }
                }
            } else {
                assert(r@.take(j + 1) =~= r@.take(j as int).push(x));
                vstd::seq_lib::to_multiset_build(r@.take(j as int), x);
                assert(m@.to_multiset() =~= l@.take(i as int).to_multiset().add(
                    r@.take(j + 1).to_multiset(),
                ));
                assert forall|k: int| j + 1 <= k < r.len() implies !precedes(
                    es@,
                    sort,
                    #[trigger] r@[k] as int,
                    x as int,
                ) by {
                    assert(!precedes(es@, sort, r@[k] as int, r@[j as int] as int));
                }
                assert forall|k: int| i <= k < l.len() implies !precedes(
                    es@,
                    sort,
                    #[trigger] l@[k] as int,
                    x as int,
                ) by {
                    law_precedes_strict_total_order(
                        es@,
                        sort,
                        x as int,
                        l@[i as int] as int,
                        x as int,
                    );
                    if k > i {
                        assert(!precedes(es@, sort, l@[k] as int, l@[i as int] as int));
                        lemma_le_transitive(es@, sort, x as int, l@[i as int] as int, l@[k] as int);
                    }
                }
            }
            assert forall|a: int, b: int| 0 <= a < b < m@.len() implies !precedes(
                es@,
                sort,
                #[trigger] m@[b] as int,
                #[trigger] m@[a] as int,
            ) by {
                if b == m@.len() - 1 && a < b {
                    if a < before.len() - 1 {
                        assert(!precedes(es@, sort, before.last() as int, before[a] as int));
                        lemma_le_transitive(es@, sort, before[a] as int, before.last() as int, x as int);
                    }
                } else {
                    assert(m@[a] == before[a]);
                    assert(m@[b] == before[b]);
                }
            }
        }
        if take_left {
            i = i + 1;
        } else {
            j = j + 1;
        }
    }
    assert(l@.take(l.len() as int) =~= l@);
    assert(r@.take(r.len() as int) =~= r@);
    m
}

/// Sorts a list of rows.
pub(crate) fn sort_rows(es: &Vec<EntrySummary>, sort: SortConfig, v: Vec<usize>) -> (s: Vec<usize>)
    requires
        in_rows(v@, es.len() as int),
    ensures
        s@.to_multiset() == v@.to_multiset(),
        in_rows(s@, es.len() as int),
        sorted_rows(es@, sort, s@),
    decreases v.len(),
{
    let n = v.len();
    if n <= 1 {
        return v;
    }
    let mid = n / 2;
    let left = vstd::slice::slice_to_vec(vstd::slice::slice_subrange(v.as_slice(), 0, mid));
    let right = vstd::slice::slice_to_vec(vstd::slice::slice_subrange(v.as_slice(), mid, n));
    proof {
        assert(v@ =~= left@ + right@);
        vstd::seq_lib::lemma_multiset_commutative(left@, right@);
    }
    let sl = sort_rows(es, sort, left);
    let sr = sort_rows(es, sort, right);
    merge_rows(es, sort, sl, sr)
}

} // verus!

verus! {

proof fn lemma_reverse_multiset(s: Seq<usize>)
    ensures
        s.reverse().to_multiset() == s.to_multiset(),
    decreases s.len(),
{
    broadcast use vstd::seq_lib::group_to_multiset_ensures, vstd::multiset::group_multiset_axioms;

    if s.len() > 0 {
        let init = s.drop_last();
        let x = s.last();
        lemma_reverse_multiset(init);
        assert(s.reverse() =~= seq![x] + init.reverse());
        vstd::seq_lib::lemma_multiset_commutative(seq![x], init.reverse());
        assert(s =~= init.push(x));
        vstd::seq_lib::to_multiset_build(init, x);
        assert(seq![x] =~= Seq::<usize>::empty().push(x));
        vstd::seq_lib::to_multiset_build(Seq::<usize>::empty(), x);
        assert(s.reverse().to_multiset() =~= s.to_multiset());
    }
}

/// Two lists of the same rows, both sorted the same way, are equal.
pub proof fn lemma_sorted_rows_unique(es: Seq<EntrySummary>, sort: SortConfig, s: Seq<usize>, t: Seq<usize>)
    requires
        s.to_multiset() == t.to_multiset(),
        sorted_rows(es, sort, s),
        sorted_rows(es, sort, t),
        in_rows(s, es.len() as int),
        in_rows(t, es.len() as int),
    ensures
        s == t,
    decreases s.len(),
{
    broadcast use vstd::seq_lib::group_to_multiset_ensures, vstd::multiset::group_multiset_axioms;

    assert(s.to_multiset().len() == s.len());
    assert(t.to_multiset().len() == t.len());
    if s.len() == 0 {
        assert(s =~= t);
    } else {
        let s0 = s[0];
        let t0 = t[0];
        assert(t.contains(t0));
        assert(t.to_multiset().count(t0) > 0);
        assert(s.contains(t0));
        let k = choose|k: int| 0 <= k < s.len() && s[k] == t0;
        assert(s.contains(s0));
        assert(s.to_multiset().count(s0) > 0);
        assert(t.contains(s0));
        let m = choose|m: int| 0 <= m < t.len() && t[m] == s0;
        if k > 0 {
            assert(!precedes(es, sort, s[k] as int, s[0] as int));
        }
        if m > 0 {
            assert(!precedes(es, sort, t[m] as int, t[0] as int));
        }
        law_precedes_strict_total_order(es, sort, s0 as int, t0 as int, s0 as int);
        assert(s0 == t0);
        vstd::seq_lib::to_multiset_remove(s, 0);
        vstd::seq_lib::to_multiset_remove(t, 0);
        assert(s.remove(0) =~= s.drop_first());
        assert(t.remove(0) =~= t.drop_first());
        let s1 = s.drop_first();
        let t1 = t.drop_first();
        assert forall|a: int, b: int| 0 <= a < b < s1.len() implies !precedes(
            es,
            sort,
            #[trigger] s1[b] as int,
            #[trigger] s1[a] as int,
        ) by {
            assert(s1[a] == s[a + 1] && s1[b] == s[b + 1]);
        }
        assert forall|a: int, b: int| 0 <= a < b < t1.len() implies !precedes(
            es,
            sort,
            #[trigger] t1[b] as int,
            #[trigger] t1[a] as int,
        ) by {
            assert(t1[a] == t[a + 1] && t1[b] == t[b + 1]);
        }
        assert forall|a: int| 0 <= a < s1.len() implies #[trigger] s1[a] < es.len() by {
            assert(s1[a] == s[a + 1]);
        }
        assert forall|a: int| 0 <= a < t1.len() implies #[trigger] t1[a] < es.len() by {
            assert(t1[a] == t[a + 1]);
        }
        lemma_sorted_rows_unique(es, sort, s1, t1);
        assert forall|i: int| 0 <= i < s.len() implies s[i] == t[i] by {
            if i > 0 {
                assert(s[i] == s1[i - 1]);
                assert(t[i] == t1[i - 1]);
            }
        }
        assert(s =~= t);
    }
}

/// Law: when entry ids are distinct, sorting a column descending lists the
/// rows of the ascending sort in reverse.
pub proof fn law_descending_reverses_ascending(
    es: Seq<EntrySummary>,
    column: SortColumn,
    asc: Seq<usize>,
    desc: Seq<usize>,
)
    requires
        forall|i: int, j: int|
            0 <= i < es.len() && 0 <= j < es.len() && i != j ==> #[trigger] es[i].id
                != #[trigger] es[j].id,
        asc.to_multiset() == desc.to_multiset(),
        sorted_rows(es, SortConfig { column, direction: SortDirection::Asc }, asc),
        sorted_rows(es, SortConfig { column, direction: SortDirection::Desc }, desc),
        in_rows(asc, es.len() as int),
        in_rows(desc, es.len() as int),
    ensures
        desc == asc.reverse(),
{
    let up = SortConfig { column, direction: SortDirection::Asc };
    let down = SortConfig { column, direction: SortDirection::Desc };
    let r = asc.reverse();
    lemma_reverse_multiset(asc);
    assert forall|a: int| 0 <= a < r.len() implies #[trigger] r[a] < es.len() by {
        assert(r[a] == asc[asc.len() - 1 - a]);
    }
    assert forall|a: int, b: int| 0 <= a < b < r.len() implies !precedes(
        es,
        down,
        #[trigger] r[b] as int,
        #[trigger] r[a] as int,
    ) by {
        let x = r[b];
        let y = r[a];
        assert(x == asc[asc.len() - 1 - b]);
        assert(y == asc[asc.len() - 1 - a]);
        assert(!precedes(es, up, y as int, x as int));
        lemma_row_order_flip(es[x as int], es[y as int], up);
        lemma_row_order_equal(es[x as int], es[y as int], up);
        lemma_row_order_equal(es[y as int], es[x as int], up);
        lemma_row_order_flip(es[y as int], es[x as int], up);
    }
    lemma_sorted_rows_unique(es, down, desc, r);
}

} // verus!

verus! {

/// A one-number key orders as the numbers do.
proof fn lemma_single_key(a: int, b: int)
    ensures
        lex(seq![a], seq![b]) == int_order(a, b),
{
    assert(lex_from(seq![a], seq![b], 1) is Equal);
}

/// Two rows whose keys in the sorted column are the single numbers `a` and
/// `b`: the smaller number comes first ascending and last descending; equal
/// numbers leave the order to the ids.
proof fn lemma_number_column(l: EntrySummary, r: EntrySummary, column: SortColumn, a: int, b: int)
    requires
        column_key(l, column) == seq![a],
        column_key(r, column) == seq![b],
    ensures
        a < b ==> row_order(l, r, SortConfig { column, direction: SortDirection::Asc }) is Less,
        a < b ==> row_order(l, r, SortConfig { column, direction: SortDirection::Desc }) is Greater,
        a > b ==> row_order(l, r, SortConfig { column, direction: SortDirection::Asc }) is Greater,
        a > b ==> row_order(l, r, SortConfig { column, direction: SortDirection::Desc }) is Less,
        a == b ==> row_order(l, r, SortConfig { column, direction: SortDirection::Asc })
            == int_order(l.id as int, r.id as int),
        a == b ==> row_order(l, r, SortConfig { column, direction: SortDirection::Desc })
            == int_order(r.id as int, l.id as int),
{
    lemma_single_key(a, b);
}

/// Law: sorting by status orders two rows by their status codes: the lower
/// status comes first ascending and last descending; rows with the same
/// status are ordered by id in the sort's direction.
pub proof fn law_status_column_orders_by_status(l: EntrySummary, r: EntrySummary)
    ensures
        l.status < r.status ==> row_order(
            l,
            r,
            SortConfig { column: SortColumn::Status, direction: SortDirection::Asc },
        ) is Less,
        l.status < r.status ==> row_order(
            l,
            r,
            SortConfig { column: SortColumn::Status, direction: SortDirection::Desc },
        ) is Greater,
        l.status == r.status && l.id < r.id ==> row_order(
            l,
            r,
            SortConfig { column: SortColumn::Status, direction: SortDirection::Asc },
        ) is Less,
        l.status == r.status && l.id < r.id ==> row_order(
            l,
            r,
            SortConfig { column: SortColumn::Status, direction: SortDirection::Desc },
        ) is Greater,
{
    lemma_number_column(l, r, SortColumn::Status, l.status as int, r.status as int);
}

/// Law: sorting by request bytes orders two rows by their request sizes,
/// smaller first ascending and last descending; equal sizes by id.
pub proof fn law_req_bytes_column_orders_by_req_bytes(l: EntrySummary, r: EntrySummary)
    ensures
        l.req_bytes < r.req_bytes ==> row_order(
            l,
            r,
            SortConfig { column: SortColumn::ReqBytes, direction: SortDirection::Asc },
        ) is Less,
        l.req_bytes < r.req_bytes ==> row_order(
            l,
            r,
            SortConfig { column: SortColumn::ReqBytes, direction: SortDirection::Desc },
        ) is Greater,
        l.req_bytes == r.req_bytes && l.id < r.id ==> row_order(
            l,
            r,
            SortConfig { column: SortColumn::ReqBytes, direction: SortDirection::Asc },
        ) is Less,
        l.req_bytes == r.req_bytes && l.id < r.id ==> row_order(
            l,
            r,
            SortConfig { column: SortColumn::ReqBytes, direction: SortDirection::Desc },
        ) is Greater,
{
    lemma_number_column(l, r, SortColumn::ReqBytes, l.req_bytes as int, r.req_bytes as int);
}

/// Law: sorting by response bytes orders two rows by their response sizes,
/// smaller first ascending and last descending; equal sizes by id.
pub proof fn law_res_bytes_column_orders_by_res_bytes(l: EntrySummary, r: EntrySummary)
    ensures
        l.res_bytes < r.res_bytes ==> row_order(
            l,
            r,
            SortConfig { column: SortColumn::ResBytes, direction: SortDirection::Asc },
        ) is Less,
        l.res_bytes < r.res_bytes ==> row_order(
            l,
            r,
            SortConfig { column: SortColumn::ResBytes, direction: SortDirection::Desc },
        ) is Greater,
        l.res_bytes == r.res_bytes && l.id < r.id ==> row_order(
            l,
            r,
            SortConfig { column: SortColumn::ResBytes, direction: SortDirection::Asc },
        ) is Less,
        l.res_bytes == r.res_bytes && l.id < r.id ==> row_order(
            l,
            r,
            SortConfig { column: SortColumn::ResBytes, direction: SortDirection::Desc },
        ) is Greater,
{
    lemma_number_column(l, r, SortColumn::ResBytes, l.res_bytes as int, r.res_bytes as int);
}

/// Law: sorting by duration orders two rows by the bit patterns of their
/// durations (which, for non-negative durations, order as the durations do),
/// smaller first ascending and last descending; equal durations by id.
pub proof fn law_duration_column_orders_by_duration(l: EntrySummary, r: EntrySummary)
    ensures
        l.duration_ms_bits < r.duration_ms_bits ==> row_order(
            l,
            r,
            SortConfig { column: SortColumn::Duration, direction: SortDirection::Asc },
        ) is Less,
        l.duration_ms_bits < r.duration_ms_bits ==> row_order(
            l,
            r,
            SortConfig { column: SortColumn::Duration, direction: SortDirection::Desc },
        ) is Greater,
        l.duration_ms_bits == r.duration_ms_bits && l.id < r.id ==> row_order(
            l,
            r,
            SortConfig { column: SortColumn::Duration, direction: SortDirection::Asc },
        ) is Less,
        l.duration_ms_bits == r.duration_ms_bits && l.id < r.id ==> row_order(
            l,
            r,
            SortConfig { column: SortColumn::Duration, direction: SortDirection::Desc },
        ) is Greater,
{
    lemma_number_column(
        l,
        r,
        SortColumn::Duration,
        l.duration_ms_bits as int,
        r.duration_ms_bits as int,
    );
}

/// Two rows with the same key in the sorted column are ordered by id.
proof fn lemma_tied_column(l: EntrySummary, r: EntrySummary, column: SortColumn)
    requires
        column_key(l, column) == column_key(r, column),
    ensures
        l.id < r.id ==> row_order(l, r, SortConfig { column, direction: SortDirection::Asc }) is Less,
        l.id < r.id ==> row_order(l, r, SortConfig { column, direction: SortDirection::Desc }) is Greater,
{
    let k = column_key(l, column);
    lemma_lex_equal(k, k, 0);
}

/// Law: in a text column, rows with the same text there are ordered by id,
/// whatever their other fields hold: the lower id first ascending and last
/// descending.
pub proof fn law_text_column_ties_by_id(l: EntrySummary, r: EntrySummary, direction: SortDirection)
    requires
        l.id < r.id,
    ensures
        l.started_at@ == r.started_at@ ==> row_order(
            l,
            r,
            SortConfig { column: SortColumn::StartedAt, direction },
        ) == (if direction is Asc { Order::Less } else { Order::Greater }),
        l.method@ == r.method@ ==> row_order(l, r, SortConfig { column: SortColumn::Method, direction })
            == (if direction is Asc { Order::Less } else { Order::Greater }),
        l.host@ == r.host@ ==> row_order(l, r, SortConfig { column: SortColumn::Host, direction }) == (
        if direction is Asc { Order::Less } else { Order::Greater }),
        l.path@ == r.path@ ==> row_order(l, r, SortConfig { column: SortColumn::Path, direction }) == (
        if direction is Asc { Order::Less } else { Order::Greater }),
        l.mime@ == r.mime@ ==> row_order(l, r, SortConfig { column: SortColumn::Mime, direction }) == (
        if direction is Asc { Order::Less } else { Order::Greater }),
{
    if l.started_at@ == r.started_at@ {
        lemma_tied_column(l, r, SortColumn::StartedAt);
    }
    if l.method@ == r.method@ {
        lemma_tied_column(l, r, SortColumn::Method);
    }
    if l.host@ == r.host@ {
        lemma_tied_column(l, r, SortColumn::Host);
    }
    if l.path@ == r.path@ {
        lemma_tied_column(l, r, SortColumn::Path);
    }
    if l.mime@ == r.mime@ {
        lemma_tied_column(l, r, SortColumn::Mime);
    }
}

/// Law: rows listed in status order, ascending, have non-decreasing status
/// codes; descending, non-increasing ones.
pub proof fn law_status_sort_lists_statuses_in_order(
    es: Seq<EntrySummary>,
    direction: SortDirection,
    rows: Seq<usize>,
    a: int,
    b: int,
)
    requires
        sorted_rows(es, SortConfig { column: SortColumn::Status, direction }, rows),
        in_rows(rows, es.len() as int),
        0 <= a < b < rows.len(),
    ensures
        direction is Asc ==> es[rows[a] as int].status <= es[rows[b] as int].status,
        direction is Desc ==> es[rows[a] as int].status >= es[rows[b] as int].status,
{
    let x = es[rows[a] as int];
    let y = es[rows[b] as int];
    assert(!precedes(es, SortConfig { column: SortColumn::Status, direction }, rows[b] as int, rows[a] as int));
    law_status_column_orders_by_status(y, x);
}

} // verus!

verus! {

/// Every character of `s` is ASCII.
pub open spec fn is_ascii(s: Seq<char>) -> bool {
    forall|k: int| 0 <= k < s.len() ==> (#[trigger] s[k] as u32) < 128
}

/// The byte key of ASCII text is its character codes.
proof fn lemma_ascii_byte_key(s: Seq<char>)
    requires
        is_ascii(s),
    ensures
        byte_key(s).len() == s.len(),
        forall|k: int| 0 <= k < s.len() ==> #[trigger] byte_key(s)[k] == (s[k] as u32) as int,
    decreases s.len(),
{
    if s.len() > 0 {
        let t = s.drop_first();
        assert forall|k: int| 0 <= k < t.len() implies (#[trigger] t[k] as u32) < 128 by {
            assert(t[k] == s[k + 1]);
        }
        lemma_ascii_byte_key(t);
        let v = s[0] as u32;
        assert(v < 128);
        assert(v & 0x7F == v) by (bit_vector)
            requires
                v < 128,
        ;
        let e = encode_utf8(s);
        let et = encode_utf8(t);
        assert(e == seq![(v & 0x7F) as u8] + et);
        assert(et.len() == byte_key(t).len());
        assert forall|k: int| 0 <= k < s.len() implies #[trigger] byte_key(s)[k] == (s[k] as u32) as int by {
            if k == 0 {
                assert(e[0] == (v & 0x7F) as u8);
            } else {
                assert(e[k] == et[k - 1]);
                assert(byte_key(t)[k - 1] == (t[k - 1] as u32) as int);
                assert(t[k - 1] == s[k]);
            }
        }
    }
}

/// Sequences that agree before `i` compare as they do from `i` on.
proof fn lemma_lex_common_prefix(a: Seq<int>, b: Seq<int>, i: int)
    requires
        0 <= i <= a.len(),
        i <= b.len(),
        forall|k: int| 0 <= k < i ==> a[k] == b[k],
    ensures
        lex(a, b) == lex_from(a, b, i),
    decreases i,
{
    if i > 0 {
        lemma_lex_common_prefix(a, b, i - 1);
        assert(a[i - 1] == b[i - 1]);
    }
}

/// Law: text columns compare ASCII text character by character: text that
/// agrees with another up to a character with a smaller code, or that is a proper
/// prefix of it, comes first ascending and last descending.
pub proof fn law_text_column_orders_ascii(
    l: EntrySummary,
    r: EntrySummary,
    column: SortColumn,
    a: Seq<char>,
    b: Seq<char>,
    i: int,
)
    requires
        is_ascii(a),
        is_ascii(b),
        0 <= i <= a.len(),
        i < b.len(),
        a.take(i) == b.take(i),
        i == a.len() || (a[i] as u32) < (b[i] as u32),
        match column {
            SortColumn::StartedAt => l.started_at@ == a && r.started_at@ == b,
            SortColumn::Method => l.method@ == a && r.method@ == b,
            SortColumn::Host => l.host@ == a && r.host@ == b,
            SortColumn::Path => l.path@ == a && r.path@ == b,
            SortColumn::Mime => l.mime@ == a && r.mime@ == b,
            _ => false,
        },
    ensures
        row_order(l, r, SortConfig { column, direction: SortDirection::Asc }) is Less,
        row_order(l, r, SortConfig { column, direction: SortDirection::Desc }) is Greater,
{
    lemma_ascii_byte_key(a);
    lemma_ascii_byte_key(b);
    let ka = byte_key(a);
    let kb = byte_key(b);
    assert forall|k: int| 0 <= k < i implies ka[k] == kb[k] by {
        assert(a.take(i)[k] == b.take(i)[k]);
        assert(a.take(i)[k] == a[k]);
        assert(b.take(i)[k] == b[k]);
        assert(a[k] == b[k]);
        assert(ka[k] == (a[k] as u32) as int);
        assert(kb[k] == (b[k] as u32) as int);
    }
    if i < a.len() {
        assert(ka[i] == (a[i] as u32) as int);
        assert(kb[i] == (b[i] as u32) as int);
    }
    lemma_lex_common_prefix(ka, kb, i);
    assert(lex_from(ka, kb, i) is Less);
    assert(column_key(l, column) == ka);
    assert(column_key(r, column) == kb);
}

} // verus!

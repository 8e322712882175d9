//! Ordering table rows by one column.
use vstd::prelude::*;
use std::cmp::Ordering;

use crate::model::Record;
use crate::text::{chars_less, compare_str, lemma_less_irreflexive, lemma_less_total, order_of, Order};

verus! {

/// `o` reversed.
pub open spec fn flip(o: Order) -> Order {
    match o {
        Order::Less => Order::Greater,
        Order::Equal => Order::Equal,
        Order::Greater => Order::Less,
    }
}

/// How record `a` compares to record `b` by column `col`, reversed when
/// `desc`.
pub open spec fn row_order(records: Seq<Record>, col: usize, desc: bool, a: usize, b: usize) -> Order {
    let o = order_of(records[a as int].column(col as int), records[b as int].column(col as int));
    if desc {
        flip(o)
    } else {
        o
    }
}

/// Rows compare by the text of the sorted column: equal when the texts are
/// equal, before when the text comes first in character order; sorting in
/// reverse compares the two rows the other way round.
pub proof fn lemma_row_order(records: Seq<Record>, col: usize, a: usize, b: usize)
    ensures
        (row_order(records, col, false, a, b) == Order::Equal) == (records[a as int].column(col as int)
            == records[b as int].column(col as int)),
        (row_order(records, col, false, a, b) == Order::Less) == chars_less(
            records[a as int].column(col as int),
            records[b as int].column(col as int),
        ),
        row_order(records, col, true, a, b) == row_order(records, col, false, b, a),
{
    let x = records[a as int].column(col as int);
    let y = records[b as int].column(col as int);
    lemma_less_total(x, y);
    lemma_less_irreflexive(x);
}

/// The standard library's value for an `Order`.
pub open spec fn std_order(o: Order) -> Ordering {
    match o {
        Order::Less => Ordering::Less,
        Order::Equal => Ordering::Equal,
        Order::Greater => Ordering::Greater,
    }
}

/// Compares records `a` and `b` by column `col`, in reverse when `desc`.
pub fn order_rows(records: &Vec<Record>, col: usize, desc: bool, a: usize, b: usize) -> (r: Ordering)
    requires
        a < records@.len(),
        b < records@.len(),
    ensures
        r == std_order(row_order(records@, col, desc, a, b)),
{
    let o = compare_str(records[a].field(col), records[b].field(col));
    let o = if desc {
        match o {
            Order::Less => Order::Greater,
            Order::Equal => Order::Equal,
            Order::Greater => Order::Less,
        }
    } else {
        o
    };
    match o {
        Order::Less => Ordering::Less,
        Order::Equal => Ordering::Equal,
        Order::Greater => Ordering::Greater,
    }
}

/// Trusted: `slice::sort_unstable_by` with `order_rows` as the comparison.
/// As its documentation says, the result is a permutation of the input,
/// and, the comparison being a total order, sorted by it. Nothing is said
/// of the order of rows that compare equal.
#[verifier::external_body]
pub(crate) fn sort_rows(v: &mut Vec<usize>, records: &Vec<Record>, col: usize, desc: bool)
    requires
        forall|i: int| 0 <= i < old(v)@.len() ==> old(v)@[i] < records@.len(),
    ensures
        final(v)@.to_multiset() == old(v)@.to_multiset(),
        forall|i: int, j: int|
            0 <= i < j < final(v)@.len() ==> row_order(records@, col, desc, final(v)@[i], final(v)@[j])
                != Order::Greater,
{
    v.sort_unstable_by(|a, b| order_rows(records, col, desc, *a, *b));
}

/// The entries of `s` whose record holds the same text in column `col` as
/// record `a`, in their order in `s`: the rows that compare equal to `a`.
pub open spec fn same_key_run(s: Seq<usize>, records: Seq<Record>, col: usize, a: usize) -> Seq<usize> {
    s.filter(|b: usize| records[b as int].column(col as int) == records[a as int].column(col as int))
}

/// Trusted: `slice::sort_by` with `order_rows` as the comparison. As its
/// documentation says, the result is a permutation of the input, sorted
/// by the comparison (a total order), and the sort is stable: rows that
/// compare equal keep their order.
#[verifier::external_body]
pub(crate) fn sort_rows_stable(v: &mut Vec<usize>, records: &Vec<Record>, col: usize, desc: bool)
    requires
        forall|i: int| 0 <= i < old(v)@.len() ==> old(v)@[i] < records@.len(),
    ensures
        final(v)@.to_multiset() == old(v)@.to_multiset(),
        forall|i: int, j: int|
            0 <= i < j < final(v)@.len() ==> row_order(records@, col, desc, final(v)@[i], final(v)@[j])
                != Order::Greater,
        forall|a: usize| #[trigger] same_key_run(final(v)@, records@, col, a) == same_key_run(old(v)@, records@, col, a),
{
    v.sort_by(|a, b| order_rows(records, col, desc, *a, *b));
}

/// Compares two entries by their keys.
pub fn order_keys<V>(a: &(String, V), b: &(String, V)) -> (r: Ordering)
    ensures
        r == std_order(order_of(a.0@, b.0@)),
{
    match compare_str(a.0.as_str(), b.0.as_str()) {
        Order::Less => Ordering::Less,
        Order::Equal => Ordering::Equal,
        Order::Greater => Ordering::Greater,
    }
}

/// Trusted: `slice::sort_unstable_by` with `order_keys` as the comparison.
/// As its documentation says, the result is a permutation of the input,
/// and, the comparison being a total order, sorted by it.
#[verifier::external_body]
pub(crate) fn sort_entries<V>(v: &mut Vec<(String, V)>)
    ensures
        final(v)@.to_multiset() == old(v)@.to_multiset(),
        forall|i: int, j: int|
            0 <= i < j < final(v)@.len() ==> order_of(final(v)@[i].0@, final(v)@[j].0@) != Order::Greater,
{
    v.sort_unstable_by(|a, b| order_keys(a, b));
}

} // verus!

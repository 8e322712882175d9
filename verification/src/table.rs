//! The searchable, sortable table of all records.
use vstd::prelude::*;

use crate::model::Record;
use crate::sorting::{row_order, same_key_run, sort_rows_stable};
use crate::text::{contains_chars, contains_str, lowercase, to_lowercase, Order};

verus! {

/// Some field of `r`, lowercased, contains `q`.
pub open spec fn record_matches(r: Record, q: Seq<char>) -> bool {
    exists|c: int| 0 <= c < 6 && #[trigger] contains_chars(lowercase(r.column(c)), q)
}

/// The positions of the records with a field whose lowercase form contains
/// `q` (all of them when `q` is empty), in file order.
pub open spec fn records_with(records: Seq<Record>, q: Seq<char>) -> Seq<usize> {
    let all = Seq::new(records.len(), |i: int| i as usize);
    if q.len() == 0 {
        all
    } else {
        all.filter(|i: usize| record_matches(records[i as int], q))
    }
}

/// The positions of the records that match `query` (all of them when its
/// lowercase form is empty), in file order.
pub open spec fn matching_records(records: Seq<Record>, query: Seq<char>) -> Seq<usize> {
    records_with(records, lowercase(query))
}

/// Whether some field of `r`, lowercased, contains `q`.
fn matches_record(r: &Record, q: &str) -> (b: bool)
    ensures
        b == record_matches(*r, q@),
{
    let mut c: usize = 0;
    while c < 6
        invariant
            0 <= c <= 6,
            forall|k: int| 0 <= k < c ==> !#[trigger] contains_chars(lowercase(r.column(k)), q@),
        decreases 6 - c,
    {
        let low = to_lowercase(r.field(c));
        if contains_str(low.as_str(), q) {
            assert(contains_chars(lowercase(r.column(c as int)), q@));
            return true;
        }
        c = c + 1;
    }
    false
}

/// The positions, in file order, of the records with a field whose
/// lowercase form contains `q`; all of them when `q` is empty.
pub fn records_matching(records: &Vec<Record>, q: &str) -> (r: Vec<usize>)
    ensures
        r@ == records_with(records@, q@),
        forall|k: int| 0 <= k < r@.len() ==> #[trigger] r@[k] < records@.len(),
{
    let ghost all = Seq::new(records@.len(), |i: int| i as usize);
    let ghost pred = |i: usize| record_matches(records@[i as int], q@);
    let mut out: Vec<usize> = Vec::new();
    let mut i: usize = 0;
    proof {
        reveal(Seq::filter);
    }
    while i < records.len()
        invariant
            all == Seq::new(records@.len(), |i: int| i as usize),
            pred == (|i: usize| record_matches(records@[i as int], q@)),
            0 <= i <= records@.len(),
            q@.len() == 0 ==> out@ == all.take(i as int),
            q@.len() > 0 ==> out@ == all.take(i as int).filter(pred),
            forall|k: int| 0 <= k < out@.len() ==> #[trigger] out@[k] < i,
        decreases records@.len() - i,
    {
        proof {
            reveal(Seq::filter);
            assert(all.take(i + 1).drop_last() =~= all.take(i as int));
            assert(all.take(i + 1).last() == i);
        }
        if q.is_empty() || matches_record(&records[i], q) {
            out.push(i);
            assert(q@.len() == 0 ==> out@ =~= all.take(i + 1));
        }
        i = i + 1;
    }
    proof {
        assert(all.take(records@.len() as int) =~= all);
    }
    out
}

/// The search box, sort column and rows of the table of all records.
pub struct RecordTable {
    pub query: String,
    pub sort_col: usize,
    pub sort_desc: bool,
    pub filtered: Vec<usize>,
}

impl RecordTable {
    /// No query, sorted by the first column ascending, no rows yet.
    pub fn new() -> (t: Self)
        ensures
            t.query@.len() == 0,
            t.sort_col == 0,
            !t.sort_desc,
            t.filtered@.len() == 0,
    {
        RecordTable { query: String::new(), sort_col: 0, sort_desc: false, filtered: Vec::new() }
    }

    /// Shows the records matching the query, sorted by the sort column.
    pub fn apply_filter_and_sort(&mut self, records: &Vec<Record>)
        ensures
            final(self).query == old(self).query,
            final(self).sort_col == old(self).sort_col,
            final(self).sort_desc == old(self).sort_desc,
            final(self).filtered@.to_multiset() == matching_records(records@, old(self).query@).to_multiset(),
            forall|i: int, j: int|
                0 <= i < j < final(self).filtered@.len() ==> row_order(
                    records@,
                    old(self).sort_col,
                    old(self).sort_desc,
                    final(self).filtered@[i],
                    final(self).filtered@[j],
                ) != Order::Greater,
            forall|a: usize| #[trigger] same_key_run(final(self).filtered@, records@, old(self).sort_col, a)
                == same_key_run(matching_records(records@, old(self).query@), records@, old(self).sort_col, a),
    {
        let q = to_lowercase(self.query.as_str());
        let mut out = records_matching(records, q.as_str());
        let col = self.sort_col;
        let desc = self.sort_desc;
        sort_rows_stable(&mut out, records, col, desc);
        self.filtered = out;
    }

    /// A click on the header of column `col`: the same column again reverses
    /// the order, another column sorts by it ascending; then the rows are
    /// recomputed.
    pub fn set_sort(&mut self, records: &Vec<Record>, col: usize)
        ensures
            final(self).query == old(self).query,
            final(self).sort_col == col,
            final(self).sort_desc == (col == old(self).sort_col && !old(self).sort_desc),
            final(self).filtered@.to_multiset() == matching_records(records@, old(self).query@).to_multiset(),
            forall|i: int, j: int|
                0 <= i < j < final(self).filtered@.len() ==> row_order(
                    records@,
                    col,
                    final(self).sort_desc,
                    final(self).filtered@[i],
                    final(self).filtered@[j],
                ) != Order::Greater,
            forall|a: usize| #[trigger] same_key_run(final(self).filtered@, records@, col, a)
                == same_key_run(matching_records(records@, old(self).query@), records@, col, a),
    {
        if self.sort_col == col {
            self.sort_desc = !self.sort_desc;
        } else {
            self.sort_col = col;
            self.sort_desc = false;
        }
        self.apply_filter_and_sort(records);
    }
}

/// The records the table lists for a search `q` (already lowercased) are,
/// in file order, exactly those with `q` inside the lowercase form of one of
/// their six fields: Folder, Other, Identity, Rights, AccessControl or
/// Inherited. An empty search lists every record.
pub proof fn lemma_search_matches_fields(records: Seq<Record>, q: Seq<char>)
    requires
        records.len() <= usize::MAX,
    ensures
        forall|i: int|
            0 <= i < records.len() ==> (#[trigger] records_with(records, q).contains(i as usize) <==> (q.len() == 0
                || contains_chars(lowercase(records[i].folder@), q)
                || contains_chars(lowercase(records[i].other@), q)
                || contains_chars(lowercase(records[i].identity@), q)
                || contains_chars(lowercase(records[i].rights@), q)
                || contains_chars(lowercase(records[i].access_control@), q)
                || contains_chars(lowercase(records[i].inherited@), q))),
        forall|k: int| 0 <= k < records_with(records, q).len() ==> #[trigger] records_with(records, q)[k] < records.len(),
        forall|a: int, b: int|
            0 <= a < b < records_with(records, q).len() ==> #[trigger] records_with(records, q)[a]
                < #[trigger] records_with(records, q)[b],
{
    broadcast use vstd::seq_lib::group_filter_ensures;
    let all = Seq::new(records.len(), |i: int| i as usize);
    let pred = |i: usize| record_matches(records[i as int], q);
    assert forall|i: int|
        0 <= i < records.len() implies (#[trigger] records_with(records, q).contains(i as usize) <==> (q.len() == 0
            || contains_chars(lowercase(records[i].folder@), q)
            || contains_chars(lowercase(records[i].other@), q)
            || contains_chars(lowercase(records[i].identity@), q)
            || contains_chars(lowercase(records[i].rights@), q)
            || contains_chars(lowercase(records[i].access_control@), q)
            || contains_chars(lowercase(records[i].inherited@), q))) by {
        let r = records[i];
        assert(all[i] == i as usize);
        assert(records_with(records, q) == if q.len() == 0 { all } else { all.filter(pred) });
        let fields = contains_chars(lowercase(r.folder@), q) || contains_chars(lowercase(r.other@), q)
            || contains_chars(lowercase(r.identity@), q) || contains_chars(lowercase(r.rights@), q)
            || contains_chars(lowercase(r.access_control@), q) || contains_chars(lowercase(r.inherited@), q);
        assert(record_matches(r, q) == fields) by {
            if record_matches(r, q) {
                let c = choose|c: int| 0 <= c < 6 && #[trigger] contains_chars(lowercase(r.column(c)), q);
                if c == 0 {
                    assert(r.column(c) == r.folder@);
                } else if c == 1 {
                    assert(r.column(c) == r.other@);
                } else if c == 2 {
                    assert(r.column(c) == r.identity@);
                } else if c == 3 {
                    assert(r.column(c) == r.rights@);
                } else if c == 4 {
                    assert(r.column(c) == r.access_control@);
                } else {
                    assert(r.column(c) == r.inherited@);
                }
            }
            if contains_chars(lowercase(r.folder@), q) {
                assert(contains_chars(lowercase(r.column(0)), q));
            }
            if contains_chars(lowercase(r.other@), q) {
                assert(contains_chars(lowercase(r.column(1)), q));
            }
            if contains_chars(lowercase(r.identity@), q) {
                assert(contains_chars(lowercase(r.column(2)), q));
            }
            if contains_chars(lowercase(r.rights@), q) {
                assert(contains_chars(lowercase(r.column(3)), q));
            }
            if contains_chars(lowercase(r.access_control@), q) {
                assert(contains_chars(lowercase(r.column(4)), q));
            }
            if contains_chars(lowercase(r.inherited@), q) {
                assert(contains_chars(lowercase(r.column(5)), q));
            }
        }
        if q.len() == 0 {
            assert(all.contains(i as usize));
        } else {
            if pred(i as usize) {
                assert(all.filter(pred).contains(all[i]));
            }
            if all.filter(pred).contains(i as usize) {
                let k = choose|k: int| 0 <= k < all.filter(pred).len() && all.filter(pred)[k] == i as usize;
                assert(pred(all.filter(pred)[k]));
            }
        }
    }
    assert forall|i: int| 0 <= i < all.len() implies #[trigger] all[i] as int == i by {}
    lemma_filtered_positions_increase(all, pred);
}

/// The table's search: for a query, the records listed are, in file order,
/// exactly those with the lowercase form of the query inside the lowercase
/// form of one of their six fields; a query whose lowercase form is empty
/// lists every record.
pub proof fn lemma_table_search(records: Seq<Record>, query: Seq<char>)
    requires
        records.len() <= usize::MAX,
    ensures
        forall|i: int|
            0 <= i < records.len() ==> (#[trigger] matching_records(records, query).contains(i as usize) <==> (
            lowercase(query).len() == 0
                || contains_chars(lowercase(records[i].folder@), lowercase(query))
                || contains_chars(lowercase(records[i].other@), lowercase(query))
                || contains_chars(lowercase(records[i].identity@), lowercase(query))
                || contains_chars(lowercase(records[i].rights@), lowercase(query))
                || contains_chars(lowercase(records[i].access_control@), lowercase(query))
                || contains_chars(lowercase(records[i].inherited@), lowercase(query)))),
        forall|a: int, b: int|
            0 <= a < b < matching_records(records, query).len() ==> #[trigger] matching_records(records, query)[a]
                < #[trigger] matching_records(records, query)[b],
        forall|k: int|
            0 <= k < matching_records(records, query).len() ==> #[trigger] matching_records(records, query)[k]
                < records.len(),
{
    lemma_search_matches_fields(records, lowercase(query));
}

/// Keeping some of the positions `0..n` keeps them in increasing order.
pub proof fn lemma_filtered_positions_increase(s: Seq<usize>, pred: spec_fn(usize) -> bool)
    requires
        forall|i: int| 0 <= i < s.len() ==> #[trigger] s[i] as int == i,
    ensures
        forall|k: int| 0 <= k < s.filter(pred).len() ==> #[trigger] s.filter(pred)[k] < s.len(),
        forall|a: int, b: int|
            0 <= a < b < s.filter(pred).len() ==> #[trigger] s.filter(pred)[a] < #[trigger] s.filter(pred)[b],
    decreases s.len(),
{
    reveal(Seq::filter);
    if s.len() > 0 {
        let prev = s.drop_last();
        assert forall|i: int| 0 <= i < prev.len() implies #[trigger] prev[i] as int == i by {
            assert(prev[i] == s[i]);
        }
        lemma_filtered_positions_increase(prev, pred);
        let fp = prev.filter(pred);
        let f = s.filter(pred);
        assert(s.last() as int == s.len() - 1);
        if pred(s.last()) {
            assert(f == fp.push(s.last()));
            assert forall|k: int| 0 <= k < f.len() implies #[trigger] f[k] < s.len() by {
                if k < fp.len() {
                    assert(f[k] == fp[k]);
                }
            }
            assert forall|a: int, b: int| 0 <= a < b < f.len() implies #[trigger] f[a] < #[trigger] f[b] by {
                assert(f[a] == fp[a]);
                if b < fp.len() {
                    assert(f[b] == fp[b]);
                } else {
                    assert(fp[a] < prev.len());
                }
            }
        } else {
            assert(f == fp);
        }
    } else {
        assert(s.filter(pred).len() == 0);
    }
}

} // verus!

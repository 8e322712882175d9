//! Turning the bytes of a pipe-delimited export into records and indexes.
use vstd::prelude::*;

use vstd::hash_map::StringHashMap;

use crate::interner::Interner;
use crate::model::{is_fixed_split, split_folder, Record};
use crate::strmap::{has_key, key, keys, sorted, StrMap};
use crate::sorting::sort_entries;
use crate::text::{chars_less, order_of, path_segments, split_segments, str_equal, strings_view, trim, trimmed, Order};
use crate::tree::is_prefix;
use crate::trie::{auto_split_folder, has_fn, is_auto_cut, lemma_auto_split_extends_fixed, universal_fn, SplitTrieNode};

verus! {

broadcast use vstd::string::group_string_axioms;

/// Field `i` of a row, or the empty string when the row is shorter.
pub open spec fn cell(row: Seq<Seq<char>>, i: int) -> Seq<char> {
    if 0 <= i < row.len() {
        row[i]
    } else {
        Seq::empty()
    }
}

/// The identity of a row: its second field, trimmed.
pub open spec fn row_identity(row: Seq<Seq<char>>) -> Seq<char> {
    trimmed(cell(row, 1))
}

/// The folder path of a row: its first field, trimmed.
pub open spec fn row_folder(row: Seq<Seq<char>>) -> Seq<char> {
    trimmed(cell(row, 0))
}

/// The rows whose identity is not one of `excluded`, in order.
pub open spec fn kept_rows(rows: Seq<Seq<Seq<char>>>, excluded: Seq<Seq<char>>) -> Seq<Seq<Seq<char>>> {
    rows.filter(|r: Seq<Seq<char>>| !excluded.contains(row_identity(r)))
}

/// The distinct elements of `xs` in the order they first occur.
pub open spec fn first_seen(xs: Seq<Seq<char>>) -> Seq<Seq<char>>
    decreases xs.len(),
{
    if xs.len() == 0 {
        Seq::empty()
    } else {
        let prev = first_seen(xs.drop_last());
        if prev.contains(xs.last()) {
            prev
        } else {
            prev.push(xs.last())
        }
    }
}

/// The identities of `rows`, each once, in the order they first occur.
pub open spec fn identity_order(rows: Seq<Seq<Seq<char>>>) -> Seq<Seq<char>> {
    first_seen(rows.map_values(|r: Seq<Seq<char>>| row_identity(r)))
}

/// The number given to identity `s`: its position in `order`.
pub open spec fn identity_id(order: Seq<Seq<char>>, s: Seq<char>) -> u32 {
    (choose|i: int| 0 <= i < order.len() && order[i] == s) as u32
}

/// The ids of the identities of the rows filed at or below the folder
/// path `q`.
pub open spec fn ids_below(rows: Seq<Seq<Seq<char>>>, q: Seq<Seq<char>>) -> Set<u32> {
    Set::new(
        |x: u32|
            exists|k: int|
                0 <= k < rows.len() && is_prefix(q, path_segments(row_folder(rows[k])))
                    && x == identity_id(identity_order(rows), row_identity(rows[k])),
    )
}

/// Some row is filed at or below the folder path `q`.
pub open spec fn reaches_folder(rows: Seq<Seq<Seq<char>>>, q: Seq<Seq<char>>) -> bool {
    exists|k: int| 0 <= k < rows.len() && is_prefix(q, path_segments(row_folder(rows[k])))
}

/// `trie` and `total` are what the first pass over `rows` builds: a node
/// for every folder on the rows' paths, each holding the ids of the
/// identities granted at or below it, and the number of distinct
/// identities.
pub open spec fn is_split_trie_of(trie: SplitTrieNode, total: nat, rows: Seq<Seq<Seq<char>>>) -> bool {
    &&& trie.wf()
    &&& total == identity_order(rows).len()
    &&& forall|q: Seq<Seq<char>>| #[trigger] trie.has_node(q) == (q.len() == 0 || reaches_folder(rows, q))
    &&& forall|q: Seq<Seq<char>>| #[trigger] trie.ids_at(q) == ids_below(rows, q)
}

/// The views of rows of strings.
pub open spec fn rows_view(rows: Seq<Vec<String>>) -> Seq<Seq<Seq<char>>> {
    rows.map_values(|r: Vec<String>| strings_view(r@))
}

/// Field `i` of a row, or `""` when the row is shorter.
pub fn row_cell(row: &Vec<String>, i: usize) -> (r: &str)
    ensures
        r@ == cell(strings_view(row@), i as int),
{
    if i < row.len() {
        row[i].as_str()
    } else {
        let empty = "";
        proof {
            reveal_strlit("");
        }
        assert(empty@ =~= Seq::<char>::empty());
        empty
    }
}

/// Whether `s` is one of `list`.
pub fn contains_string(list: &Vec<String>, s: &str) -> (r: bool)
    ensures
        r == strings_view(list@).contains(s@),
{
    let mut i: usize = 0;
    while i < list.len()
        invariant
            0 <= i <= list@.len(),
            forall|j: int| 0 <= j < i ==> list@[j]@ != s@,
        decreases list@.len() - i,
    {
        if str_equal(list[i].as_str(), s) {
            assert(strings_view(list@)[i as int] == s@);
            return true;
        }
        i = i + 1;
    }
    proof {
        if strings_view(list@).contains(s@) {
            let j = choose|j: int| 0 <= j < list@.len() && strings_view(list@)[j] == s@;
            assert(list@[j]@ == s@);
        }
    }
    false
}

/// `first_seen` holds each element of `xs` exactly once.
pub proof fn lemma_first_seen(xs: Seq<Seq<char>>)
    ensures
        first_seen(xs).no_duplicates(),
        forall|s: Seq<char>| #[trigger] first_seen(xs).contains(s) == xs.contains(s),
    decreases xs.len(),
{
    if xs.len() > 0 {
        let init = xs.drop_last();
        lemma_first_seen(init);
        let prev = first_seen(init);
        let cur = first_seen(xs);
        assert forall|s: Seq<char>| #[trigger] cur.contains(s) == xs.contains(s) by {
            assert(prev.contains(s) == init.contains(s));
            if init.contains(s) {
                let k = choose|k: int| 0 <= k < init.len() && init[k] == s;
                assert(xs[k] == s);
            }
            if xs.contains(s) && !init.contains(s) {
                let k = choose|k: int| 0 <= k < xs.len() && xs[k] == s;
                if k < xs.len() - 1 {
                    assert(init[k] == s);
                }
                assert(s == xs.last());
            }
            if prev.contains(xs.last()) {
                assert(cur == prev);
                if s == xs.last() {
                    assert(xs[xs.len() - 1] == s);
                }
            } else {
                assert(cur == prev.push(xs.last()));
                if prev.contains(s) {
                    let j = choose|j: int| 0 <= j < prev.len() && prev[j] == s;
                    assert(cur[j] == s);
                }
                if s == xs.last() {
                    assert(cur[prev.len() as int] == s);
                    assert(xs[xs.len() - 1] == s);
                }
                if cur.contains(s) {
                    let j = choose|j: int| 0 <= j < cur.len() && cur[j] == s;
                    if j < prev.len() {
                        assert(prev[j] == s);
                    }
                }
            }
        }
    }
}

/// In a sequence without duplicates, the id of an element is its position.
pub proof fn lemma_identity_id(order: Seq<Seq<char>>, i: int)
    requires
        order.no_duplicates(),
        0 <= i < order.len(),
    ensures
        identity_id(order, order[i]) == i as u32,
{
    let j = choose|j: int| 0 <= j < order.len() && order[j] == order[i];
    assert(j == i);
}

/// Adding an identity at the end keeps the ids of the others.
pub proof fn lemma_identity_id_push(order: Seq<Seq<char>>, s: Seq<char>, x: Seq<char>)
    requires
        order.no_duplicates(),
        !order.contains(s),
        order.contains(x),
    ensures
        identity_id(order.push(s), x) == identity_id(order, x),
{
    let i = choose|i: int| 0 <= i < order.len() && order[i] == x;
    lemma_identity_id(order, i);
    assert(order.push(s).no_duplicates());
    assert(order.push(s)[i] == x);
    lemma_identity_id(order.push(s), i);
}

/// A new identity added at the end gets the next id.
pub proof fn lemma_identity_id_new(order: Seq<Seq<char>>, s: Seq<char>)
    requires
        order.no_duplicates(),
        !order.contains(s),
    ensures
        identity_id(order.push(s), s) == order.len() as u32,
{
    assert(order.push(s).no_duplicates());
    assert(order.push(s)[order.len() as int] == s);
    lemma_identity_id(order.push(s), order.len() as int);
}

/// The identities of `rows` plus one more row.
pub proof fn lemma_identity_order_push(rows: Seq<Seq<Seq<char>>>, r: Seq<Seq<char>>)
    ensures
        identity_order(rows.push(r)) == if identity_order(rows).contains(row_identity(r)) {
            identity_order(rows)
        } else {
            identity_order(rows).push(row_identity(r))
        },
{
    let f = |x: Seq<Seq<char>>| row_identity(x);
    assert(rows.push(r).map_values(f).drop_last() =~= rows.map_values(f));
    assert(rows.push(r).map_values(f).last() == row_identity(r));
}

/// Builds the trie of the rows whose identity is not excluded, and counts
/// their distinct identities.
pub fn split_trie_of_rows(rows: &Vec<Vec<String>>, excluded: &Vec<String>) -> (r: (SplitTrieNode, usize))
    ensures
        is_split_trie_of(r.0, r.1 as nat, kept_rows(rows_view(rows@), strings_view(excluded@))),
{
    let ghost all = rows_view(rows@);
    let ghost ex = strings_view(excluded@);
    let mut root = SplitTrieNode::new();
    let mut ids: StringHashMap<u32> = StringHashMap::new();
    let mut i: usize = 0;
    proof {
        reveal(Seq::filter);
        assert(all.take(0) =~= Seq::<Seq<Seq<char>>>::empty());
        let ks = kept_rows(all.take(0), ex);
        assert(ks =~= Seq::<Seq<Seq<char>>>::empty());
        assert(identity_order(ks) =~= Seq::<Seq<char>>::empty());
        assert forall|q: Seq<Seq<char>>| #[trigger] root.ids_at(q) == ids_below(ks, q) by {
            assert(ids_below(ks, q) =~= Set::<u32>::empty());
        }
    }
    while i < rows.len()
        invariant
            all == rows_view(rows@),
            ex == strings_view(excluded@),
            0 <= i <= rows@.len(),
            is_split_trie_of(root, ids@.len() as nat, kept_rows(all.take(i as int), ex)),
            ids@.dom().finite(),
            forall|s: Seq<char>| #[trigger]
                ids@.contains_key(s) == identity_order(kept_rows(all.take(i as int), ex)).contains(s),
            forall|s: Seq<char>|
                identity_order(kept_rows(all.take(i as int), ex)).contains(s) ==> #[trigger] ids@[s]
                    == identity_id(identity_order(kept_rows(all.take(i as int), ex)), s),
        decreases rows@.len() - i,
    {
        let ghost ks = kept_rows(all.take(i as int), ex);
        let ghost order = identity_order(ks);
        let ghost row = all[i as int];
        proof {
            reveal(Seq::filter);
            assert(all.take(i + 1).drop_last() =~= all.take(i as int));
            assert(all.take(i + 1).last() == row);
            assert(row == strings_view(rows@[i as int]@));
            lemma_first_seen(ks.map_values(|x: Seq<Seq<char>>| row_identity(x)));
        }
        let identity = trim(row_cell(&rows[i], 1));
        assert(identity@ == row_identity(row));
        if contains_string(excluded, identity) {
            assert(kept_rows(all.take(i + 1), ex) == ks);
        } else {
            let ghost ks2 = ks.push(row);
            assert(kept_rows(all.take(i + 1), ex) == ks2);
            proof {
                lemma_identity_order_push(ks, row);
            }
            let ghost order2 = identity_order(ks2);
            let id = match ids.get(identity) {
                Some(v) => *v,
                None => {
                    let next = #[verifier::truncate] (ids.len() as u32);
                    let ghost before = ids@;
                    ids.insert(identity.to_owned(), next);
                    proof {
                        assert(!order.contains(identity@));
                        assert(order2 == order.push(identity@));
                        lemma_identity_id_new(order, identity@);
                        assert(ids@.dom() =~= before.dom().insert(identity@));
                        assert forall|s: Seq<char>| #[trigger] ids@.contains_key(s) == order2.contains(s) by {
                            if s != identity@ {
                                assert(order2.contains(s) == order.contains(s)) by {
                                    if order2.contains(s) {
                                        let j = choose|j: int| 0 <= j < order2.len() && order2[j] == s;
                                        assert(j < order.len());
                                        assert(order[j] == s);
                                    }
                                    if order.contains(s) {
                                        let j = choose|j: int| 0 <= j < order.len() && order[j] == s;
                                        assert(order2[j] == s);
                                    }
                                }
                            } else {
                                assert(order2[order.len() as int] == s);
                            }
                        }
                        assert forall|s: Seq<char>| order2.contains(s) implies #[trigger] ids@[s] == identity_id(order2, s) by {
                            if s != identity@ {
                                let j = choose|j: int| 0 <= j < order2.len() && order2[j] == s;
                                assert(j < order.len());
                                assert(order.contains(s));
                                lemma_identity_id_push(order, identity@, s);
                            }
                        }
                    }
                    next
                },
            };
            assert(id == identity_id(order2, identity@));
            let folder = trim(row_cell(&rows[i], 0));
            let segments = split_segments(folder);
            let ghost before_trie = root;
            root.insert(&segments, 0, id);
            proof {
                let segs = strings_view(segments@).skip(0);
                assert(segs =~= path_segments(row_folder(row)));
                assert(ks2[ks.len() as int] == row);
                assert forall|q: Seq<Seq<char>>| #[trigger] root.has_node(q) == (q.len() == 0 || reaches_folder(ks2, q)) by {
                    if reaches_folder(ks2, q) {
                        let k = choose|k: int| 0 <= k < ks2.len() && is_prefix(q, path_segments(row_folder(ks2[k])));
                        if k < ks.len() {
                            assert(ks2[k] == ks[k]);
                        }
                    }
                    if reaches_folder(ks, q) {
                        let k = choose|k: int| 0 <= k < ks.len() && is_prefix(q, path_segments(row_folder(ks[k])));
                        assert(ks2[k] == ks[k]);
                    }
                }
                assert forall|q: Seq<Seq<char>>| #[trigger] root.ids_at(q) == ids_below(ks2, q) by {
                    assert forall|x: u32| #[trigger] ids_below(ks2, q).contains(x) == root.ids_at(q).contains(x) by {
                        if ids_below(ks2, q).contains(x) {
                            let k = choose|k: int|
                                0 <= k < ks2.len() && is_prefix(q, path_segments(row_folder(ks2[k])))
                                    && x == identity_id(order2, row_identity(ks2[k]));
                            if k < ks.len() {
                                assert(ks2[k] == ks[k]);
                                assert(ks.map_values(|x: Seq<Seq<char>>| row_identity(x))[k] == row_identity(ks[k]));
                                assert(order.contains(row_identity(ks[k])));
                                if !order.contains(identity@) {
                                    lemma_identity_id_push(order, identity@, row_identity(ks[k]));
                                }
                                assert(ids_below(ks, q).contains(x));
                            }
                        }
                        if ids_below(ks, q).contains(x) {
                            let k = choose|k: int|
                                0 <= k < ks.len() && is_prefix(q, path_segments(row_folder(ks[k])))
                                    && x == identity_id(order, row_identity(ks[k]));
                            assert(ks2[k] == ks[k]);
                            assert(ks.map_values(|x: Seq<Seq<char>>| row_identity(x))[k] == row_identity(ks[k]));
                            assert(order.contains(row_identity(ks[k])));
                            if !order.contains(identity@) {
                                lemma_identity_id_push(order, identity@, row_identity(ks[k]));
                            }
                            assert(ids_below(ks2, q).contains(x));
                        }
                        if is_prefix(q, segs) && x == id {
                            assert(ids_below(ks2, q).contains(x));
                        }
                    }
                    assert(root.ids_at(q) =~= ids_below(ks2, q));
                }
            }
        }
        i = i + 1;
    }
    proof {
        assert(all.take(rows@.len() as int) =~= all);
    }
    let total = ids.len();
    (root, total)
}

/// The field separator of an export, `|`.
pub const DELIMITER: u8 = 0x7c;

/// The rows of an export as `csv` reads them: `|`-separated, with a header
/// row, and any number of fields per row.
pub open spec fn export_rows(content: Seq<u8>) -> Option<Seq<Seq<Seq<char>>>> {
    csv_rows(content, DELIMITER, true, true)
}

/// What `csv` reads from `content` with the given delimiter, header row
/// setting and flexibility (every other setting at its default): the fields
/// of each record in order, or `None` when it reports an error.
pub uninterp spec fn csv_rows(content: Seq<u8>, delimiter: u8, has_headers: bool, flexible: bool) -> Option<Seq<Seq<Seq<char>>>>;

#[verifier::external_type_specification]
#[verifier::external_body]
pub struct ExCsvError(csv::Error);

/// Trusted: reads all records of `content` through `csv::ReaderBuilder`
/// (`delimiter`, `has_headers`, `flexible`, then `from_reader` and
/// `records`), stopping at the first error. The contract only names the
/// outcome: the rows are what `csv_rows` gives, and an error comes exactly
/// when `csv_rows` is `None`. Nothing is said of which error it is.
#[verifier::external_body]
fn read_csv_rows(content: &[u8], delimiter: u8, has_headers: bool, flexible: bool) -> (r: Result<Vec<Vec<String>>, csv::Error>)
    ensures
        match r {
            Ok(rows) => csv_rows(content@, delimiter, has_headers, flexible) == Some(rows_view(rows@)),
            Err(_) => csv_rows(content@, delimiter, has_headers, flexible) is None,
        },
{
    let mut reader = csv::ReaderBuilder::new().delimiter(delimiter).has_headers(has_headers).flexible(
        flexible,
    ).from_reader(content);
    reader.records().map(|rec| rec.map(|row| row.iter().map(|f| f.to_string()).collect())).collect()
}

/// Trusted: the `Display` text of a `csv::Error`. Nothing is stated of it.
#[verifier::external_body]
fn csv_error_text(e: &csv::Error) -> String {
    e.to_string()
}

/// The rows of a pipe-delimited export with a header row; rows may have
/// any number of fields.
pub fn parse_rows(content: &[u8]) -> (r: Result<Vec<Vec<String>>, String>)
    ensures
        match r {
            Ok(rows) => export_rows(content@) == Some(rows_view(rows@)),
            Err(m) => {
                &&& export_rows(content@) is None
                &&& "CSV parse error: "@.is_prefix_of(m@)
            },
        },
{
    match read_csv_rows(content, DELIMITER, true, true) {
        Ok(rows) => Ok(rows),
        Err(e) => {
            let prefix = "CSV parse error: ";
            let mut m = prefix.to_owned();
            m.append(csv_error_text(&e).as_str());
            proof {
                reveal_strlit("CSV parse error: ");
                assert(m@.subrange(0, prefix@.len() as int) =~= prefix@);
            }
            Err(m)
        },
    }
}

/// First pass over the data for the automatic split: the trie of every
/// kept row's folder path, and the number of distinct identities.
pub fn build_split_trie(content: &[u8], excluded: &Vec<String>) -> (r: Result<(SplitTrieNode, usize), String>)
    ensures
        match r {
            Ok((trie, total)) => exists|rows: Seq<Seq<Seq<char>>>|
                {
                    &&& export_rows(content@) == Some(rows)
                    &&& is_split_trie_of(trie, total as nat, kept_rows(rows, strings_view(excluded@)))
                },
            Err(m) => {
                &&& export_rows(content@) is None
                &&& "CSV parse error: "@.is_prefix_of(m@)
            },
        },
{
    match parse_rows(content) {
        Ok(rows) => Ok(split_trie_of_rows(&rows, excluded)),
        Err(m) => Err(m),
    }
}

/// Whether `folder` and `other` split `path` as the loader does: after the
/// `depth`-th backslash, or automatically with `depth` as the floor for a
/// trie described by `has` and `universal`.
pub open spec fn is_folder_split(
    path: Seq<char>,
    depth: nat,
    auto: bool,
    has: spec_fn(Seq<Seq<char>>) -> bool,
    universal: spec_fn(Seq<Seq<char>>) -> bool,
    folder: Seq<char>,
    other: Seq<char>,
) -> bool {
    if auto {
        folder + other == path && is_auto_cut(path, depth, has, universal, folder.len() as int)
    } else {
        is_fixed_split(path, depth, folder, other)
    }
}

/// `rec` is the record the loader makes of `row`: trimmed fields, with the
/// folder path split as `is_folder_split` says.
pub open spec fn is_record_of(
    rec: Record,
    row: Seq<Seq<char>>,
    depth: nat,
    auto: bool,
    has: spec_fn(Seq<Seq<char>>) -> bool,
    universal: spec_fn(Seq<Seq<char>>) -> bool,
) -> bool {
    &&& is_folder_split(row_folder(row), depth, auto, has, universal, rec.folder@, rec.other@)
    &&& rec.identity@ == row_identity(row)
    &&& rec.rights@ == trimmed(cell(row, 2))
    &&& rec.access_control@ == trimmed(cell(row, 3))
    &&& rec.inherited@ == trimmed(cell(row, 4))
}

/// The folder paths present in the trie built from `rows`.
pub open spec fn rows_has_fn(rows: Seq<Seq<Seq<char>>>) -> spec_fn(Seq<Seq<char>>) -> bool {
    |q: Seq<Seq<char>>| q.len() == 0 || reaches_folder(rows, q)
}

/// The folder paths of the trie built from `rows` that are granted to every
/// identity of `rows`.
pub open spec fn rows_universal_fn(rows: Seq<Seq<Seq<char>>>) -> spec_fn(Seq<Seq<char>>) -> bool {
    |q: Seq<Seq<char>>| ids_below(rows, q).len() >= identity_order(rows).len()
}

/// The folder paths of an optional trie (all of them when there is none).
pub open spec fn trie_has_fn(trie: Option<(SplitTrieNode, usize)>) -> spec_fn(Seq<Seq<char>>) -> bool {
    match trie {
        Some((t, _)) => has_fn(t),
        None => |q: Seq<Seq<char>>| true,
    }
}

/// The universal folder paths of an optional trie (all of them when there
/// is none).
pub open spec fn trie_universal_fn(trie: Option<(SplitTrieNode, usize)>) -> spec_fn(Seq<Seq<char>>) -> bool {
    match trie {
        Some((t, n)) => universal_fn(t, n as nat),
        None => |q: Seq<Seq<char>>| true,
    }
}

/// Makes the records of the kept rows, in order.
pub fn records_of_rows(
    rows: &Vec<Vec<String>>,
    excluded: &Vec<String>,
    split_depth: usize,
    trie: &Option<(SplitTrieNode, usize)>,
) -> (r: Vec<Record>)
    requires
        match trie {
            Some((t, _)) => t.wf(),
            None => true,
        },
    ensures
        r@.len() == kept_rows(rows_view(rows@), strings_view(excluded@)).len(),
        forall|k: int|
            0 <= k < r@.len() ==> #[trigger] is_record_of(
                r@[k],
                kept_rows(rows_view(rows@), strings_view(excluded@))[k],
                split_depth as nat,
                trie is Some,
                trie_has_fn(*trie),
                trie_universal_fn(*trie),
            ),
{
    let ghost all = rows_view(rows@);
    let ghost ex = strings_view(excluded@);
    let ghost auto = trie is Some;
    let ghost has = trie_has_fn(*trie);
    let ghost universal = trie_universal_fn(*trie);
    let mut records: Vec<Record> = Vec::new();
    // Far fewer distinct values than rows are expected; this only sizes the
    // pool up front.
    let hint = rows.len() / 20;
    let mut interner = Interner::new(if hint < 64 { 64 } else { hint });
    let mut i: usize = 0;
    proof {
        reveal(Seq::filter);
        assert(all.take(0) =~= Seq::<Seq<Seq<char>>>::empty());
    }
    while i < rows.len()
        invariant
            interner.wf(),
            all == rows_view(rows@),
            ex == strings_view(excluded@),
            auto == trie is Some,
            has == trie_has_fn(*trie),
            universal == trie_universal_fn(*trie),
            match trie {
                Some((t, _)) => t.wf(),
                None => true,
            },
            0 <= i <= rows@.len(),
            records@.len() == kept_rows(all.take(i as int), ex).len(),
            forall|k: int|
                0 <= k < records@.len() ==> #[trigger] is_record_of(
                    records@[k],
                    kept_rows(all.take(i as int), ex)[k],
                    split_depth as nat,
                    auto,
                    has,
                    universal,
                ),
        decreases rows@.len() - i,
    {
        let ghost ks = kept_rows(all.take(i as int), ex);
        let ghost row = all[i as int];
        proof {
            reveal(Seq::filter);
            assert(all.take(i + 1).drop_last() =~= all.take(i as int));
            assert(all.take(i + 1).last() == row);
            assert(row == strings_view(rows@[i as int]@));
        }
        let raw_folder = trim(row_cell(&rows[i], 0));
        let identity_raw = trim(row_cell(&rows[i], 1));
        if contains_string(excluded, identity_raw) {
            assert(kept_rows(all.take(i + 1), ex) == ks);
        } else {
            let identity = interner.intern(identity_raw);
            let rights = interner.intern(trim(row_cell(&rows[i], 2)));
            let access_control = interner.intern(trim(row_cell(&rows[i], 3)));
            let inherited = interner.intern(trim(row_cell(&rows[i], 4)));
            let (folder_raw, other_raw) = match trie {
                Some((t, total)) => auto_split_folder(raw_folder, split_depth, t, *total),
                None => split_folder(raw_folder, split_depth),
            };
            let folder = interner.intern(folder_raw);
            let other = interner.intern(other_raw);
            let rec = Record { folder, other, identity, rights, access_control, inherited };
            assert(is_record_of(rec, row, split_depth as nat, auto, has, universal));
            let ghost prev = records@;
            records.push(rec);
            proof {
                let ks2 = kept_rows(all.take(i + 1), ex);
                assert(ks2 == ks.push(row));
                assert forall|k: int|
                    0 <= k < records@.len() implies #[trigger] is_record_of(
                        records@[k],
                        ks2[k],
                        split_depth as nat,
                        auto,
                        has,
                        universal,
                    ) by {
                    if k < prev.len() {
                        assert(records@[k] == prev[k]);
                        assert(ks2[k] == ks[k]);
                    }
                }
            }
        }
        i = i + 1;
    }
    proof {
        assert(all.take(rows@.len() as int) =~= all);
    }
    records
}

/// The positions, in increasing order, at which `k` occurs in `keys`.
pub open spec fn positions(keys: Seq<Seq<char>>, k: Seq<char>) -> Seq<usize>
    decreases keys.len(),
{
    if keys.len() == 0 {
        Seq::empty()
    } else {
        let prev = positions(keys.drop_last(), k);
        if keys.last() == k {
            prev.push((keys.len() - 1) as usize)
        } else {
            prev
        }
    }
}

/// A key that does not occur has no positions.
pub proof fn lemma_positions_absent(keys: Seq<Seq<char>>, k: Seq<char>)
    requires
        !keys.contains(k),
    ensures
        positions(keys, k) == Seq::<usize>::empty(),
    decreases keys.len(),
{
    if keys.len() > 0 {
        assert(keys[keys.len() - 1] != k);
        assert forall|j: int| 0 <= j < keys.drop_last().len() implies keys.drop_last()[j] != k by {
            assert(keys[j] == keys.drop_last()[j]);
        }
        lemma_positions_absent(keys.drop_last(), k);
    }
}

/// `idx` indexes `keys`: for each distinct non-empty key, in key order, the
/// positions at which it occurs, and no other entry.
pub open spec fn is_index_of(idx: Seq<(String, Vec<usize>)>, keys: Seq<Seq<char>>) -> bool {
    &&& sorted(idx)
    &&& forall|k: Seq<char>| #[trigger] has_key(idx, k) == (k.len() > 0 && keys.contains(k))
    &&& forall|j: int| 0 <= j < idx.len() ==> (#[trigger] idx[j]).1@ == positions(keys, key(idx, j))
    &&& forall|j: int, t: int| 0 <= j < idx.len() && 0 <= t < idx[j].1@.len() ==> #[trigger] idx[j].1@[t] < keys.len()
}

/// Column `col` of every record.
pub open spec fn column_keys(records: Seq<Record>, col: int) -> Seq<Seq<char>> {
    Seq::new(records.len(), |i: int| records[i].column(col))
}

/// `slots` groups `keys`, in any order: one slot for each distinct
/// non-empty key, holding the positions at which that key occurs.
pub open spec fn is_grouping_of(slots: Seq<(String, Vec<usize>)>, keys: Seq<Seq<char>>) -> bool {
    &&& forall|a: int, b: int|
        #![trigger key(slots, a), key(slots, b)]
        0 <= a < b < slots.len() ==> key(slots, a) != key(slots, b)
    &&& forall|k: Seq<char>| #[trigger] has_key(slots, k) == (k.len() > 0 && keys.contains(k))
    &&& forall|j: int| 0 <= j < slots.len() ==> (#[trigger] slots[j]).1@ == positions(keys, key(slots, j))
    &&& forall|j: int, t: int| 0 <= j < slots.len() && 0 <= t < slots[j].1@.len() ==> #[trigger] slots[j].1@[t] < keys.len()
}

/// A grouping put in key order is the index of the keys.
proof fn lemma_sorted_grouping_is_index(
    u: Seq<(String, Vec<usize>)>,
    s: Seq<(String, Vec<usize>)>,
    keys: Seq<Seq<char>>,
)
    requires
        is_grouping_of(u, keys),
        s.to_multiset() == u.to_multiset(),
        forall|i: int, j: int| 0 <= i < j < s.len() ==> order_of(s[i].0@, s[j].0@) != Order::Greater,
    ensures
        is_index_of(s, keys),
{
    broadcast use vstd::seq_lib::group_to_multiset_ensures;
    assert forall|a: int, b: int| 0 <= a < u.len() && 0 <= b < u.len() && a != b implies u[a] != u[b] by {
        if a < b {
            assert(key(u, a) != key(u, b));
        } else {
            assert(key(u, b) != key(u, a));
        }
    }
    assert(u.no_duplicates());
    u.lemma_multiset_has_no_duplicates();
    s.lemma_multiset_has_no_duplicates_conv();
    // Each entry of `s` is an entry of `u`.
    assert forall|a: int| 0 <= a < s.len() implies u.contains(#[trigger] s[a]) by {
        assert(s.to_multiset().count(s[a]) > 0);
    }
    assert forall|i: int, j: int| 0 <= i < j < s.len() implies #[trigger] chars_less(key(s, i), key(s, j)) by {
        let p = choose|p: int| 0 <= p < u.len() && u[p] == s[i];
        let q = choose|q: int| 0 <= q < u.len() && u[q] == s[j];
        if key(s, i) == key(s, j) {
            if p < q {
                assert(key(u, p) != key(u, q));
            } else if q < p {
                assert(key(u, q) != key(u, p));
            }
            assert(s[i] == s[j]);
        }
        assert(order_of(s[i].0@, s[j].0@) != Order::Greater);
    }
    assert forall|k: Seq<char>| #[trigger] has_key(s, k) == (k.len() > 0 && keys.contains(k)) by {
        if has_key(s, k) {
            let a = choose|a: int| 0 <= a < s.len() && key(s, a) == k;
            let p = choose|p: int| 0 <= p < u.len() && u[p] == s[a];
            assert(key(u, p) == k);
        }
        if has_key(u, k) {
            let p = choose|p: int| 0 <= p < u.len() && key(u, p) == k;
            assert(u.to_multiset().count(u[p]) > 0);
            assert(s.contains(u[p]));
            let a = choose|a: int| 0 <= a < s.len() && s[a] == u[p];
            assert(key(s, a) == k);
        }
    }
    assert forall|j: int| 0 <= j < s.len() implies (#[trigger] s[j]).1@ == positions(keys, key(s, j)) by {
        let p = choose|p: int| 0 <= p < u.len() && u[p] == s[j];
        assert(u[p].1@ == positions(keys, key(u, p)));
    }
    assert forall|j: int, t: int| 0 <= j < s.len() && 0 <= t < s[j].1@.len() implies #[trigger] s[j].1@[t] < keys.len() by {
        let p = choose|p: int| 0 <= p < u.len() && u[p] == s[j];
        assert(u[p].1@[t] < keys.len());
    }
}

/// Indexes the records by column `col`, skipping empty values. The records
/// are grouped by value in the order the values first occur, then the
/// groups are put in value order.
pub fn build_index(records: &Vec<Record>, col: usize) -> (idx: StrMap<Vec<usize>>)
    ensures
        is_index_of(idx.entries@, column_keys(records@, col as int)),
{
    let ghost all = column_keys(records@, col as int);
    let mut slots: Vec<(String, Vec<usize>)> = Vec::new();
    let mut slot_of: StringHashMap<usize> = StringHashMap::new();
    let mut i: usize = 0;
    proof {
        assert forall|k: Seq<char>| #[trigger] has_key(slots@, k) == (k.len() > 0 && all.take(0).contains(k)) by {
            assert(all.take(0) =~= Seq::<Seq<char>>::empty());
        }
    }
    while i < records.len()
        invariant
            all == column_keys(records@, col as int),
            0 <= i <= records@.len(),
            is_grouping_of(slots@, all.take(i as int)),
            forall|k: Seq<char>| #[trigger] slot_of@.contains_key(k) == has_key(slots@, k),
            forall|k: Seq<char>|
                #[trigger] slot_of@.contains_key(k) ==> slot_of@[k] < slots@.len() && key(slots@, slot_of@[k] as int) == k,
        decreases records@.len() - i,
    {
        let k = records[i].field(col);
        let ghost before = slots@;
        let ghost pre = all.take(i as int);
        let ghost post = all.take(i + 1);
        proof {
            assert(post.drop_last() =~= pre);
            assert(post.last() == k@);
            assert(post.len() - 1 == i);
            assert forall|q: Seq<char>| #[trigger] positions(post, q) == if q == k@ {
                positions(pre, q).push(i)
            } else {
                positions(pre, q)
            } by {}
            assert forall|q: Seq<char>| #[trigger] post.contains(q) == (pre.contains(q) || q == k@) by {
                if post.contains(q) {
                    let j = choose|j: int| 0 <= j < post.len() && post[j] == q;
                    if j < i {
                        assert(pre[j] == q);
                    }
                }
                if pre.contains(q) {
                    let j = choose|j: int| 0 <= j < pre.len() && pre[j] == q;
                    assert(post[j] == q);
                }
                if q == k@ {
                    assert(post[i as int] == q);
                }
            }
        }
        if !k.is_empty() {
            match slot_of.get(k) {
                Some(j) => {
                    let j = *j;
                    let slot = &mut slots[j].1;
                    slot.push(i);
                    proof {
                        assert(slots@ == before.update(j as int, (before[j as int].0, slots@[j as int].1)));
                        assert forall|a: int| 0 <= a < slots@.len() implies #[trigger] key(slots@, a) == key(before, a) by {}
                        assert forall|q: Seq<char>| #[trigger] has_key(slots@, q) == has_key(before, q) by {
                            if has_key(slots@, q) {
                                let t = choose|t: int| 0 <= t < slots@.len() && key(slots@, t) == q;
                                assert(key(before, t) == q);
                            }
                            if has_key(before, q) {
                                let t = choose|t: int| 0 <= t < before.len() && key(before, t) == q;
                                assert(key(slots@, t) == q);
                            }
                        }
                        assert forall|a: int| 0 <= a < slots@.len() implies (#[trigger] slots@[a]).1@ == positions(post, key(slots@, a)) by {
                            if a != j {
                                if a < j {
                                    assert(key(before, a) != key(before, j as int));
                                } else {
                                    assert(key(before, j as int) != key(before, a));
                                }
                                assert(slots@[a] == before[a]);
                            } else {
                                assert(slots@[a].1@ == before[a].1@.push(i));
                            }
                        }
                        assert forall|a: int, t: int| 0 <= a < slots@.len() && 0 <= t < slots@[a].1@.len() implies #[trigger] slots@[a].1@[t] < post.len() by {
                            if a != j {
                                assert(slots@[a] == before[a]);
                            } else if t < before[a].1@.len() {
                                assert(slots@[a].1@[t] == before[a].1@[t]);
                            }
                        }
                    }
                },
                None => {
                    let mut v: Vec<usize> = Vec::new();
                    v.push(i);
                    proof {
                        assert(!has_key(before, k@));
                        assert(!pre.contains(k@));
                        lemma_positions_absent(pre, k@);
                        assert(v@ =~= positions(post, k@));
                    }
                    let n = slots.len();
                    slot_of.insert(k.to_owned(), n);
                    slots.push((k.to_owned(), v));
                    proof {
                        assert(key(slots@, n as int) == k@);
                        assert forall|a: int| 0 <= a < n implies #[trigger] key(slots@, a) == key(before, a) by {
                            assert(slots@[a] == before[a]);
                        }
                        assert forall|q: Seq<char>| #[trigger] has_key(slots@, q) == (has_key(before, q) || q == k@) by {
                            if has_key(slots@, q) {
                                let t = choose|t: int| 0 <= t < slots@.len() && key(slots@, t) == q;
                                if t < n {
                                    assert(key(before, t) == q);
                                }
                            }
                            if has_key(before, q) {
                                let t = choose|t: int| 0 <= t < before.len() && key(before, t) == q;
                                assert(key(slots@, t) == q);
                            }
                        }
                        assert forall|a: int, b: int|
                            #![trigger key(slots@, a), key(slots@, b)]
                            0 <= a < b < slots@.len() implies key(slots@, a) != key(slots@, b) by {
                            if b == n {
                                assert(key(slots@, a) == key(before, a));
                            } else {
                                assert(key(before, a) != key(before, b));
                            }
                        }
                        assert forall|a: int| 0 <= a < slots@.len() implies (#[trigger] slots@[a]).1@ == positions(post, key(slots@, a)) by {
                            if a < n {
                                assert(slots@[a] == before[a]);
                                assert(key(before, a) != k@);
                            }
                        }
                        assert forall|a: int, t: int| 0 <= a < slots@.len() && 0 <= t < slots@[a].1@.len() implies #[trigger] slots@[a].1@[t] < post.len() by {
                            if a < n {
                                assert(slots@[a] == before[a]);
                            }
                        }
                        assert forall|q: Seq<char>|
                            #[trigger] slot_of@.contains_key(q) implies slot_of@[q] < slots@.len() && key(slots@, slot_of@[q] as int) == q by {
                            if q != k@ {
                                assert(key(before, slot_of@[q] as int) == q);
                            }
                        }
                    }
                },
            }
        } else {
            proof {
                assert(k@.len() == 0);
                assert forall|a: int| 0 <= a < slots@.len() implies (#[trigger] slots@[a]).1@ == positions(post, key(slots@, a)) by {
                    let q = key(slots@, a);
                    assert(has_key(slots@, q));
                    assert(q.len() > 0);
                    assert(q != k@);
                }
            }
        }
        i = i + 1;
    }
    proof {
        assert(all.take(records@.len() as int) =~= all);
    }
    let ghost grouped = slots@;
    sort_entries(&mut slots);
    proof {
        lemma_sorted_grouping_is_index(grouped, slots@, all);
    }
    StrMap { entries: slots }
}

/// The keys of an index, in order.
pub fn index_keys(idx: &StrMap<Vec<usize>>) -> (r: Vec<String>)
    ensures
        strings_view(r@) == keys(idx.entries@),
{
    let mut out: Vec<String> = Vec::new();
    let mut i: usize = 0;
    while i < idx.entries.len()
        invariant
            0 <= i <= idx.entries@.len(),
            strings_view(out@) == keys(idx.entries@).take(i as int),
        decreases idx.entries@.len() - i,
    {
        let ghost before = out@;
        out.push(idx.entries[i].0.clone());
        assert(strings_view(out@) =~= strings_view(before).push(key(idx.entries@, i as int)));
        assert(keys(idx.entries@).take(i + 1) =~= keys(idx.entries@).take(i as int).push(key(idx.entries@, i as int)));
        i = i + 1;
    }
    assert(keys(idx.entries@).take(i as int) =~= keys(idx.entries@));
    out
}

/// Everything the viewer needs after a load: the records, an index of the
/// records by folder, by identity and by the part of the path below the
/// folder, and the sorted distinct values of each.
pub struct LoadedData {
    pub records: Vec<Record>,
    pub folder_index: StrMap<Vec<usize>>,
    pub identity_index: StrMap<Vec<usize>>,
    pub other_index: StrMap<Vec<usize>>,
    pub unique_folders: Vec<String>,
    pub unique_identities: Vec<String>,
    pub unique_others: Vec<String>,
}

impl LoadedData {
    /// The indexes and lists agree with the records.
    pub open spec fn wf(&self) -> bool {
        &&& is_index_of(self.folder_index.entries@, column_keys(self.records@, 0))
        &&& is_index_of(self.identity_index.entries@, column_keys(self.records@, 2))
        &&& is_index_of(self.other_index.entries@, column_keys(self.records@, 1))
        &&& strings_view(self.unique_folders@) == keys(self.folder_index.entries@)
        &&& strings_view(self.unique_identities@) == keys(self.identity_index.entries@)
        &&& strings_view(self.unique_others@) == keys(self.other_index.entries@)
    }
}

/// Indexes the records by folder, identity and `other`, and lists the
/// distinct values of each in sorted order.
pub fn index_records(records: Vec<Record>) -> (d: LoadedData)
    ensures
        d.records@ == records@,
        d.wf(),
{
    let folder_index = build_index(&records, 0);
    let identity_index = build_index(&records, 2);
    let other_index = build_index(&records, 1);
    let unique_folders = index_keys(&folder_index);
    let unique_identities = index_keys(&identity_index);
    let unique_others = index_keys(&other_index);
    LoadedData {
        records,
        folder_index,
        identity_index,
        other_index,
        unique_folders,
        unique_identities,
        unique_others,
    }
}

/// Parses and indexes an export. Rows whose identity is one of `excluded`
/// are dropped. The folder path of each row is split after the
/// `split_depth`-th backslash, or, with `auto_split`, automatically with
/// `split_depth` as the floor, over the trie of all kept rows.
pub fn parse_and_index(content: &[u8], excluded: &Vec<String>, split_depth: usize, auto_split: bool) -> (r: Result<LoadedData, String>)
    ensures
        match r {
            Ok(d) => {
                let kept = kept_rows(export_rows(content@).unwrap(), strings_view(excluded@));
                &&& export_rows(content@) is Some
                &&& d.wf()
                &&& d.records@.len() == kept.len()
                &&& forall|k: int|
                    0 <= k < d.records@.len() ==> #[trigger] is_record_of(
                        d.records@[k],
                        kept[k],
                        split_depth as nat,
                        auto_split,
                        rows_has_fn(kept),
                        rows_universal_fn(kept),
                    )
            },
            Err(m) => {
                &&& export_rows(content@) is None
                &&& "CSV parse error: "@.is_prefix_of(m@)
            },
        },
{
    let trie = if auto_split {
        match build_split_trie(content, excluded) {
            Ok(t) => Some(t),
            Err(m) => {
                return Err(m);
            },
        }
    } else {
        None
    };
    let rows = match parse_rows(content) {
        Ok(rows) => rows,
        Err(m) => {
            return Err(m);
        },
    };
    let ghost ks = kept_rows(rows_view(rows@), strings_view(excluded@));
    let ghost tg = trie;
    proof {
        match tg {
            Some((t, n)) => {
                assert(is_split_trie_of(t, n as nat, ks));
                assert(t.wf());
            },
            None => {},
        }
    }
    let records = records_of_rows(&rows, excluded, split_depth, &trie);
    proof {
        match tg {
            Some((t, n)) => {
                assert(has_fn(t) =~= rows_has_fn(ks));
                assert(universal_fn(t, n as nat) =~= rows_universal_fn(ks));
            },
            None => {},
        }
        assert forall|k: int|
            0 <= k < records@.len() implies #[trigger] is_record_of(
                records@[k],
                ks[k],
                split_depth as nat,
                auto_split,
                rows_has_fn(ks),
                rows_universal_fn(ks),
            ) by {
            assert(is_record_of(records@[k], ks[k], split_depth as nat, tg is Some, trie_has_fn(tg), trie_universal_fn(tg)));
        }
    }
    Ok(index_records(records))
}

/// The identities with a row filed at or below the folder path `q`.
pub open spec fn identities_below(rows: Seq<Seq<Seq<char>>>, q: Seq<Seq<char>>) -> Set<Seq<char>> {
    Set::new(
        |s: Seq<char>|
            exists|k: int|
                0 <= k < rows.len() && is_prefix(q, path_segments(row_folder(rows[k])))
                    && row_identity(rows[k]) == s,
    )
}

/// Every identity of `rows` occurs in their identity order.
proof fn lemma_identity_order_contains(rows: Seq<Seq<Seq<char>>>, k: int)
    requires
        0 <= k < rows.len(),
    ensures
        identity_order(rows).contains(row_identity(rows[k])),
{
    let ids = rows.map_values(|r: Seq<Seq<char>>| row_identity(r));
    lemma_first_seen(ids);
    assert(ids[k] == row_identity(rows[k]));
    assert(ids.contains(row_identity(rows[k])));
}

/// A folder counts as granted to every identity (its trie node holds as
/// many ids as there are identities) exactly when every identity in the
/// data has a grant at or below it. Ids are `u32`s, so this holds while
/// there are at most 2^32 distinct identities.
pub proof fn lemma_universal_iff_every_identity(rows: Seq<Seq<Seq<char>>>, q: Seq<Seq<char>>)
    requires
        identity_order(rows).len() <= 0x1_0000_0000,
    ensures
        (rows_universal_fn(rows))(q) <==> (forall|k: int|
            0 <= k < rows.len() ==> #[trigger] identities_below(rows, q).contains(row_identity(rows[k]))),
{
    let order = identity_order(rows);
    let n = order.len();
    let ids = rows.map_values(|r: Seq<Seq<char>>| row_identity(r));
    lemma_first_seen(ids);
    let all = order.to_set();
    order.unique_seq_to_set();
    let below = identities_below(rows, q);
    let f = |s: Seq<char>| identity_id(order, s);
    assert(below.subset_of(all)) by {
        assert forall|s: Seq<char>| below.contains(s) implies all.contains(s) by {
            let k = choose|k: int|
                0 <= k < rows.len() && is_prefix(q, path_segments(row_folder(rows[k])))
                    && row_identity(rows[k]) == s;
            lemma_identity_order_contains(rows, k);
        }
    }
    vstd::set_lib::lemma_len_subset(below, all);
    assert(vstd::relations::injective_on(f, below)) by {
        assert forall|a: Seq<char>, b: Seq<char>|
            below.contains(a) && below.contains(b) && #[trigger] f(a) == #[trigger] f(b) implies a == b by {
            let i = choose|i: int| 0 <= i < order.len() && order[i] == a;
            let j = choose|j: int| 0 <= j < order.len() && order[j] == b;
            lemma_identity_id(order, i);
            lemma_identity_id(order, j);
        }
    }
    assert(below.map(f) =~= ids_below(rows, q)) by {
        assert forall|x: u32| #[trigger] below.map(f).contains(x) == ids_below(rows, q).contains(x) by {
            if below.map(f).contains(x) {
                let s = choose|s: Seq<char>| below.contains(s) && x == f(s);
                let k = choose|k: int|
                    0 <= k < rows.len() && is_prefix(q, path_segments(row_folder(rows[k])))
                        && row_identity(rows[k]) == s;
                assert(ids_below(rows, q).contains(x));
            }
            if ids_below(rows, q).contains(x) {
                let k = choose|k: int|
                    0 <= k < rows.len() && is_prefix(q, path_segments(row_folder(rows[k])))
                        && x == identity_id(order, row_identity(rows[k]));
                assert(below.contains(row_identity(rows[k])));
                assert(below.map(f).contains(x));
            }
        }
    }
    vstd::set_lib::lemma_map_size(below, ids_below(rows, q), f);
    if (rows_universal_fn(rows))(q) {
        vstd::set_lib::lemma_subset_equality(below, all);
        assert forall|k: int| 0 <= k < rows.len() implies #[trigger] below.contains(row_identity(rows[k])) by {
            lemma_identity_order_contains(rows, k);
        }
    }
    if forall|k: int| 0 <= k < rows.len() ==> #[trigger] below.contains(row_identity(rows[k])) {
        assert(all.subset_of(below)) by {
            assert forall|s: Seq<char>| all.contains(s) implies below.contains(s) by {
                assert(ids.contains(s));
                let k = choose|k: int| 0 <= k < ids.len() && ids[k] == s;
                assert(row_identity(rows[k]) == s);
            }
        }
        assert(below =~= all);
    }
}

/// No record is made of a row whose identity is excluded.
pub proof fn lemma_excluded_rows_dropped(rows: Seq<Seq<Seq<char>>>, excluded: Seq<Seq<char>>, k: int)
    requires
        0 <= k < kept_rows(rows, excluded).len(),
    ensures
        !excluded.contains(row_identity(kept_rows(rows, excluded)[k])),
{
    broadcast use vstd::seq_lib::group_filter_ensures;
    let pred = |r: Seq<Seq<char>>| !excluded.contains(row_identity(r));
    assert(pred(rows.filter(pred)[k]));
}

/// With the automatic split, the split depth is a floor: for every record,
/// the folder the fixed split would give is a prefix of the record's
/// folder.
pub proof fn lemma_auto_split_floor(
    rows: Seq<Seq<Seq<char>>>,
    k: int,
    rec: Record,
    depth: nat,
    fixed_folder: Seq<char>,
    fixed_other: Seq<char>,
)
    requires
        0 <= k < rows.len(),
        is_record_of(rec, rows[k], depth, true, rows_has_fn(rows), rows_universal_fn(rows)),
        is_fixed_split(row_folder(rows[k]), depth, fixed_folder, fixed_other),
    ensures
        fixed_folder.len() <= rec.folder@.len(),
        rec.folder@.take(fixed_folder.len() as int) == fixed_folder,
{
    let path = row_folder(rows[k]);
    lemma_auto_split_extends_fixed(
        path,
        depth,
        rows_has_fn(rows),
        rows_universal_fn(rows),
        rec.folder@.len() as int,
        fixed_folder,
        fixed_other,
    );
    assert(rec.folder@ =~= path.take(rec.folder@.len() as int));
    assert(rec.folder@.take(fixed_folder.len() as int) =~= path.take(fixed_folder.len() as int));
}

} // verus!

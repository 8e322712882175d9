//! Maps keyed by strings, kept as vectors of `(key, value)` entries in
//! strictly increasing key order (the order `BTreeMap<String, _>` iterates
//! in).
use vstd::prelude::*;

use crate::text::{
    chars_less, chars_of, compare_chars, lemma_less_irreflexive, lemma_less_total,
    lemma_less_trans, Order,
};

verus! {

/// The key of entry `i`.
pub open spec fn key<V>(e: Seq<(String, V)>, i: int) -> Seq<char> {
    e[i].0@
}

/// All keys in entry order.
pub open spec fn keys<V>(e: Seq<(String, V)>) -> Seq<Seq<char>> {
    Seq::new(e.len(), |i: int| key(e, i))
}

/// Keys strictly increase: no key occurs twice.
pub open spec fn sorted<V>(e: Seq<(String, V)>) -> bool {
    forall|i: int, j: int| 0 <= i < j < e.len() ==> #[trigger] chars_less(key(e, i), key(e, j))
}

/// Some entry has key `k`.
pub open spec fn has_key<V>(e: Seq<(String, V)>, k: Seq<char>) -> bool {
    exists|i: int| 0 <= i < e.len() && key(e, i) == k
}

/// The value stored under `k`, if any.
pub open spec fn lookup<V>(e: Seq<(String, V)>, k: Seq<char>) -> Option<V> {
    if has_key(e, k) {
        Some(e[choose|i: int| 0 <= i < e.len() && key(e, i) == k].1)
    } else {
        None
    }
}

/// In sorted entries, the entry with a given key is the one `lookup` finds.
pub proof fn lemma_lookup_index<V>(e: Seq<(String, V)>, i: int)
    requires
        sorted(e),
        0 <= i < e.len(),
    ensures
        has_key(e, key(e, i)),
        lookup(e, key(e, i)) == Some(e[i].1),
{
    let k = key(e, i);
    let j = choose|j: int| 0 <= j < e.len() && key(e, j) == k;
    if j != i {
        lemma_less_irreflexive(k);
        if j < i {
            assert(chars_less(key(e, j), key(e, i)));
        } else {
            assert(chars_less(key(e, i), key(e, j)));
        }
    }
}

/// Replacing the value of entry `i` changes the lookup of its key only.
pub proof fn lemma_lookup_update<V>(e: Seq<(String, V)>, i: int, v: V)
    requires
        sorted(e),
        0 <= i < e.len(),
    ensures
        sorted(e.update(i, (e[i].0, v))),
        forall|k: Seq<char>| #[trigger]
            lookup(e.update(i, (e[i].0, v)), k) == if k == key(e, i) {
                Some(v)
            } else {
                lookup(e, k)
            },
{
    let e2 = e.update(i, (e[i].0, v));
    assert(keys(e2) =~= keys(e));
    assert forall|a: int, b: int| 0 <= a < b < e2.len() implies #[trigger] chars_less(
        key(e2, a),
        key(e2, b),
    ) by {
        assert(key(e2, a) == key(e, a));
        assert(key(e2, b) == key(e, b));
    }
    assert forall|k: Seq<char>| #[trigger]
        lookup(e2, k) == if k == key(e, i) {
            Some(v)
        } else {
            lookup(e, k)
        } by {
        if k == key(e, i) {
            lemma_lookup_index(e2, i);
        } else {
            if has_key(e, k) {
                let j = choose|j: int| 0 <= j < e.len() && key(e, j) == k;
                lemma_lookup_index(e, j);
                lemma_lookup_index(e2, j);
                assert(key(e2, j) == k);
            }
            if has_key(e2, k) {
                let j = choose|j: int| 0 <= j < e2.len() && key(e2, j) == k;
                assert(key(e, j) == k);
            }
        }
    }
}

/// Inserting an entry for a new key changes the lookup of that key only.
pub proof fn lemma_lookup_insert<V>(e: Seq<(String, V)>, i: int, kv: (String, V))
    requires
        0 <= i <= e.len(),
        sorted(e),
        sorted(e.insert(i, kv)),
        !has_key(e, kv.0@),
    ensures
        forall|k: Seq<char>| #[trigger]
            lookup(e.insert(i, kv), k) == if k == kv.0@ {
                Some(kv.1)
            } else {
                lookup(e, k)
            },
{
    let e2 = e.insert(i, kv);
    assert(e2.len() == e.len() + 1);
    assert forall|k: Seq<char>| #[trigger]
        lookup(e2, k) == if k == kv.0@ {
            Some(kv.1)
        } else {
            lookup(e, k)
        } by {
        if k == kv.0@ {
            assert(e2[i] == kv);
            lemma_lookup_index(e2, i);
        } else if has_key(e, k) {
            let j = choose|j: int| 0 <= j < e.len() && key(e, j) == k;
            lemma_lookup_index(e, j);
            let j2 = if j < i {
                j
            } else {
                j + 1
            };
            assert(e2[j2] == e[j]);
            assert(key(e2, j2) == k);
            lemma_lookup_index(e2, j2);
        } else {
            if has_key(e2, k) {
                let j = choose|j: int| 0 <= j < e2.len() && key(e2, j) == k;
                if j < i {
                    assert(e2[j] == e[j]);
                    assert(key(e, j) == k);
                } else if j > i {
                    assert(e2[j] == e[j - 1]);
                    assert(key(e, j - 1) == k);
                } else {
                    assert(e2[j] == kv);
                }
            }
        }
    }
}

/// Looks `k` up: `Ok(i)` where entry `i` has key `k`, or `Err(i)` where `i`
/// is the position at which `k` would be inserted.
pub fn find_key<V>(e: &Vec<(String, V)>, k: &str) -> (r: Result<usize, usize>)
    requires
        sorted(e@),
    ensures
        match r {
            Ok(i) => i < e@.len() && key(e@, i as int) == k@,
            Err(i) => {
                &&& i <= e@.len()
                &&& !has_key(e@, k@)
                &&& forall|j: int| 0 <= j < i ==> chars_less(#[trigger] key(e@, j), k@)
                &&& forall|j: int| i <= j < e@.len() ==> chars_less(k@, #[trigger] key(e@, j))
            },
        },
{
    let kc = chars_of(k);
    let mut lo: usize = 0;
    let mut hi: usize = e.len();
    while lo < hi
        invariant
            sorted(e@),
            kc@ == k@,
            0 <= lo <= hi <= e@.len(),
            forall|j: int| 0 <= j < lo ==> chars_less(#[trigger] key(e@, j), k@),
            forall|j: int| hi <= j < e@.len() ==> chars_less(k@, #[trigger] key(e@, j)),
        decreases hi - lo,
    {
        let mid = lo + (hi - lo) / 2;
        let mc = chars_of(e[mid].0.as_str());
        match compare_chars(&mc, &kc) {
            Order::Equal => {
                return Ok(mid);
            },
            Order::Less => {
                assert forall|j: int| 0 <= j < mid + 1 implies chars_less(
                    #[trigger] key(e@, j),
                    k@,
                ) by {
                    if j < mid {
                        assert(chars_less(key(e@, j), key(e@, mid as int)));
                        lemma_less_trans(key(e@, j), key(e@, mid as int), k@);
                    }
                }
                lo = mid + 1;
            },
            Order::Greater => {
                proof {
                    lemma_less_total(key(e@, mid as int), k@);
                }
                assert forall|j: int| mid <= j < e@.len() implies chars_less(
                    k@,
                    #[trigger] key(e@, j),
                ) by {
                    if j > mid {
                        assert(chars_less(key(e@, mid as int), key(e@, j)));
                        lemma_less_trans(k@, key(e@, mid as int), key(e@, j));
                    }
                }
                hi = mid;
            },
        }
    }
    proof {
        if has_key(e@, k@) {
            let j = choose|j: int| 0 <= j < e@.len() && key(e@, j) == k@;
            lemma_less_irreflexive(k@);
            if j < lo {
                assert(chars_less(key(e@, j), k@));
            } else {
                assert(chars_less(k@, key(e@, j)));
            }
        }
    }
    Err(lo)
}

/// Inserts a new entry at the position `find_key` reported for its key.
pub fn insert_entry<V>(e: &mut Vec<(String, V)>, i: usize, k: String, v: V)
    requires
        sorted(old(e)@),
        i <= old(e)@.len(),
        forall|j: int| 0 <= j < i ==> chars_less(#[trigger] key(old(e)@, j), k@),
        forall|j: int| i <= j < old(e)@.len() ==> chars_less(k@, #[trigger] key(old(e)@, j)),
    ensures
        final(e)@ == old(e)@.insert(i as int, (k, v)),
        sorted(final(e)@),
        forall|q: Seq<char>| #[trigger]
            lookup(final(e)@, q) == if q == k@ {
                Some(v)
            } else {
                lookup(old(e)@, q)
            },
{
    let ghost kk = k@;
    let ghost kv = (k, v);
    let ghost old_e = e@;
    e.insert(i, (k, v));
    assert forall|a: int, b: int| 0 <= a < b < e@.len() implies #[trigger] chars_less(
        key(e@, a),
        key(e@, b),
    ) by {
        if a < i && b > i {
            assert(key(e@, a) == key(old_e, a));
            assert(key(e@, b) == key(old_e, b - 1));
            lemma_less_trans(key(e@, a), kk, key(e@, b));
        } else if a < i && b < i {
            assert(key(e@, a) == key(old_e, a));
            assert(key(e@, b) == key(old_e, b));
        } else if a > i {
            assert(key(e@, a) == key(old_e, a - 1));
            assert(key(e@, b) == key(old_e, b - 1));
        } else if a == i {
            assert(key(e@, b) == key(old_e, b - 1));
        } else {
            assert(key(e@, a) == key(old_e, a));
        }
    }
    proof {
        if has_key(old_e, kk) {
            let j = choose|j: int| 0 <= j < old_e.len() && key(old_e, j) == kk;
            lemma_less_irreflexive(kk);
        }
        lemma_lookup_insert(old_e, i as int, kv);
    }
}

/// Removes entry `i`.
pub fn remove_entry<V>(e: &mut Vec<(String, V)>, i: usize) -> (r: (String, V))
    requires
        sorted(old(e)@),
        i < old(e)@.len(),
    ensures
        final(e)@ == old(e)@.remove(i as int),
        r == old(e)@[i as int],
        sorted(final(e)@),
        forall|q: Seq<char>| #[trigger]
            lookup(final(e)@, q) == if q == key(old(e)@, i as int) {
                None
            } else {
                lookup(old(e)@, q)
            },
{
    let ghost old_e = e@;
    let r = e.remove(i);
    assert forall|a: int, b: int| 0 <= a < b < e@.len() implies #[trigger] chars_less(
        key(e@, a),
        key(e@, b),
    ) by {
        let oa = if a < i {
            a
        } else {
            a + 1
        };
        let ob = if b < i {
            b
        } else {
            b + 1
        };
        assert(key(e@, a) == key(old_e, oa));
        assert(key(e@, b) == key(old_e, ob));
    }
    proof {
        assert(old_e =~= e@.insert(i as int, r));
        assert forall|q: Seq<char>| #[trigger]
            lookup(e@, q) == if q == key(old_e, i as int) {
                None
            } else {
                lookup(old_e, q)
            } by {
            if q == key(old_e, i as int) {
                if has_key(e@, q) {
                    let j = choose|j: int| 0 <= j < e@.len() && key(e@, j) == q;
                    let oj = if j < i {
                        j
                    } else {
                        j + 1
                    };
                    assert(key(old_e, oj) == q);
                    lemma_less_irreflexive(q);
                    if oj < i {
                        assert(chars_less(key(old_e, oj), key(old_e, i as int)));
                    } else {
                        assert(chars_less(key(old_e, i as int), key(old_e, oj)));
                    }
                }
            } else {
                if has_key(e@, r.0@) {
                    let j = choose|j: int| 0 <= j < e@.len() && key(e@, j) == r.0@;
                    let oj = if j < i {
                        j
                    } else {
                        j + 1
                    };
                    assert(key(old_e, oj) == key(old_e, i as int));
                    lemma_less_irreflexive(r.0@);
                    if oj < i {
                        assert(chars_less(key(old_e, oj), key(old_e, i as int)));
                    } else {
                        assert(chars_less(key(old_e, i as int), key(old_e, oj)));
                    }
                }
                lemma_lookup_insert(e@, i as int, r);
            }
        }
    }
    r
}

/// A string-keyed map kept in key order.
pub struct StrMap<V> {
    pub entries: Vec<(String, V)>,
}

impl<V> StrMap<V> {
    /// The entries, in key order.
    pub open spec fn items(&self) -> Seq<(String, V)> {
        self.entries@
    }

    /// The entries are in strictly increasing key order.
    pub open spec fn wf(&self) -> bool {
        sorted(self.entries@)
    }

    /// The value stored under `k`, if any.
    pub open spec fn get_spec(&self, k: Seq<char>) -> Option<V> {
        lookup(self.entries@, k)
    }

    /// A map with no entries.
    pub fn new() -> (m: Self)
        ensures
            m.items().len() == 0,
            m.wf(),
    {
        StrMap { entries: Vec::new() }
    }

    /// Number of entries.
    pub fn len(&self) -> (n: usize)
        ensures
            n == self.items().len(),
    {
        self.entries.len()
    }

    /// The key of entry `i`.
    pub fn key_at(&self, i: usize) -> (k: &String)
        requires
            i < self.items().len(),
        ensures
            k@ == key(self.items(), i as int),
    {
        &self.entries[i].0
    }

    /// The value of entry `i`.
    pub fn value_at(&self, i: usize) -> (v: &V)
        requires
            i < self.items().len(),
        ensures
            *v == self.items()[i as int].1,
    {
        &self.entries[i].1
    }

    /// The value stored under `k`, if any.
    pub fn get(&self, k: &str) -> (r: Option<&V>)
        requires
            self.wf(),
        ensures
            match r {
                Some(v) => self.get_spec(k@) == Some(*v),
                None => self.get_spec(k@) is None,
            },
    {
        match find_key(&self.entries, k) {
            Ok(i) => {
                proof {
                    lemma_lookup_index(self.entries@, i as int);
                }
                Some(&self.entries[i].1)
            },
            Err(_) => None,
        }
    }
}

} // verus!

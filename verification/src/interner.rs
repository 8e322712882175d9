//! Sharing one allocation among equal field values. Exports repeat the
//! same folder path once per grantee and have only a handful of distinct
//! rights, so every distinct text is stored once and handed out as a
//! shared pointer.
use vstd::prelude::*;
use vstd::hash_map::StringHashMap;
use std::sync::Arc;

verus! {

broadcast use vstd::string::group_string_axioms;

/// Trusted: `Arc::clone`, which hands out another pointer to the same
/// allocation, so the value behind it is the same.
#[verifier::external_body]
fn share(a: &Arc<String>) -> (r: Arc<String>)
    ensures
        r == *a,
{
    Arc::clone(a)
}

/// De-duplicates field values: each distinct text is allocated once, and
/// every later request for the same text gets that same shared value.
pub struct Interner {
    pool: StringHashMap<Arc<String>>,
}

impl View for Interner {
    type V = Map<Seq<char>, Arc<String>>;

    /// The interned values, by their text.
    closed spec fn view(&self) -> Map<Seq<char>, Arc<String>> {
        self.pool@
    }
}

impl Interner {
    /// Every interned value holds the text it is stored under.
    pub closed spec fn wf(&self) -> bool {
        forall|k: Seq<char>| #[trigger] self.pool@.contains_key(k) ==> self.pool@[k]@ == k
    }

    /// An empty interner with room for about `capacity` distinct values.
    pub fn new(capacity: usize) -> (r: Self)
        ensures
            r.wf(),
            r@ == Map::<Seq<char>, Arc<String>>::empty(),
    {
        Interner { pool: StringHashMap::with_capacity(capacity) }
    }

    /// The shared value holding `s`: the one handed out before for the same
    /// text, or a new one, kept for later requests.
    pub fn intern(&mut self, s: &str) -> (r: Arc<String>)
        requires
            old(self).wf(),
        ensures
            final(self).wf(),
            r@ == s@,
            final(self)@.contains_key(s@) && final(self)@[s@] == r,
            old(self)@.contains_key(s@) ==> r == old(self)@[s@] && final(self)@ == old(self)@,
            !old(self)@.contains_key(s@) ==> final(self)@ == old(self)@.insert(s@, r),
    {
        match self.pool.get(s) {
            Some(existing) => share(existing),
            None => {
                let fresh = Arc::new(s.to_owned());
                self.pool.insert(s.to_owned(), share(&fresh));
                fresh
            },
        }
    }
}

} // verus!

//! Records, the folder split, and the permission trees built from records.
use vstd::prelude::*;
use std::sync::Arc;

use crate::text::{backslash_count, chars_of};

verus! {

broadcast use vstd::string::group_string_axioms;

/// One row of an export: the folder path split in two, and the grant.
/// Each field is shared with the other records that hold the same text.
#[derive(Clone, Debug)]
pub struct Record {
    pub folder: Arc<String>,
    pub other: Arc<String>,
    pub identity: Arc<String>,
    pub rights: Arc<String>,
    pub access_control: Arc<String>,
    pub inherited: Arc<String>,
}

impl Record {
    /// Column `col` of the table: Folder, Other, Identity, Rights,
    /// AccessControl, and Inherited for every column from 5 on.
    pub open spec fn column(&self, col: int) -> Seq<char> {
        if col == 0 {
            self.folder@
        } else if col == 1 {
            self.other@
        } else if col == 2 {
            self.identity@
        } else if col == 3 {
            self.rights@
        } else if col == 4 {
            self.access_control@
        } else {
            self.inherited@
        }
    }

    /// The full folder path this record was read from.
    pub open spec fn path_view(&self) -> Seq<char> {
        self.folder@ + self.other@
    }

    /// The text of column `col`.
    pub fn field(&self, col: usize) -> (r: &str)
        ensures
            r@ == self.column(col as int),
    {
        match col {
            0 => self.folder.as_str(),
            1 => self.other.as_str(),
            2 => self.identity.as_str(),
            3 => self.rights.as_str(),
            4 => self.access_control.as_str(),
            _ => self.inherited.as_str(),
        }
    }

    /// Rebuilds the full path: `folder` followed by `other`.
    pub fn full_path(&self) -> (r: String)
        ensures
            r@ == self.path_view(),
    {
        let mut s = self.folder.as_str().to_owned();
        s.append(self.other.as_str());
        s
    }
}

/// The table's columns are, in order, Folder, Other, Identity, Rights,
/// AccessControl and Inherited; every column from 5 on shows Inherited.
pub proof fn lemma_columns(r: Record)
    ensures
        r.column(0) == r.folder@,
        r.column(1) == r.other@,
        r.column(2) == r.identity@,
        r.column(3) == r.rights@,
        r.column(4) == r.access_control@,
        forall|c: int| c >= 5 ==> #[trigger] r.column(c) == r.inherited@,
{
}

/// Whether a split of `path` into `folder` and `other` puts exactly the
/// first `depth` backslashes into `folder`, cutting right after the
/// `depth`-th one (at the start for depth 0), or keeps everything in
/// `folder` when the path has fewer backslashes.
pub open spec fn is_fixed_split(path: Seq<char>, depth: nat, folder: Seq<char>, other: Seq<char>) -> bool {
    &&& folder + other == path
    &&& if depth <= backslash_count(path) {
        &&& (folder.len() == 0 || folder.last() == '\\')
        &&& backslash_count(folder) == depth
    } else {
        other.len() == 0
    }
}

/// Counting one more character adds one to the count if it is a backslash.
pub proof fn lemma_backslash_count_step(s: Seq<char>, i: int)
    requires
        0 <= i < s.len(),
    ensures
        backslash_count(s.take(i + 1)) == backslash_count(s.take(i)) + if s[i] == '\\' {
            1nat
        } else {
            0nat
        },
{
    assert(s.take(i + 1).drop_last() =~= s.take(i));
}

/// Splits `path` right after its `depth`-th backslash: everything up to and
/// including that backslash is the folder, the rest is `other`. With depth
/// 0 the folder is empty; with fewer backslashes than `depth` the folder is
/// the whole path and `other` is empty.
pub fn split_folder<'a>(path: &'a str, depth: usize) -> (r: (&'a str, &'a str))
    ensures
        is_fixed_split(path@, depth as nat, r.0@, r.1@),
{
    let cs = chars_of(path);
    let n = cs.len();
    if depth == 0 {
        let folder = path.substring_char(0, 0);
        proof {
            assert(folder@ =~= Seq::<char>::empty());
            assert(folder@ + path@ =~= path@);
            assert(backslash_count(folder@) == 0);
        }
        return (folder, path);
    }
    let mut count: usize = 0;
    let mut i: usize = 0;
    proof {
        assert(path@.take(0) =~= Seq::<char>::empty());
    }
    while i < n
        invariant
            cs@ == path@,
            n == path@.len(),
            0 <= i <= n,
            count == backslash_count(path@.take(i as int)),
            count <= i,
            count < depth,
        decreases n - i,
    {
        proof {
            lemma_backslash_count_step(path@, i as int);
        }
        if cs[i] == '\\' {
            count = count + 1;
            if count == depth {
                let folder = path.substring_char(0, i + 1);
                let other = path.substring_char(i + 1, n);
                proof {
                    assert(folder@ + other@ =~= path@);
                    assert(folder@ =~= path@.take(i + 1));
                    lemma_backslash_count_prefix(path@, (i + 1) as int);
                }
                return (folder, other);
            }
        }
        i = i + 1;
    }
    proof {
        assert(path@.take(n as int) =~= path@);
    }
    let empty = path.substring_char(n, n);
    proof {
        assert(path@ + empty@ =~= path@);
    }
    (path, empty)
}

/// Counts over a prefix never exceed the count over the whole sequence.
pub proof fn lemma_backslash_count_prefix(s: Seq<char>, i: int)
    requires
        0 <= i <= s.len(),
    ensures
        backslash_count(s.take(i)) <= backslash_count(s),
    decreases s.len() - i,
{
    if i < s.len() {
        lemma_backslash_count_step(s, i);
        lemma_backslash_count_prefix(s, i + 1);
    } else {
        assert(s.take(i) =~= s);
    }
}

} // verus!

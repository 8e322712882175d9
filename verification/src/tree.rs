//! The permission tree: records grouped under the folders of their paths.
use vstd::prelude::*;

use crate::model::Record;
use crate::strmap::{find_key, has_key, insert_entry, key, lemma_lookup_index, lemma_lookup_update, lookup, remove_entry, sorted};
use crate::text::{chars_of, lemma_path_segments_concat, path_segments, split_segments, str_equal, strings_view};

verus! {

broadcast use vstd::string::group_string_axioms;

/// `p` is a prefix of `s`.
pub open spec fn is_prefix<A>(p: Seq<A>, s: Seq<A>) -> bool {
    p.len() <= s.len() && s.take(p.len() as int) == p
}

/// A node in a folder tree. `entries` holds indices into the record list for
/// permissions that apply exactly at this node's path; `children` maps each
/// folder name below this node to its subtree, in name order.
pub struct TreeNode {
    pub children: Vec<(String, TreeNode)>,
    pub entries: Vec<usize>,
}

impl TreeNode {
    /// Children are sorted by name at every level.
    pub open spec fn wf(&self) -> bool
        decreases self,
    {
        &&& sorted(self.children@)
        &&& forall|i: int| 0 <= i < self.children@.len() ==> (#[trigger] self.children@[i]).1.wf()
    }

    /// No path from this node is longer than `h` folders.
    pub open spec fn within_depth(&self, h: nat) -> bool
        decreases self,
    {
        if h == 0 {
            self.children@.len() == 0
        } else {
            forall|i: int|
                0 <= i < self.children@.len() ==> (#[trigger] self.children@[i]).1.within_depth(
                    (h - 1) as nat,
                )
        }
    }

    /// The node reached from this one by following the folder names `p`.
    pub open spec fn node_at(&self, p: Seq<Seq<char>>) -> Option<TreeNode>
        decreases p.len(),
    {
        if p.len() == 0 {
            Some(*self)
        } else {
            match lookup(self.children@, p[0]) {
                Some(c) => c.node_at(p.drop_first()),
                None => None,
            }
        }
    }

    /// There is a node at path `p`.
    pub open spec fn has_node(&self, p: Seq<Seq<char>>) -> bool {
        self.node_at(p) is Some
    }

    /// The record indices filed exactly at path `p`.
    pub open spec fn entries_at(&self, p: Seq<Seq<char>>) -> Seq<usize> {
        match self.node_at(p) {
            Some(n) => n.entries@,
            None => Seq::empty(),
        }
    }

    /// A node with no children and no entries.
    pub fn new() -> (t: Self)
        ensures
            t.wf(),
            t.children@.len() == 0,
            t.entries@.len() == 0,
            forall|h: nat| #[trigger] t.within_depth(h),
            forall|p: Seq<Seq<char>>| #[trigger] t.has_node(p) <==> p.len() == 0,
            forall|p: Seq<Seq<char>>| #[trigger] t.entries_at(p) == Seq::<usize>::empty(),
            tree_entries(t) == Seq::<usize>::empty(),
    {
        let t = TreeNode { children: Vec::new(), entries: Vec::new() };
        assert(tree_entries(t) =~= Seq::<usize>::empty());
        assert forall|p: Seq<Seq<char>>| #[trigger] t.has_node(p) <==> p.len() == 0 by {
            if p.len() > 0 {
                assert(!has_key(t.children@, p[0]));
            }
        }
        assert forall|p: Seq<Seq<char>>| #[trigger] t.entries_at(p) == Seq::<usize>::empty() by {
            if p.len() > 0 {
                assert(!has_key(t.children@, p[0]));
            } else {
                assert(t.entries@ =~= Seq::<usize>::empty());
            }
        }
        t
    }
}

/// The record indices held by `node` and the nodes below it: its own
/// entries, then those of each child in name order.
pub open spec fn tree_entries(node: TreeNode) -> Seq<usize>
    decreases node, 1int,
{
    node.entries@ + children_entries(node.children@, 0)
}

/// The record indices held by the children `cs[i..]` and below them.
pub open spec fn children_entries(cs: Seq<(String, TreeNode)>, i: int) -> Seq<usize>
    decreases cs, cs.len() - i,
{
    if 0 <= i < cs.len() {
        tree_entries(cs[i].1) + children_entries(cs, i + 1)
    } else {
        Seq::empty()
    }
}

/// Replacing a child before position `t` leaves the entries from `t` on
/// unchanged.
proof fn lemma_children_entries_after_update(cs: Seq<(String, TreeNode)>, j: int, x: (String, TreeNode), t: int)
    requires
        0 <= j < t,
        j < cs.len(),
    ensures
        children_entries(cs.update(j, x), t) == children_entries(cs, t),
    decreases cs.len() - t,
{
    if t < cs.len() {
        lemma_children_entries_after_update(cs, j, x, t + 1);
        assert(cs.update(j, x)[t] == cs[t]);
    }
}

/// Replacing child `j` by a tree holding one more `idx` adds one `idx` to
/// the entries of the children from `i <= j` on.
proof fn lemma_children_entries_update(cs: Seq<(String, TreeNode)>, j: int, c1: TreeNode, idx: usize, i: int)
    requires
        0 <= i <= j < cs.len(),
        tree_entries(c1).to_multiset() == tree_entries(cs[j].1).to_multiset().insert(idx),
    ensures
        children_entries(cs.update(j, (cs[j].0, c1)), i).to_multiset() == children_entries(cs, i).to_multiset().insert(idx),
    decreases j - i,
{
    broadcast use vstd::multiset::group_multiset_axioms;
    let u = cs.update(j, (cs[j].0, c1));
    if i == j {
        lemma_children_entries_after_update(cs, j, (cs[j].0, c1), j + 1);
        vstd::seq_lib::lemma_multiset_commutative(tree_entries(c1), children_entries(u, j + 1));
        vstd::seq_lib::lemma_multiset_commutative(tree_entries(cs[j].1), children_entries(cs, j + 1));
        assert(children_entries(u, i).to_multiset() =~= children_entries(cs, i).to_multiset().insert(idx));
    } else {
        lemma_children_entries_update(cs, j, c1, idx, i + 1);
        assert(u[i] == cs[i]);
        vstd::seq_lib::lemma_multiset_commutative(tree_entries(cs[i].1), children_entries(u, i + 1));
        vstd::seq_lib::lemma_multiset_commutative(tree_entries(cs[i].1), children_entries(cs, i + 1));
        assert(children_entries(u, i).to_multiset() =~= children_entries(cs, i).to_multiset().insert(idx));
    }
}

/// Inserting a child at position `j <= t` shifts the entries from `t` on by
/// one position.
proof fn lemma_children_entries_shift(cs: Seq<(String, TreeNode)>, j: int, x: (String, TreeNode), t: int)
    requires
        0 <= j <= t,
        j <= cs.len(),
    ensures
        children_entries(cs.insert(j, x), t + 1) == children_entries(cs, t),
    decreases cs.len() - t,
{
    if t < cs.len() {
        lemma_children_entries_shift(cs, j, x, t + 1);
        assert(cs.insert(j, x)[t + 1] == cs[t]);
    }
}

/// Inserting a child that holds nothing leaves the entries of the children
/// from `i <= j` on unchanged.
proof fn lemma_children_entries_insert_empty(cs: Seq<(String, TreeNode)>, j: int, x: (String, TreeNode), i: int)
    requires
        0 <= i <= j <= cs.len(),
        tree_entries(x.1) == Seq::<usize>::empty(),
    ensures
        children_entries(cs.insert(j, x), i) == children_entries(cs, i),
    decreases j - i,
{
    let ins = cs.insert(j, x);
    if i == j {
        lemma_children_entries_shift(cs, j, x, j);
        assert(ins[j] == x);
        assert(children_entries(ins, i) =~= children_entries(cs, i));
    } else {
        lemma_children_entries_insert_empty(cs, j, x, i + 1);
        assert(ins[i] == cs[i]);
    }
}

/// A non-empty prefix of a non-empty sequence starts with the same element,
/// followed by a prefix of the rest.
pub proof fn lemma_prefix_cons<A>(p: Seq<A>, s: Seq<A>)
    requires
        p.len() > 0,
        s.len() > 0,
    ensures
        is_prefix(p, s) == (p[0] == s[0] && is_prefix(p.drop_first(), s.drop_first())),
{
    if is_prefix(p, s) {
        assert(p[0] == s.take(p.len() as int)[0]);
        assert(s.drop_first().take(p.drop_first().len() as int) =~= s.take(
            p.len() as int,
        ).drop_first());
    }
    if p[0] == s[0] && is_prefix(p.drop_first(), s.drop_first()) {
        assert(s.take(p.len() as int) =~= seq![s[0]] + s.drop_first().take(
            p.drop_first().len() as int,
        ));
        assert(p =~= seq![p[0]] + p.drop_first());
    }
}

impl TreeNode {
    /// Files `idx` at the node reached by the names `segments[from..]`,
    /// creating the folders on the way as needed.
    pub fn insert(&mut self, segments: &Vec<String>, from: usize, idx: usize)
        requires
            old(self).wf(),
            from <= segments@.len(),
        ensures
            final(self).wf(),
            forall|p: Seq<Seq<char>>| #[trigger]
                final(self).has_node(p) == (old(self).has_node(p) || is_prefix(
                    p,
                    strings_view(segments@).skip(from as int),
                )),
            forall|p: Seq<Seq<char>>| #[trigger]
                final(self).entries_at(p) == if p == strings_view(segments@).skip(from as int) {
                    old(self).entries_at(p).push(idx)
                } else {
                    old(self).entries_at(p)
                },
            forall|h: nat|
                old(self).within_depth(h) && segments@.len() - from <= h ==> #[trigger] final(self).within_depth(h),
            tree_entries(*final(self)).to_multiset() == tree_entries(*old(self)).to_multiset().insert(idx),
        decreases segments@.len() - from,
    {
        let ghost segs = strings_view(segments@).skip(from as int);
        let ghost old_self = *self;
        if from == segments.len() {
            self.entries.push(idx);
            proof {
                lemma_tree_entries_push(old_self, *self, idx);
                assert(segs =~= Seq::<Seq<char>>::empty());
                assert forall|p: Seq<Seq<char>>| #[trigger]
                    self.has_node(p) == (old_self.has_node(p) || is_prefix(p, segs)) by {
                    if p.len() > 0 {
                        assert(self.children@ == old_self.children@);
                    }
                }
                assert forall|p: Seq<Seq<char>>| #[trigger]
                    self.entries_at(p) == if p == segs {
                        old_self.entries_at(p).push(idx)
                    } else {
                        old_self.entries_at(p)
                    } by {
                    if p.len() > 0 {
                        assert(self.children@ == old_self.children@);
                    } else {
                        assert(p =~= segs);
                    }
                }
                assert(self.children == old_self.children);
                assert forall|h: nat| #[trigger] old_self.within_depth(h) implies self.within_depth(h) by {
                    if h > 0 {
                        assert forall|j: int| 0 <= j < self.children@.len() implies (
                        #[trigger] self.children@[j]).1.within_depth((h - 1) as nat) by {
                            assert(self.children@[j] == old_self.children@[j]);
                        }
                    }
                }
            }
            return ;
        }
        let name = &segments[from];
        let ghost nm = name@;
        assert(segs[0] == nm);
        let i = match find_key(&self.children, name.as_str()) {
            Ok(i) => i,
            Err(i) => {
                let fresh = TreeNode::new();
                insert_entry(&mut self.children, i, name.clone(), fresh);
                proof {
                    lemma_children_entries_insert_empty(old_self.children@, i as int, self.children@[i as int], 0);
                }
                i
            },
        };
        let ghost mid = *self;
        assert(tree_entries(mid) == tree_entries(old_self));
        proof {
            lemma_lookup_index(mid.children@, i as int);
            assert forall|j: int| 0 <= j < mid.children@.len() implies (#[trigger] mid.children@[j]).1.wf() by {
                if !has_key(old_self.children@, nm) {
                    if j < i {
                        assert(mid.children@[j] == old_self.children@[j]);
                    } else if j > i {
                        assert(mid.children@[j] == old_self.children@[j - 1]);
                    }
                }
            }
        }
        let ghost c0 = mid.children@[i as int].1;
        let child = &mut self.children[i].1;
        child.insert(segments, from + 1, idx);
        proof {
            let c1 = self.children@[i as int].1;
            assert(self.children@ == mid.children@.update(i as int, (mid.children@[i as int].0, c1)));
            lemma_tree_entries_child(old_self, mid, *self, i as int, c1, idx);
            lemma_lookup_update(mid.children@, i as int, c1);
            assert(strings_view(segments@).skip(from + 1) =~= segs.drop_first());
            assert forall|j: int| 0 <= j < self.children@.len() implies (#[trigger] self.children@[j]).1.wf() by {
                if j != i {
                    assert(self.children@[j] == mid.children@[j]);
                }
            }
            assert forall|p: Seq<Seq<char>>| #[trigger]
                self.has_node(p) == (old_self.has_node(p) || is_prefix(p, segs)) by {
                if p.len() > 0 {
                    lemma_prefix_cons(p, segs);
                    if p[0] == nm {
                        let q = p.drop_first();
                        assert(c1.has_node(q) == (c0.has_node(q) || is_prefix(q, segs.drop_first())));
                        assert(lookup(self.children@, nm) == Some(c1));
                        assert(self.has_node(p) == c1.has_node(q));
                        if has_key(old_self.children@, nm) {
                            assert(lookup(old_self.children@, nm) == Some(c0));
                            assert(old_self.has_node(p) == c0.has_node(q));
                        } else {
                            assert(c0.has_node(q) == (q.len() == 0));
                            assert(!old_self.has_node(p));
                            if q.len() == 0 {
                                assert(segs.drop_first().take(0) =~= q);
                                assert(is_prefix(q, segs.drop_first()));
                            }
                        }
                    } else {
                        if !has_key(old_self.children@, nm) {
                            assert(lookup(mid.children@, p[0]) == lookup(old_self.children@, p[0]));
                        }
                    }
                }
            }
            assert forall|p: Seq<Seq<char>>| #[trigger]
                self.entries_at(p) == if p == segs {
                    old_self.entries_at(p).push(idx)
                } else {
                    old_self.entries_at(p)
                } by {
                if p.len() > 0 {
                    if p[0] == nm {
                        let q = p.drop_first();
                        assert(c1.entries_at(q) == if q == segs.drop_first() {
                            c0.entries_at(q).push(idx)
                        } else {
                            c0.entries_at(q)
                        });
                        if p.drop_first() == segs.drop_first() {
                            assert(p =~= seq![p[0]] + p.drop_first());
                            assert(segs =~= seq![segs[0]] + segs.drop_first());
                            assert(p =~= segs);
                        } else {
                            assert(p != segs);
                        }
                        if has_key(old_self.children@, nm) {
                            assert(lookup(old_self.children@, nm) == Some(c0));
                        } else {
                            assert(c0.entries_at(p.drop_first()) == Seq::<usize>::empty());
                        }
                    } else {
                        assert(p != segs);
                        if !has_key(old_self.children@, nm) {
                            assert(lookup(mid.children@, p[0]) == lookup(old_self.children@, p[0]));
                        }
                    }
                } else {
                    assert(p != segs);
                }
            }
            assert forall|h: nat|
                old_self.within_depth(h) && segments@.len() - from <= h implies #[trigger] self.within_depth(h) by {
                assert(h > 0);
                if has_key(old_self.children@, nm) {
                    assert(c0.within_depth((h - 1) as nat));
                }
                assert forall|j: int| 0 <= j < self.children@.len() implies (
                #[trigger] self.children@[j]).1.within_depth((h - 1) as nat) by {
                    if j != i {
                        assert(self.children@[j] == mid.children@[j]);
                        if !has_key(old_self.children@, nm) {
                            if j < i {
                                assert(mid.children@[j] == old_self.children@[j]);
                            } else {
                                assert(mid.children@[j] == old_self.children@[j - 1]);
                            }
                        }
                    }
                }
            }
        }
    }
}

/// Filing one more index at a node adds it to the node's entries.
proof fn lemma_tree_entries_push(t0: TreeNode, t1: TreeNode, idx: usize)
    requires
        t1.entries@ == t0.entries@.push(idx),
        t1.children@ == t0.children@,
    ensures
        tree_entries(t1).to_multiset() == tree_entries(t0).to_multiset().insert(idx),
{
    broadcast use vstd::multiset::group_multiset_axioms;
    broadcast use vstd::seq_lib::group_to_multiset_ensures;
    vstd::seq_lib::lemma_multiset_commutative(t1.entries@, children_entries(t1.children@, 0));
    vstd::seq_lib::lemma_multiset_commutative(t0.entries@, children_entries(t0.children@, 0));
    assert(tree_entries(t1).to_multiset() =~= tree_entries(t0).to_multiset().insert(idx));
}

/// Filing one more index in child `i` adds it to the entries of the tree.
proof fn lemma_tree_entries_child(t0: TreeNode, mid: TreeNode, t1: TreeNode, i: int, c1: TreeNode, idx: usize)
    requires
        tree_entries(mid) == tree_entries(t0),
        0 <= i < mid.children@.len(),
        t1.entries@ == mid.entries@,
        t1.children@ == mid.children@.update(i, (mid.children@[i].0, c1)),
        tree_entries(c1).to_multiset() == tree_entries(mid.children@[i].1).to_multiset().insert(idx),
    ensures
        tree_entries(t1).to_multiset() == tree_entries(t0).to_multiset().insert(idx),
{
    broadcast use vstd::multiset::group_multiset_axioms;
    lemma_children_entries_update(mid.children@, i, c1, idx, 0);
    vstd::seq_lib::lemma_multiset_commutative(t1.entries@, children_entries(t1.children@, 0));
    vstd::seq_lib::lemma_multiset_commutative(mid.entries@, children_entries(mid.children@, 0));
    assert(tree_entries(t1).to_multiset() =~= tree_entries(mid).to_multiset().insert(idx));
}

/// The folder names under which a record is filed: those of its full path,
/// or (with `full` false) only those of the part below its folder.
pub open spec fn record_path(r: Record, full: bool) -> Seq<Seq<char>> {
    if full {
        path_segments(r.path_view())
    } else {
        path_segments(r.other@)
    }
}

/// The indices, in their order, of the records filed exactly at `p`.
pub open spec fn filed_at(records: Seq<Record>, indices: Seq<usize>, full: bool, p: Seq<Seq<char>>) -> Seq<usize> {
    indices.filter(|i: usize| record_path(records[i as int], full) == p)
}

/// Some record among `indices` is filed at or below `p`.
pub open spec fn reaches(records: Seq<Record>, indices: Seq<usize>, full: bool, p: Seq<Seq<char>>) -> bool {
    exists|k: int| 0 <= k < indices.len() && is_prefix(p, record_path(records[indices[k] as int], full))
}

/// `t` is the tree of the records `indices`: it has exactly the folders on
/// their paths (and the root), and each node lists the records filed there
/// in the order of `indices`.
pub open spec fn is_tree_of(t: TreeNode, records: Seq<Record>, indices: Seq<usize>, full: bool) -> bool {
    &&& t.wf()
    &&& t.within_depth(usize::MAX as nat)
    &&& forall|p: Seq<Seq<char>>| #[trigger] t.has_node(p) == (p.len() == 0 || reaches(records, indices, full, p))
    &&& forall|p: Seq<Seq<char>>| #[trigger] t.entries_at(p) == filed_at(records, indices, full, p)
    &&& tree_entries(t).to_multiset() == indices.to_multiset()
}

/// Builds the tree of the given records, filed by full path or by the part
/// below their folder.
fn build_tree(records: &[Record], indices: &[usize], full: bool) -> (t: TreeNode)
    requires
        forall|k: int| 0 <= k < indices@.len() ==> indices@[k] < records@.len(),
    ensures
        is_tree_of(t, records@, indices@, full),
{
    let mut root = TreeNode::new();
    let mut k: usize = 0;
    proof {
        reveal(Seq::filter);
        assert forall|p: Seq<Seq<char>>| #[trigger] root.entries_at(p) == filed_at(records@, indices@.take(0), full, p) by {
            assert(indices@.take(0) =~= Seq::<usize>::empty());
        }
        assert(indices@.take(0) =~= Seq::<usize>::empty());
    }
    while k < indices.len()
        invariant
            forall|j: int| 0 <= j < indices@.len() ==> indices@[j] < records@.len(),
            0 <= k <= indices@.len(),
            is_tree_of(root, records@, indices@.take(k as int), full),
        decreases indices@.len() - k,
    {
        let idx = indices[k];
        let segments = if full {
            let path = records[idx].full_path();
            split_segments(path.as_str())
        } else {
            split_segments(records[idx].other.as_str())
        };
        // The folder count fits in a `usize`, which bounds the tree's depth.
        let depth = segments.len();
        assert(segments@.len() == depth);
        root.insert(&segments, 0, idx);
        assert(root.within_depth(usize::MAX as nat));
        proof {
            let segs = strings_view(segments@).skip(0);
            assert(segs =~= record_path(records@[idx as int], full));
            let prev = indices@.take(k as int);
            let next = indices@.take(k + 1);
            assert(next.drop_last() =~= prev);
            assert(next.last() == idx);
            assert(next =~= prev.push(idx));
            vstd::seq_lib::to_multiset_build(prev, idx);
            assert forall|p: Seq<Seq<char>>| #[trigger] root.entries_at(p) == filed_at(records@, next, full, p) by {
                reveal(Seq::filter);
            }
            assert forall|p: Seq<Seq<char>>| #[trigger] root.has_node(p) == (p.len() == 0 || reaches(records@, next, full, p)) by {
                if reaches(records@, next, full, p) {
                    let j = choose|j: int| 0 <= j < next.len() && is_prefix(p, record_path(records@[next[j] as int], full));
                    if j < k {
                        assert(prev[j] == next[j]);
                    }
                }
                if reaches(records@, prev, full, p) {
                    let j = choose|j: int| 0 <= j < prev.len() && is_prefix(p, record_path(records@[prev[j] as int], full));
                    assert(prev[j] == next[j]);
                }
                if is_prefix(p, segs) {
                    assert(next[k as int] == idx);
                }
            }
        }
        k = k + 1;
    }
    proof {
        assert(indices@.take(indices@.len() as int) =~= indices@);
    }
    root
}

/// Builds a tree from the full path (`folder` + `other`) of the given
/// records. Used for the per-user view, since a user can show up under
/// several folder roots.
pub fn build_path_tree(records: &[Record], indices: &[usize]) -> (t: TreeNode)
    requires
        forall|k: int| 0 <= k < indices@.len() ==> indices@[k] < records@.len(),
    ensures
        is_tree_of(t, records@, indices@, true),
{
    build_tree(records, indices, true)
}

/// Builds a tree from only the `other` part of the given records' paths.
/// Used for the per-folder view, where the folder itself is implied by the
/// selection.
pub fn build_other_tree(records: &[Record], indices: &[usize]) -> (t: TreeNode)
    requires
        forall|k: int| 0 <= k < indices@.len() ==> indices@[k] < records@.len(),
    ensures
        is_tree_of(t, records@, indices@, false),
{
    build_tree(records, indices, false)
}

/// Filtering with two tests that agree on every element gives the same.
proof fn lemma_filter_agree<A>(s: Seq<A>, f: spec_fn(A) -> bool, g: spec_fn(A) -> bool)
    requires
        forall|k: int| 0 <= k < s.len() ==> f(#[trigger] s[k]) == g(s[k]),
    ensures
        s.filter(f) == s.filter(g),
    decreases s.len(),
{
    reveal(Seq::filter);
    if s.len() > 0 {
        lemma_filter_agree(s.drop_last(), f, g);
        assert(f(s[s.len() - 1]) == g(s[s.len() - 1]));
    }
}

/// The tree of a selection depends only on where its records are filed:
/// two record lists that give each selected record the same folder names
/// (for trees of full paths, the same full path, however it is split into
/// folder and other) give trees with the same folders and the same entries.
pub proof fn lemma_tree_depends_on_paths(
    t1: TreeNode,
    records1: Seq<Record>,
    t2: TreeNode,
    records2: Seq<Record>,
    indices: Seq<usize>,
    full: bool,
)
    requires
        is_tree_of(t1, records1, indices, full),
        is_tree_of(t2, records2, indices, full),
        forall|k: int|
            0 <= k < indices.len() ==> record_path(records1[indices[k] as int], full) == record_path(
                records2[#[trigger] indices[k] as int],
                full,
            ),
    ensures
        forall|p: Seq<Seq<char>>| #[trigger] t1.has_node(p) == t2.has_node(p),
        forall|p: Seq<Seq<char>>| #[trigger] t1.entries_at(p) == t2.entries_at(p),
{
    assert forall|p: Seq<Seq<char>>| #[trigger] t1.has_node(p) == t2.has_node(p) by {
        if reaches(records1, indices, full, p) {
            let k = choose|k: int| 0 <= k < indices.len() && is_prefix(p, record_path(records1[indices[k] as int], full));
            assert(is_prefix(p, record_path(records2[indices[k] as int], full)));
        }
        if reaches(records2, indices, full, p) {
            let k = choose|k: int| 0 <= k < indices.len() && is_prefix(p, record_path(records2[indices[k] as int], full));
            assert(is_prefix(p, record_path(records1[indices[k] as int], full)));
        }
    }
    assert forall|p: Seq<Seq<char>>| #[trigger] t1.entries_at(p) == t2.entries_at(p) by {
        lemma_filter_agree(
            indices,
            |i: usize| record_path(records1[i as int], full) == p,
            |i: usize| record_path(records2[i as int], full) == p,
        );
    }
}

/// `s + p` is a prefix of `s + q` exactly when `p` is a prefix of `q`.
proof fn lemma_prefix_after<A>(s: Seq<A>, p: Seq<A>, q: Seq<A>)
    ensures
        is_prefix(s + p, s + q) == is_prefix(p, q),
{
    if is_prefix(p, q) {
        assert((s + q).take((s + p).len() as int) =~= s + q.take(p.len() as int));
    }
    if is_prefix(s + p, s + q) {
        assert(q.take(p.len() as int) =~= (s + q).take((s + p).len() as int).skip(s.len() as int));
        assert(p =~= (s + p).skip(s.len() as int));
    }
}

/// When every selected record has the same folder, ending in a backslash,
/// the tree of the parts below the folder is the tree of the full paths
/// seen from the node of that folder: the folder itself is implied.
pub proof fn lemma_other_tree_below_folder(
    t_other: TreeNode,
    t_full: TreeNode,
    records: Seq<Record>,
    indices: Seq<usize>,
    folder: Seq<char>,
)
    requires
        is_tree_of(t_other, records, indices, false),
        is_tree_of(t_full, records, indices, true),
        indices.len() > 0,
        forall|k: int| 0 <= k < indices.len() ==> records[#[trigger] indices[k] as int].folder@ == folder,
        folder.len() == 0 || folder.last() == '\\',
    ensures
        forall|p: Seq<Seq<char>>| #[trigger] t_other.has_node(p) == t_full.has_node(path_segments(folder) + p),
        forall|p: Seq<Seq<char>>| #[trigger] t_other.entries_at(p) == t_full.entries_at(path_segments(folder) + p),
{
    let s = path_segments(folder);
    assert forall|k: int| 0 <= k < indices.len() implies record_path(records[#[trigger] indices[k] as int], true)
        == s + record_path(records[indices[k] as int], false) by {
        let r = records[indices[k] as int];
        lemma_path_segments_concat(r.folder@, r.other@);
    }
    assert forall|p: Seq<Seq<char>>| #[trigger] t_other.has_node(p) == t_full.has_node(s + p) by {
        if p.len() == 0 {
            assert(s + p =~= s);
            let r0 = record_path(records[indices[0] as int], false);
            lemma_prefix_after(s, p, r0);
            assert(p.take(0) =~= p);
            assert(r0.take(0) =~= p);
            assert(is_prefix(s + p, record_path(records[indices[0] as int], true)));
        } else {
            if reaches(records, indices, false, p) {
                let k = choose|k: int| 0 <= k < indices.len() && is_prefix(p, record_path(records[indices[k] as int], false));
                lemma_prefix_after(s, p, record_path(records[indices[k] as int], false));
                assert(is_prefix(s + p, record_path(records[indices[k] as int], true)));
            }
            if reaches(records, indices, true, s + p) {
                let k = choose|k: int| 0 <= k < indices.len() && is_prefix(s + p, record_path(records[indices[k] as int], true));
                lemma_prefix_after(s, p, record_path(records[indices[k] as int], false));
            }
        }
    }
    assert forall|p: Seq<Seq<char>>| #[trigger] t_other.entries_at(p) == t_full.entries_at(s + p) by {
        assert forall|k: int| 0 <= k < indices.len() implies (record_path(records[#[trigger] indices[k] as int], false) == p)
            == (record_path(records[indices[k] as int], true) == s + p) by {
            let q = record_path(records[indices[k] as int], false);
            if s + q == s + p {
                assert(q =~= (s + q).skip(s.len() as int));
                assert(p =~= (s + p).skip(s.len() as int));
            }
        }
        lemma_filter_agree(
            indices,
            |i: usize| record_path(records[i as int], false) == p,
            |i: usize| record_path(records[i as int], true) == s + p,
        );
    }
}

/// What an `ExpansionState` records: the default, and the folder ids whose
/// state differs from it.
pub struct ExpansionView {
    pub default_open: bool,
    pub toggled: Set<Seq<char>>,
}

impl ExpansionView {
    /// Whether the folder `id` is shown open.
    pub open spec fn is_open(self, id: Seq<char>) -> bool {
        self.default_open != self.toggled.contains(id)
    }

    /// The state after switching the folder `id`.
    pub open spec fn toggle(self, id: Seq<char>) -> ExpansionView {
        ExpansionView {
            default_open: self.default_open,
            toggled: if self.toggled.contains(id) {
                self.toggled.remove(id)
            } else {
                self.toggled.insert(id)
            },
        }
    }
}

/// Tracks which folder nodes differ from the tree's default open/closed
/// state. Only exceptions are stored, so switching a whole tree between all
/// expanded and all collapsed means changing the default alone (see
/// `set_default_open`).
pub struct ExpansionState {
    default_open: bool,
    toggled: Vec<(String, ())>,
}

impl View for ExpansionState {
    type V = ExpansionView;

    closed spec fn view(&self) -> ExpansionView {
        ExpansionView {
            default_open: self.default_open,
            toggled: Set::new(|k: Seq<char>| has_key(self.toggled@, k)),
        }
    }
}

impl ExpansionState {
    /// The stored exceptions are kept sorted by id.
    pub closed spec fn wf(&self) -> bool {
        sorted(self.toggled@)
    }

    /// A state where every folder has the default state `default_open`.
    pub fn new(default_open: bool) -> (s: Self)
        ensures
            s.wf(),
            s@.default_open == default_open,
            s@.toggled == Set::<Seq<char>>::empty(),
    {
        let s = ExpansionState { default_open, toggled: Vec::new() };
        assert(s@.toggled =~= Set::<Seq<char>>::empty());
        s
    }

    /// Whether the folder `id` is shown open.
    pub fn is_open(&self, id: &str) -> (r: bool)
        requires
            self.wf(),
        ensures
            r == self@.is_open(id@),
    {
        let present = match find_key(&self.toggled, id) {
            Ok(_) => true,
            Err(_) => false,
        };
        self.default_open != present
    }

    /// Whether folders are open unless switched.
    pub fn default_open(&self) -> (r: bool)
        ensures
            r == self@.default_open,
    {
        self.default_open
    }

    /// Makes `open` the default of every folder, keeping the exceptions:
    /// switching a whole tree between all expanded and all collapsed
    /// touches no folder.
    pub fn set_default_open(&mut self, open: bool)
        requires
            old(self).wf(),
        ensures
            final(self).wf(),
            final(self)@ == (ExpansionView { default_open: open, toggled: old(self)@.toggled }),
    {
        self.default_open = open;
    }

    /// Switches the folder `id` between open and closed.
    pub fn toggle(&mut self, id: String)
        requires
            old(self).wf(),
        ensures
            final(self).wf(),
            final(self)@ == old(self)@.toggle(id@),
    {
        let ghost old_view = self@;
        match find_key(&self.toggled, id.as_str()) {
            Ok(i) => {
                let ghost before = self.toggled@;
                remove_entry(&mut self.toggled, i);
                proof {
                    assert(key(before, i as int) == id@);
                    assert(before == old(self).toggled@);
                    assert forall|k: Seq<char>| has_key(self.toggled@, k) == (has_key(before, k) && k != id@) by {
                        assert((lookup(self.toggled@, k) is Some) == has_key(self.toggled@, k));
                        assert((lookup(before, k) is Some) == has_key(before, k));
                    }
                    assert forall|k: Seq<char>| #[trigger] self@.toggled.contains(k) == old_view.toggled.remove(id@).contains(k) by {
                        assert(self@.toggled.contains(k) == has_key(self.toggled@, k));
                        assert(old_view.toggled.contains(k) == has_key(before, k));
                    }
                    assert(self@.toggled =~= old_view.toggled.remove(id@));
                }
            },
            Err(i) => {
                let ghost before = self.toggled@;
                let ghost k0 = id@;
                insert_entry(&mut self.toggled, i, id, ());
                proof {
                    assert forall|k: Seq<char>| has_key(self.toggled@, k) == (has_key(before, k) || k == k0) by {
                        assert((lookup(self.toggled@, k) is Some) == has_key(self.toggled@, k));
                        assert((lookup(before, k) is Some) == has_key(before, k));
                    }
                    assert(self@.toggled =~= old_view.toggled.insert(k0));
                }
            },
        }
    }
}

/// Switching a folder twice leaves the expansion state as it was.
pub proof fn lemma_toggle_twice(v: ExpansionView, id: Seq<char>)
    ensures
        v.toggle(id).toggle(id) == v,
{
    if v.toggled.contains(id) {
        assert(v.toggled.remove(id).insert(id) =~= v.toggled);
    } else {
        assert(v.toggled.insert(id).remove(id) =~= v.toggled);
    }
}

/// Switching a folder flips whether it is open and leaves every other
/// folder as it was.
pub proof fn lemma_toggle_flips(v: ExpansionView, id: Seq<char>, other: Seq<char>)
    ensures
        v.toggle(id).is_open(id) == !v.is_open(id),
        other != id ==> v.toggle(id).is_open(other) == v.is_open(other),
{
}

/// Reversing the default flips every folder between open and closed.
pub proof fn lemma_flip_default(v: ExpansionView, id: Seq<char>)
    ensures
        (ExpansionView { default_open: !v.default_open, toggled: v.toggled }).is_open(id) == !v.is_open(id),
{
}

/// The state after switching the folders `ids`, in order.
pub open spec fn toggle_all(v: ExpansionView, ids: Seq<Seq<char>>) -> ExpansionView
    decreases ids.len(),
{
    if ids.len() == 0 {
        v
    } else {
        toggle_all(v, ids.drop_last()).toggle(ids.last())
    }
}

/// How many times `id` occurs in `ids`.
pub open spec fn times(ids: Seq<Seq<char>>, id: Seq<char>) -> nat {
    ids.filter(|x: Seq<char>| x == id).len()
}

/// After switching the folders `ids`, a folder differs from how it was
/// exactly when it was switched an odd number of times; the default stays.
pub proof fn lemma_toggle_parity(v: ExpansionView, ids: Seq<Seq<char>>, id: Seq<char>)
    ensures
        toggle_all(v, ids).default_open == v.default_open,
        toggle_all(v, ids).is_open(id) == (v.is_open(id) != (times(ids, id) % 2 == 1)),
    decreases ids.len(),
{
    reveal(Seq::filter);
    if ids.len() > 0 {
        lemma_toggle_parity(v, ids.drop_last(), id);
        lemma_toggle_flips(toggle_all(v, ids.drop_last()), ids.last(), id);
        if ids.last() == id {
            assert(times(ids, id) == times(ids.drop_last(), id) + 1);
        } else {
            assert(times(ids, id) == times(ids.drop_last(), id));
        }
    } else {
        assert(times(ids, id) == 0);
    }
}

/// One row of a flattened tree, ready for rendering only the rows that are
/// visible.
#[derive(Debug, PartialEq, Eq)]
pub enum FlatRow {
    Folder { id: String, name: String, depth: usize, expanded: bool, has_children: bool },
    Entry { record_idx: usize, depth: usize },
}

/// The content of a `FlatRow`.
pub enum FlatRowView {
    Folder { id: Seq<char>, name: Seq<char>, depth: nat, expanded: bool, has_children: bool },
    Entry { record_idx: usize, depth: nat },
}

impl View for FlatRow {
    type V = FlatRowView;

    open spec fn view(&self) -> FlatRowView {
        match self {
            FlatRow::Folder { id, name, depth, expanded, has_children } => FlatRowView::Folder {
                id: id@,
                name: name@,
                depth: *depth as nat,
                expanded: *expanded,
                has_children: *has_children,
            },
            FlatRow::Entry { record_idx, depth } => FlatRowView::Entry {
                record_idx: *record_idx,
                depth: *depth as nat,
            },
        }
    }
}

/// The views of a sequence of rows.
pub open spec fn rows_view(rows: Seq<FlatRow>) -> Seq<FlatRowView> {
    rows.map_values(|r: FlatRow| r@)
}

/// The id of the folder `name` below the folder with id `prefix`: the names
/// from the top joined by `/`.
pub open spec fn child_id(prefix: Seq<char>, name: Seq<char>) -> Seq<char> {
    if prefix.len() == 0 {
        name
    } else {
        prefix + seq!['/'] + name
    }
}

/// The entry rows for the record indices `entries`.
pub open spec fn entry_rows(entries: Seq<usize>, depth: nat) -> Seq<FlatRowView> {
    entries.map_values(|e: usize| FlatRowView::Entry { record_idx: e, depth })
}

/// The rows of `node`, whose folder id is `prefix`, at `depth`: first its
/// own entries, then for each child in name order a folder row followed,
/// when that folder is open, by the child's own rows one level deeper.
pub open spec fn flat_node(node: TreeNode, prefix: Seq<char>, depth: nat, exp: ExpansionView) -> Seq<FlatRowView>
    decreases node, 1int,
{
    entry_rows(node.entries@, depth) + flat_children(node.children@, 0, prefix, depth, exp)
}

/// The rows of the children `cs[i..]` of a node with folder id `prefix`.
pub open spec fn flat_children(
    cs: Seq<(String, TreeNode)>,
    i: int,
    prefix: Seq<char>,
    depth: nat,
    exp: ExpansionView,
) -> Seq<FlatRowView>
    decreases cs, cs.len() - i,
{
    if 0 <= i < cs.len() {
        let name = cs[i].0@;
        let child = cs[i].1;
        let id = child_id(prefix, name);
        let open = exp.is_open(id);
        let row = FlatRowView::Folder {
            id,
            name,
            depth,
            expanded: open,
            has_children: child.children@.len() > 0 || child.entries@.len() > 0,
        };
        seq![row] + (if open {
            flat_node(child, id, depth + 1, exp)
        } else {
            Seq::empty()
        }) + flat_children(cs, i + 1, prefix, depth, exp)
    } else {
        Seq::empty()
    }
}

/// `s` with every `/` replaced by a backslash.
pub open spec fn slashes_to_backslashes(s: Seq<char>) -> Seq<char> {
    s.map_values(|c: char| if c == '/' { '\\' } else { c })
}

/// The path of the folder with id `id` (names joined by `/`, see
/// `child_id`) in a tree whose root stands for the folder `base`: `base`
/// followed by the names joined by backslashes.
pub fn folder_path(base: &str, id: &str) -> (r: String)
    ensures
        r@ == base@ + slashes_to_backslashes(id@),
{
    let cs = chars_of(id);
    let n = cs.len();
    let mut out = base.to_owned();
    let mut start: usize = 0;
    let mut i: usize = 0;
    let sep = "\\";
    proof {
        reveal_strlit("\\");
        assert(id@.take(0) =~= Seq::<char>::empty());
        assert(base@ + slashes_to_backslashes(id@.take(0)) =~= base@);
    }
    while i < n
        invariant
            cs@ == id@,
            n == id@.len(),
            sep@ == seq!['\\'],
            0 <= start <= i <= n,
            out@ == base@ + slashes_to_backslashes(id@.take(start as int)),
            forall|t: int| start <= t < i ==> id@[t] != '/',
        decreases n - i,
    {
        if cs[i] == '/' {
            out.append(id.substring_char(start, i));
            out.append(sep);
            proof {
                assert(slashes_to_backslashes(id@.take(i + 1)) =~= slashes_to_backslashes(id@.take(start as int))
                    + id@.subrange(start as int, i as int) + seq!['\\']);
            }
            start = i + 1;
        }
        i = i + 1;
    }
    out.append(id.substring_char(start, n));
    proof {
        assert(id@.take(n as int) =~= id@);
        assert(slashes_to_backslashes(id@) =~= slashes_to_backslashes(id@.take(start as int))
            + id@.subrange(start as int, n as int));
    }
    out
}

/// The folder id made of the names `names` (see `child_id`).
pub open spec fn joined_id(names: Seq<Seq<char>>) -> Seq<char>
    decreases names.len(),
{
    if names.len() == 0 {
        Seq::empty()
    } else {
        child_id(joined_id(names.drop_last()), names.last())
    }
}

/// Position `i` of `s` ends a piece: the character before it is not a
/// backslash, and it is the end of `s` or a backslash follows.
pub open spec fn is_piece_end(s: Seq<char>, i: int) -> bool {
    1 <= i <= s.len() && s[i - 1] != '\\' && (i == s.len() || s[i] == '\\')
}

/// How many pieces of `s` end at or before position `c`.
pub open spec fn piece_ends(s: Seq<char>, c: int) -> nat
    decreases c,
{
    if c <= 0 {
        0
    } else {
        piece_ends(s, c - 1) + if is_piece_end(s, c) {
            1nat
        } else {
            0nat
        }
    }
}

/// `c` is where `s` is cut after its first `k` pieces: right after the
/// `k`-th piece (at 0 for no piece), or at the end when `s` has fewer.
pub open spec fn cuts_after_pieces(s: Seq<char>, k: nat, c: int) -> bool {
    if k <= piece_ends(s, s.len() as int) {
        &&& 0 <= c <= s.len()
        &&& piece_ends(s, c) == k
        &&& if k == 0 {
            c == 0
        } else {
            is_piece_end(s, c)
        }
    } else {
        c == s.len()
    }
}

/// Counting piece ends further along never gives fewer.
proof fn lemma_piece_ends_grow(s: Seq<char>, a: int, b: int)
    requires
        a <= b,
    ensures
        piece_ends(s, a) <= piece_ends(s, b),
    decreases b - a,
{
    if a < b {
        lemma_piece_ends_grow(s, a, b - 1);
    }
}

/// `path` cut right after its first `k` pieces (its backslash-separated
/// folder names), or the whole path when it has fewer.
pub fn piece_prefix(path: &str, k: usize) -> (r: &str)
    ensures
        r@ == path@.take(r@.len() as int),
        cuts_after_pieces(path@, k as nat, r@.len() as int),
{
    let cs = chars_of(path);
    let n = cs.len();
    if k == 0 {
        let r = path.substring_char(0, 0);
        assert(r@ =~= path@.take(0));
        proof {
            lemma_piece_ends_grow(path@, 0, n as int);
        }
        return r;
    }
    let mut count: usize = 0;
    let mut i: usize = 0;
    while i < n
        invariant
            cs@ == path@,
            n == path@.len(),
            0 <= i <= n,
            count == piece_ends(path@, i as int),
            count < k,
        decreases n - i,
    {
        if cs[i] != '\\' && (i + 1 == n || cs[i + 1] == '\\') {
            assert(is_piece_end(path@, i + 1));
            count = count + 1;
            if count == k {
                let r = path.substring_char(0, i + 1);
                proof {
                    assert(r@ =~= path@.take(i + 1));
                    lemma_piece_ends_grow(path@, i + 1, n as int);
                }
                return r;
            }
        } else {
            assert(!is_piece_end(path@, i + 1));
        }
        i = i + 1;
    }
    assert(path@.take(n as int) =~= path@);
    path
}

/// `p` is the path of the folder with id `id` as record `r` gives it: the
/// first names of `r`'s full path make up `id`, and `p` is that full path
/// cut right after them.
pub open spec fn folder_prefix_of(r: Record, id: Seq<char>, p: Seq<char>) -> bool {
    exists|k: nat, c: int|
        1 <= k <= path_segments(r.path_view()).len() && joined_id(path_segments(r.path_view()).take(k as int)) == id
            && cuts_after_pieces(r.path_view(), k, c) && p == r.path_view().take(c)
}

/// No first names of `r`'s full path make up the folder id `id`.
pub open spec fn lacks_folder(r: Record, id: Seq<char>) -> bool {
    forall|k: int|
        1 <= k <= path_segments(r.path_view()).len() ==> #[trigger] joined_id(path_segments(r.path_view()).take(k)) != id
}

/// What searching `indices` for the path of folder `id` finds: a path that
/// one of the records gives for it, or nothing when none of them has it.
pub open spec fn found_folder_path(records: Seq<Record>, indices: Seq<usize>, id: Seq<char>, r: Option<String>) -> bool {
    match r {
        Some(p) => exists|t: int| 0 <= t < indices.len() && folder_prefix_of(records[indices[t] as int], id, p@),
        None => forall|t: int| 0 <= t < indices.len() ==> lacks_folder(records[#[trigger] indices[t] as int], id),
    }
}

/// The path of the folder with id `id` in the tree of the full paths of
/// the records `indices`, as the first of them filed at or below it gives
/// it; `None` when none is.
pub fn path_of_folder_id(records: &Vec<Record>, indices: &Vec<usize>, id: &str) -> (r: Option<String>)
    requires
        forall|t: int| 0 <= t < indices@.len() ==> #[trigger] indices@[t] < records@.len(),
    ensures
        found_folder_path(records@, indices@, id@, r),
{
    let mut t: usize = 0;
    while t < indices.len()
        invariant
            forall|u: int| 0 <= u < indices@.len() ==> #[trigger] indices@[u] < records@.len(),
            0 <= t <= indices@.len(),
            forall|u: int| 0 <= u < t ==> lacks_folder(records@[#[trigger] indices@[u] as int], id@),
        decreases indices@.len() - t,
    {
        let rec = &records[indices[t]];
        let full = rec.full_path();
        let segs = split_segments(full.as_str());
        let ghost names = strings_view(segs@);
        let mut cur = String::new();
        let mut k: usize = 0;
        let sep = "/";
        proof {
            reveal_strlit("/");
            assert(names.take(0) =~= Seq::<Seq<char>>::empty());
            assert(cur@ =~= Seq::<char>::empty());
        }
        while k < segs.len()
            invariant
                0 <= t < indices@.len(),
                *rec == records@[indices@[t as int] as int],
                forall|u: int| 0 <= u < t ==> lacks_folder(records@[#[trigger] indices@[u] as int], id@),
                names == strings_view(segs@),
                names == path_segments(rec.path_view()),
                full@ == rec.path_view(),
                sep@ == seq!['/'],
                0 <= k <= segs@.len(),
                cur@ == joined_id(names.take(k as int)),
                forall|kk: int| 1 <= kk <= k ==> #[trigger] joined_id(names.take(kk)) != id@,
            decreases segs@.len() - k,
        {
            let ghost before = cur@;
            if cur.as_str().is_empty() {
                cur = segs[k].clone();
            } else {
                cur.append(sep);
                cur.append(segs[k].as_str());
            }
            proof {
                assert(names.take(k + 1).drop_last() =~= names.take(k as int));
                assert(names.take(k + 1).last() == names[k as int]);
                assert(cur@ =~= child_id(before, names[k as int]));
            }
            k = k + 1;
            if str_equal(cur.as_str(), id) {
                let p = piece_prefix(full.as_str(), k);
                let found = p.to_owned();
                proof {
                    let c = p@.len() as int;
                    let kn: nat = k as nat;
                    let pv = rec.path_view();
                    assert(1 <= kn <= path_segments(pv).len());
                    assert(joined_id(path_segments(pv).take(kn as int)) == id@);
                    assert(cuts_after_pieces(pv, kn, c));
                    assert(found@ == pv.take(c));
                    assert(records@[indices@[t as int] as int] == *rec);
                    assert(folder_prefix_of(*rec, id@, found@));
                }
                return Some(found);
            }
        }
        assert(lacks_folder(*rec, id@));
        t = t + 1;
    }
    None
}

/// Appends the rows of `node` (see `flat_node`) to `out`.
fn flatten_node(
    node: &TreeNode,
    id_prefix: &str,
    depth: usize,
    expansion: &ExpansionState,
    out: &mut Vec<FlatRow>,
)
    requires
        node.wf(),
        node.within_depth((usize::MAX - depth) as nat),
        expansion.wf(),
    ensures
        rows_view(final(out)@) == rows_view(old(out)@) + flat_node(
            *node,
            id_prefix@,
            depth as nat,
            expansion@,
        ),
    decreases node,
{
    let ghost start = rows_view(out@);
    let mut j: usize = 0;
    while j < node.entries.len()
        invariant
            0 <= j <= node.entries@.len(),
            rows_view(out@) == start + entry_rows(node.entries@.take(j as int), depth as nat),
        decreases node.entries@.len() - j,
    {
        let ghost before = rows_view(out@);
        out.push(FlatRow::Entry { record_idx: node.entries[j], depth });
        proof {
            let row = FlatRowView::Entry { record_idx: node.entries@[j as int], depth: depth as nat };
            assert(rows_view(out@) =~= before.push(row));
            assert(node.entries@.take(j + 1) =~= node.entries@.take(j as int).push(node.entries@[j as int]));
            assert(entry_rows(node.entries@.take(j + 1), depth as nat) =~= entry_rows(node.entries@.take(j as int), depth as nat).push(row));
            assert(rows_view(out@) =~= start + entry_rows(node.entries@.take(j + 1), depth as nat));
        }
        j = j + 1;
    }
    proof {
        assert(node.entries@.take(node.entries@.len() as int) =~= node.entries@);
    }
    let ghost after_entries = rows_view(out@);
    let cs = &node.children;
    let mut i: usize = 0;
    while i < cs.len()
        invariant
            node.wf(),
            node.within_depth((usize::MAX - depth) as nat),
            expansion.wf(),
            cs == &node.children,
            0 <= i <= cs@.len(),
            rows_view(out@) + flat_children(cs@, i as int, id_prefix@, depth as nat, expansion@)
                == after_entries + flat_children(cs@, 0, id_prefix@, depth as nat, expansion@),
        decreases cs@.len() - i,
    {
        let name = &cs[i].0;
        let child = &cs[i].1;
        let id = if id_prefix.is_empty() {
            name.clone()
        } else {
            let mut s = id_prefix.to_owned();
            s.append("/");
            s.append(name.as_str());
            proof {
                reveal_strlit("/");
            }
            s
        };
        assert(id@ == child_id(id_prefix@, name@));
        let expanded = expansion.is_open(id.as_str());
        let has_children = child.children.len() > 0 || child.entries.len() > 0;
        let ghost before = rows_view(out@);
        out.push(FlatRow::Folder { id: id.clone(), name: name.clone(), depth, expanded, has_children });
        let ghost row = FlatRowView::Folder {
            id: id@,
            name: name@,
            depth: depth as nat,
            expanded,
            has_children,
        };
        assert(rows_view(out@) =~= before.push(row));
        assert(child.wf());
        if expanded {
            assert(child.within_depth((usize::MAX - (depth + 1)) as nat));
            flatten_node(child, id.as_str(), depth + 1, expansion, out);
        }
        proof {
            let sub = if expanded {
                flat_node(*child, id@, (depth + 1) as nat, expansion@)
            } else {
                Seq::empty()
            };
            assert(rows_view(out@) =~= before + seq![row] + sub);
            assert(flat_children(cs@, i as int, id_prefix@, depth as nat, expansion@) =~= seq![row]
                + sub + flat_children(cs@, i + 1, id_prefix@, depth as nat, expansion@));
        }
        i = i + 1;
    }
    proof {
        assert(flat_children(cs@, i as int, id_prefix@, depth as nat, expansion@) =~= Seq::<FlatRowView>::empty());
        assert(rows_view(out@) =~= after_entries + flat_children(cs@, 0, id_prefix@, depth as nat, expansion@));
    }
}

/// Flattens a tree into its visible rows: collapsed subtrees are skipped
/// entirely, so the work is proportional to the number of open nodes.
pub fn flatten_tree(tree: &TreeNode, expansion: &ExpansionState) -> (rows: Vec<FlatRow>)
    requires
        tree.wf(),
        tree.within_depth(usize::MAX as nat),
        expansion.wf(),
    ensures
        rows_view(rows@) == flat_node(*tree, Seq::empty(), 0, expansion@),
{
    let mut out: Vec<FlatRow> = Vec::new();
    let prefix = "";
    proof {
        reveal_strlit("");
        assert(rows_view(out@) =~= Seq::<FlatRowView>::empty());
    }
    flatten_node(tree, prefix, 0, expansion, &mut out);
    assert(prefix@ =~= Seq::<char>::empty());
    assert(rows_view(out@) =~= flat_node(*tree, Seq::empty(), 0, expansion@));
    out
}

/// The record indices of the entry rows among `rows`, in order.
pub open spec fn entry_ids(rows: Seq<FlatRowView>) -> Seq<usize>
    decreases rows.len(),
{
    if rows.len() == 0 {
        Seq::empty()
    } else {
        entry_ids(rows.drop_last()) + match rows.last() {
            FlatRowView::Entry { record_idx, .. } => seq![record_idx],
            FlatRowView::Folder { .. } => Seq::empty(),
        }
    }
}

/// The entry rows of two runs of rows are those of the first, then those
/// of the second.
proof fn lemma_entry_ids_concat(a: Seq<FlatRowView>, b: Seq<FlatRowView>)
    ensures
        entry_ids(a + b) == entry_ids(a) + entry_ids(b),
    decreases b.len(),
{
    if b.len() == 0 {
        assert(a + b =~= a);
        assert(entry_ids(a) + entry_ids(b) =~= entry_ids(a));
    } else {
        lemma_entry_ids_concat(a, b.drop_last());
        assert((a + b).drop_last() =~= a + b.drop_last());
        assert((a + b).last() == b.last());
        let tail = match b.last() {
            FlatRowView::Entry { record_idx, .. } => seq![record_idx],
            FlatRowView::Folder { .. } => Seq::<usize>::empty(),
        };
        assert(entry_ids(a) + entry_ids(b.drop_last()) + tail =~= entry_ids(a) + (entry_ids(
            b.drop_last(),
        ) + tail));
    }
}

/// The entry rows for `es` name exactly `es`.
proof fn lemma_entry_ids_entry_rows(es: Seq<usize>, depth: nat)
    ensures
        entry_ids(entry_rows(es, depth)) == es,
    decreases es.len(),
{
    if es.len() == 0 {
        assert(entry_ids(entry_rows(es, depth)) =~= es);
    } else {
        lemma_entry_ids_entry_rows(es.drop_last(), depth);
        assert(entry_rows(es, depth).drop_last() =~= entry_rows(es.drop_last(), depth));
        assert(es =~= es.drop_last().push(es.last()));
        assert(entry_ids(entry_rows(es, depth)) =~= es);
    }
}

/// A folder row names no record.
proof fn lemma_entry_ids_folder_row(row: FlatRowView)
    requires
        row is Folder,
    ensures
        entry_ids(seq![row]) == Seq::<usize>::empty(),
{
    assert(seq![row].drop_last() =~= Seq::<FlatRowView>::empty());
    assert(seq![row].last() == row);
    assert(entry_ids(Seq::<FlatRowView>::empty()) == Seq::<usize>::empty());
    assert(entry_ids(seq![row]) =~= Seq::<usize>::empty());
}

/// An element of `a + b` is an element of `a` or of `b`.
proof fn lemma_contains_concat<A>(a: Seq<A>, b: Seq<A>, x: A)
    ensures
        (a + b).contains(x) == (a.contains(x) || b.contains(x)),
{
    if (a + b).contains(x) {
        let k = choose|k: int| 0 <= k < (a + b).len() && (a + b)[k] == x;
        if k >= a.len() {
            assert(b[k - a.len()] == x);
        }
    }
    if a.contains(x) {
        let k = choose|k: int| 0 <= k < a.len() && a[k] == x;
        assert((a + b)[k] == x);
    }
    if b.contains(x) {
        let k = choose|k: int| 0 <= k < b.len() && b[k] == x;
        assert((a + b)[a.len() + k] == x);
    }
}

/// Every folder is open.
pub open spec fn all_open(exp: ExpansionView) -> bool {
    forall|id: Seq<char>| #[trigger] exp.is_open(id)
}

/// The entry rows of a node name records held in it; with every folder
/// open, exactly those it holds, in order.
proof fn lemma_flat_node_entries(node: TreeNode, prefix: Seq<char>, depth: nat, exp: ExpansionView)
    ensures
        forall|x: usize| entry_ids(flat_node(node, prefix, depth, exp)).contains(x) ==> tree_entries(node).contains(x),
        all_open(exp) ==> entry_ids(flat_node(node, prefix, depth, exp)) == tree_entries(node),
    decreases node, 1int,
{
    let es = entry_rows(node.entries@, depth);
    let cs = flat_children(node.children@, 0, prefix, depth, exp);
    lemma_flat_children_entries(node.children@, 0, prefix, depth, exp);
    lemma_entry_ids_concat(es, cs);
    lemma_entry_ids_entry_rows(node.entries@, depth);
    assert forall|x: usize| entry_ids(flat_node(node, prefix, depth, exp)).contains(x) implies tree_entries(node).contains(x) by {
        lemma_contains_concat(node.entries@, entry_ids(cs), x);
        lemma_contains_concat(node.entries@, children_entries(node.children@, 0), x);
    }
}

/// The entry rows of the children `cs[i..]` name records held in them;
/// with every folder open, exactly those they hold, in order.
proof fn lemma_flat_children_entries(
    cs: Seq<(String, TreeNode)>,
    i: int,
    prefix: Seq<char>,
    depth: nat,
    exp: ExpansionView,
)
    ensures
        forall|x: usize| entry_ids(flat_children(cs, i, prefix, depth, exp)).contains(x) ==> children_entries(cs, i).contains(x),
        all_open(exp) ==> entry_ids(flat_children(cs, i, prefix, depth, exp)) == children_entries(cs, i),
    decreases cs, cs.len() - i,
{
    if 0 <= i < cs.len() {
        let name = cs[i].0@;
        let child = cs[i].1;
        let id = child_id(prefix, name);
        let open = exp.is_open(id);
        let row = FlatRowView::Folder {
            id,
            name,
            depth,
            expanded: open,
            has_children: child.children@.len() > 0 || child.entries@.len() > 0,
        };
        let sub = if open {
            flat_node(child, id, depth + 1, exp)
        } else {
            Seq::empty()
        };
        let rest = flat_children(cs, i + 1, prefix, depth, exp);
        lemma_flat_node_entries(child, id, depth + 1, exp);
        lemma_flat_children_entries(cs, i + 1, prefix, depth, exp);
        lemma_entry_ids_folder_row(row);
        lemma_entry_ids_concat(seq![row], sub);
        lemma_entry_ids_concat(seq![row] + sub, rest);
        assert(entry_ids(seq![row] + sub) =~= entry_ids(sub));
        if !open {
            assert(entry_ids(sub) =~= Seq::<usize>::empty());
        }
        assert forall|x: usize| entry_ids(flat_children(cs, i, prefix, depth, exp)).contains(x) implies children_entries(cs, i).contains(x) by {
            lemma_contains_concat(entry_ids(sub), entry_ids(rest), x);
            lemma_contains_concat(tree_entries(child), children_entries(cs, i + 1), x);
        }
    }
}

/// Whatever folders are open, each entry row of the tree of `indices` names
/// one of `indices`.
pub proof fn lemma_rows_name_selected_records(t: TreeNode, records: Seq<Record>, indices: Seq<usize>, full: bool, exp: ExpansionView)
    requires
        is_tree_of(t, records, indices, full),
    ensures
        forall|x: usize| #[trigger] entry_ids(flat_node(t, Seq::empty(), 0, exp)).contains(x) ==> indices.contains(x),
{
    broadcast use vstd::seq_lib::group_to_multiset_ensures;
    lemma_flat_node_entries(t, Seq::empty(), 0, exp);
    assert forall|x: usize| #[trigger] entry_ids(flat_node(t, Seq::empty(), 0, exp)).contains(x) implies indices.contains(x) by {
        assert(tree_entries(t).contains(x));
        assert(tree_entries(t).to_multiset().count(x) > 0);
    }
}

/// With every folder open, the rows of the tree of `indices` hold one entry
/// row for each of `indices`: every selected record is listed, as often as
/// it is selected.
pub proof fn lemma_open_rows_list_every_record(t: TreeNode, records: Seq<Record>, indices: Seq<usize>, full: bool, exp: ExpansionView)
    requires
        is_tree_of(t, records, indices, full),
        all_open(exp),
    ensures
        entry_ids(flat_node(t, Seq::empty(), 0, exp)).to_multiset() == indices.to_multiset(),
{
    lemma_flat_node_entries(t, Seq::empty(), 0, exp);
}

} // verus!

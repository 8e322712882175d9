//! The trie of folder paths used to choose the folder split automatically:
//! each node knows which identities have a grant at or below it.
use vstd::prelude::*;
use std::collections::HashSet;

use crate::strmap::{
    find_key, has_key, insert_entry, lemma_lookup_index, lemma_lookup_update, lookup, sorted,
};
use crate::model::{is_fixed_split, lemma_backslash_count_prefix};
use crate::text::{
    backslash_count, chars_of, lemma_segment_state_after_backslash, lemma_segment_state_run,
    path_segments, run_before, strings_view,
};
use crate::tree::{is_prefix, lemma_prefix_cons};

verus! {

broadcast use vstd::std_specs::hash::group_hash_axioms;

/// A node of the trie of folder paths. `identities` holds the ids of the
/// identities with a grant at or below this node.
pub struct SplitTrieNode {
    pub children: Vec<(String, SplitTrieNode)>,
    pub identities: HashSet<u32>,
}

impl SplitTrieNode {
    /// Children are sorted by name at every level.
    pub open spec fn wf(&self) -> bool
        decreases self,
    {
        &&& sorted(self.children@)
        &&& forall|i: int| 0 <= i < self.children@.len() ==> (#[trigger] self.children@[i]).1.wf()
    }

    /// The node reached from this one by following the folder names `p`.
    pub open spec fn node_at(&self, p: Seq<Seq<char>>) -> Option<SplitTrieNode>
        decreases p.len(),
    {
        if p.len() == 0 {
            Some(*self)
        } else {
            match lookup(self.children@, p[0]) {
                Some(c) => c.node_at(p.drop_first()),
                None => None,
            }
        }
    }

    /// There is a node at path `p`.
    pub open spec fn has_node(&self, p: Seq<Seq<char>>) -> bool {
        self.node_at(p) is Some
    }

    /// The identity ids recorded at path `p`.
    pub open spec fn ids_at(&self, p: Seq<Seq<char>>) -> Set<u32> {
        match self.node_at(p) {
            Some(n) => n.identities@,
            None => Set::empty(),
        }
    }

    /// Following one more name from a path.
    pub proof fn lemma_node_at_push(&self, p: Seq<Seq<char>>, x: Seq<char>)
        ensures
            self.node_at(p.push(x)) == match self.node_at(p) {
                Some(n) => lookup(n.children@, x),
                None => None,
            },
        decreases p.len(),
    {
        if p.len() == 0 {
            assert(p.push(x).drop_first() =~= Seq::<Seq<char>>::empty());
            assert(p.push(x)[0] == x);
            match lookup(self.children@, x) {
                Some(c) => {
                    assert(c.node_at(p.push(x).drop_first()) == Some(c));
                },
                None => {},
            }
        } else {
            assert(p.push(x).drop_first() =~= p.drop_first().push(x));
            assert(p.push(x)[0] == p[0]);
            match lookup(self.children@, p[0]) {
                Some(c) => {
                    c.lemma_node_at_push(p.drop_first(), x);
                },
                None => {},
            }
        }
    }

    /// A node with no children and no identities.
    pub fn new() -> (t: Self)
        ensures
            t.wf(),
            t.children@.len() == 0,
            t.identities@ == Set::<u32>::empty(),
            forall|p: Seq<Seq<char>>| #[trigger] t.has_node(p) <==> p.len() == 0,
            forall|p: Seq<Seq<char>>| #[trigger] t.ids_at(p) == Set::<u32>::empty(),
    {
        let t = SplitTrieNode { children: Vec::new(), identities: HashSet::new() };
        assert forall|p: Seq<Seq<char>>| #[trigger] t.has_node(p) <==> p.len() == 0 by {
            if p.len() > 0 {
                assert(!has_key(t.children@, p[0]));
            }
        }
        assert forall|p: Seq<Seq<char>>| #[trigger] t.ids_at(p) == Set::<u32>::empty() by {
            if p.len() > 0 {
                assert(!has_key(t.children@, p[0]));
            }
        }
        t
    }

    /// Records identity `id` at every node along `segments[from..]`,
    /// creating the folders on the way as needed.
    pub fn insert(&mut self, segments: &Vec<String>, from: usize, id: u32)
        requires
            old(self).wf(),
            from <= segments@.len(),
        ensures
            final(self).wf(),
            forall|p: Seq<Seq<char>>| #[trigger]
                final(self).has_node(p) == (old(self).has_node(p) || is_prefix(
                    p,
                    strings_view(segments@).skip(from as int),
                )),
            forall|p: Seq<Seq<char>>| #[trigger]
                final(self).ids_at(p) == if is_prefix(p, strings_view(segments@).skip(from as int)) {
                    old(self).ids_at(p).insert(id)
                } else {
                    old(self).ids_at(p)
                },
        decreases segments@.len() - from,
    {
        let ghost segs = strings_view(segments@).skip(from as int);
        let ghost old_self = *self;
        self.identities.insert(id);
        let ghost after_id = *self;
        proof {
            assert(after_id.children == old_self.children);
        }
        if from == segments.len() {
            proof {
                assert(segs =~= Seq::<Seq<char>>::empty());
                assert forall|p: Seq<Seq<char>>| #[trigger]
                    self.has_node(p) == (old_self.has_node(p) || is_prefix(p, segs)) by {
                    if p.len() > 0 {
                        assert(self.children@ == old_self.children@);
                    } else {
                        assert(segs.take(0) =~= p);
                    }
                }
                assert forall|p: Seq<Seq<char>>| #[trigger]
                    self.ids_at(p) == if is_prefix(p, segs) {
                        old_self.ids_at(p).insert(id)
                    } else {
                        old_self.ids_at(p)
                    } by {
                    if p.len() > 0 {
                        assert(self.children@ == old_self.children@);
                    } else {
                        assert(segs.take(0) =~= p);
                    }
                }
            }
            return ;
        }
        let name = &segments[from];
        let ghost nm = name@;
        assert(segs[0] == nm);
        let i = match find_key(&self.children, name.as_str()) {
            Ok(i) => i,
            Err(i) => {
                insert_entry(&mut self.children, i, name.clone(), SplitTrieNode::new());
                i
            },
        };
        let ghost mid = *self;
        proof {
            lemma_lookup_index(mid.children@, i as int);
            assert forall|j: int| 0 <= j < mid.children@.len() implies (#[trigger] mid.children@[j]).1.wf() by {
                if !has_key(old_self.children@, nm) {
                    if j < i {
                        assert(mid.children@[j] == old_self.children@[j]);
                    } else if j > i {
                        assert(mid.children@[j] == old_self.children@[j - 1]);
                    }
                }
            }
        }
        let ghost c0 = mid.children@[i as int].1;
        let child = &mut self.children[i].1;
        child.insert(segments, from + 1, id);
        proof {
            let c1 = self.children@[i as int].1;
            assert(self.children@ == mid.children@.update(i as int, (mid.children@[i as int].0, c1)));
            lemma_lookup_update(mid.children@, i as int, c1);
            assert(strings_view(segments@).skip(from + 1) =~= segs.drop_first());
            assert forall|j: int| 0 <= j < self.children@.len() implies (#[trigger] self.children@[j]).1.wf() by {
                if j != i {
                    assert(self.children@[j] == mid.children@[j]);
                }
            }
            assert forall|p: Seq<Seq<char>>| #[trigger]
                self.has_node(p) == (old_self.has_node(p) || is_prefix(p, segs)) by {
                if p.len() > 0 {
                    lemma_prefix_cons(p, segs);
                    if p[0] == nm {
                        let q = p.drop_first();
                        assert(c1.has_node(q) == (c0.has_node(q) || is_prefix(q, segs.drop_first())));
                        assert(lookup(self.children@, nm) == Some(c1));
                        assert(self.has_node(p) == c1.has_node(q));
                        if has_key(old_self.children@, nm) {
                            assert(lookup(old_self.children@, nm) == Some(c0));
                            assert(old_self.has_node(p) == c0.has_node(q));
                        } else {
                            assert(c0.has_node(q) == (q.len() == 0));
                            assert(!old_self.has_node(p));
                            if q.len() == 0 {
                                assert(segs.drop_first().take(0) =~= q);
                                assert(is_prefix(q, segs.drop_first()));
                            }
                        }
                    } else {
                        if !has_key(old_self.children@, nm) {
                            assert(lookup(mid.children@, p[0]) == lookup(old_self.children@, p[0]));
                        }
                    }
                } else {
                    assert(segs.take(0) =~= p);
                }
            }
            assert forall|p: Seq<Seq<char>>| #[trigger]
                self.ids_at(p) == if is_prefix(p, segs) {
                    old_self.ids_at(p).insert(id)
                } else {
                    old_self.ids_at(p)
                } by {
                if p.len() > 0 {
                    lemma_prefix_cons(p, segs);
                    if p[0] == nm {
                        let q = p.drop_first();
                        assert(c1.ids_at(q) == if is_prefix(q, segs.drop_first()) {
                            c0.ids_at(q).insert(id)
                        } else {
                            c0.ids_at(q)
                        });
                        assert(lookup(self.children@, nm) == Some(c1));
                        assert(self.ids_at(p) == c1.ids_at(q));
                        if has_key(old_self.children@, nm) {
                            assert(lookup(old_self.children@, nm) == Some(c0));
                            assert(old_self.ids_at(p) == c0.ids_at(q));
                        } else {
                            assert(c0.ids_at(q) == Set::<u32>::empty());
                            assert(old_self.ids_at(p) == Set::<u32>::empty());
                        }
                    } else {
                        if !has_key(old_self.children@, nm) {
                            assert(lookup(mid.children@, p[0]) == lookup(old_self.children@, p[0]));
                        }
                    }
                } else {
                    assert(segs.take(0) =~= p);
                    assert(self.identities@ == after_id.identities@);
                }
            }
        }
    }

    /// Whether this node's grants cover every identity in the data.
    pub fn is_universal(&self, total_identities: usize) -> (r: bool)
        ensures
            r == (self.identities@.len() >= total_identities),
    {
        self.identities.len() >= total_identities
    }
}

/// The node at `p` has grants from at least `total` identities.
pub open spec fn universal_at(trie: SplitTrieNode, p: Seq<Seq<char>>, total: nat) -> bool {
    trie.ids_at(p).len() >= total
}

/// Whether the automatic split goes on past the backslash at position `j`
/// of `path`, for a trie given by which folder paths it `has` and which of
/// them are granted to every identity (`universal`): always when the folder
/// name just before the backslash is empty (as in the leading `\\` of a UNC
/// path) or the backslash is among the first `floor`; past those, only if
/// the folder above that name is universal and the trie has the folder it
/// names.
pub open spec fn step_accepted(
    path: Seq<char>,
    j: int,
    floor: nat,
    has: spec_fn(Seq<Seq<char>>) -> bool,
    universal: spec_fn(Seq<Seq<char>>) -> bool,
) -> bool {
    let run = run_before(path, j);
    ||| run == 0
    ||| backslash_count(path.take(j + 1)) <= floor
    ||| universal(path_segments(path.take(j - run))) && has(path_segments(path.take(j)))
}

/// `c` is where the automatic split with `floor` cuts `path`. When the
/// path has fewer than `floor` backslashes the whole path stays in the
/// folder, as with the fixed split. Otherwise the cut is right after a
/// backslash (or at 0), every backslash before `c` is one the split goes on
/// past, and the first backslash from `c` on, if any, is one it stops at.
/// With `floor` 0 the split thus extends from the root.
pub open spec fn is_auto_cut(
    path: Seq<char>,
    floor: nat,
    has: spec_fn(Seq<Seq<char>>) -> bool,
    universal: spec_fn(Seq<Seq<char>>) -> bool,
    c: int,
) -> bool {
    if backslash_count(path) < floor {
        c == path.len()
    } else {
        &&& 0 <= c <= path.len()
        &&& (c == 0 || path[c - 1] == '\\')
        &&& forall|j: int|
            0 <= j < c && path[j] == '\\' ==> #[trigger] step_accepted(path, j, floor, has, universal)
        &&& forall|j: int|
            c <= j < path.len() && path[j] == '\\' && (forall|t: int| c <= t < j ==> path[t] != '\\')
                ==> !#[trigger] step_accepted(path, j, floor, has, universal)
    }
}

/// Which folder paths the trie has.
pub open spec fn has_fn(trie: SplitTrieNode) -> spec_fn(Seq<Seq<char>>) -> bool {
    |q: Seq<Seq<char>>| trie.has_node(q)
}

/// Which folder paths of the trie are granted to `total` identities.
pub open spec fn universal_fn(trie: SplitTrieNode, total: nat) -> spec_fn(Seq<Seq<char>>) -> bool {
    |q: Seq<Seq<char>>| universal_at(trie, q, total)
}

/// `path` cut in two at position `at`.
fn cut_at<'a>(path: &'a str, at: usize) -> (r: (&'a str, &'a str))
    requires
        at <= path@.len(),
    ensures
        r.0@ == path@.take(at as int),
        r.1@ == path@.skip(at as int),
        r.0@ + r.1@ == path@,
{
    let n = path.unicode_len();
    let folder = path.substring_char(0, at);
    let other = path.substring_char(at, n);
    proof {
        assert(folder@ =~= path@.take(at as int));
        assert(other@ =~= path@.skip(at as int));
        assert(folder@ + other@ =~= path@);
    }
    (folder, other)
}

/// Like `split_folder`, but with `floor_depth` as a floor: past the first
/// `floor_depth` backslashes the folder keeps extending for as long as the
/// folder reached so far is granted to every identity in the data, and
/// stops where that is no longer so, which is where access starts to differ
/// between users, or where the trie lacks the next folder.
pub fn auto_split_folder<'a>(
    path: &'a str,
    floor_depth: usize,
    trie: &SplitTrieNode,
    total_identities: usize,
) -> (r: (&'a str, &'a str))
    requires
        trie.wf(),
    ensures
        r.0@ + r.1@ == path@,
        is_auto_cut(
            path@,
            floor_depth as nat,
            has_fn(*trie),
            universal_fn(*trie, total_identities as nat),
            r.0@.len() as int,
        ),
{
    let cs = chars_of(path);
    let n = cs.len();
    let ghost floor = floor_depth as nat;
    let ghost total = total_identities as nat;
    let ghost in_trie = has_fn(*trie);
    let ghost shared = universal_fn(*trie, total);
    let mut node: Option<&SplitTrieNode> = Some(trie);
    let mut count: usize = 0;
    let mut seg_start: usize = 0;
    let mut i: usize = 0;
    proof {
        assert(path@.take(0) =~= Seq::<char>::empty());
        assert(path_segments(path@.take(0)) =~= Seq::<Seq<char>>::empty());
    }
    while i < n
        invariant
            cs@ == path@,
            n == path@.len(),
            trie.wf(),
            floor == floor_depth as nat,
            total == total_identities as nat,
            in_trie == has_fn(*trie),
            shared == universal_fn(*trie, total),
            0 <= seg_start <= i <= n,
            seg_start == 0 || path@[seg_start - 1] == '\\',
            forall|t: int| seg_start <= t < i ==> path@[t] != '\\',
            count == backslash_count(path@.take(i as int)),
            count <= i,
            match node {
                Some(t) => trie.node_at(path_segments(path@.take(seg_start as int))) == Some(*t) && t.wf(),
                None => trie.node_at(path_segments(path@.take(seg_start as int))) is None,
            },
            forall|j: int|
                0 <= j < seg_start && path@[j] == '\\' ==> #[trigger] step_accepted(
                    path@,
                    j,
                    floor,
                    in_trie,
                    shared,
                ),
        decreases n - i,
    {
        proof {
            crate::model::lemma_backslash_count_step(path@, i as int);
        }
        if cs[i] == '\\' {
            count = count + 1;
            proof {
                lemma_segment_state_run(path@, seg_start as int, i as int);
                lemma_segment_state_after_backslash(path@, i as int);
            }
            if seg_start < i {
                let segment = path.substring_char(seg_start, i);
                let ghost before = path_segments(path@.take(seg_start as int));
                proof {
                    assert(path_segments(path@.take(i as int)) == before.push(segment@));
                    trie.lemma_node_at_push(before, segment@);
                    assert(run_before(path@, i as int) == i - seg_start);
                    assert(path@.take(i - run_before(path@, i as int)) == path@.take(seg_start as int));
                }
                if count <= floor_depth {
                    // Within the floor the folder always extends; the trie
                    // is only followed for what lies past it.
                    node = match node {
                        Some(t) => match find_key(&t.children, segment) {
                            Ok(k) => {
                                proof {
                                    lemma_lookup_index(t.children@, k as int);
                                    assert(t.children@[k as int].1.wf());
                                }
                                Some(&t.children[k].1)
                            },
                            Err(_) => None,
                        },
                        None => None,
                    };
                    assert(step_accepted(path@, i as int, floor, in_trie, shared));
                } else {
                    let next = match node {
                        Some(t) => {
                            let everyone = t.is_universal(total_identities);
                            proof {
                                assert(trie.ids_at(before) == t.identities@);
                                assert(everyone == shared(before));
                            }
                            if everyone {
                                match find_key(&t.children, segment) {
                                    Ok(k) => {
                                        proof {
                                            lemma_lookup_index(t.children@, k as int);
                                            assert(t.children@[k as int].1.wf());
                                            assert(in_trie(before.push(segment@)));
                                        }
                                        Some(&t.children[k].1)
                                    },
                                    Err(_) => {
                                        assert(!in_trie(before.push(segment@)));
                                        None
                                    },
                                }
                            } else {
                                None
                            }
                        },
                        None => {
                            assert(!in_trie(before.push(segment@)));
                            None
                        },
                    };
                    match next {
                        Some(c) => {
                            node = Some(c);
                            assert(step_accepted(path@, i as int, floor, in_trie, shared));
                        },
                        None => {
                            proof {
                                assert(backslash_count(path@.take(i + 1)) == count);
                                assert(!step_accepted(path@, i as int, floor, in_trie, shared));
                                crate::model::lemma_backslash_count_prefix(path@, i + 1);
                            }
                            return cut_at(path, seg_start);
                        },
                    }
                }
            } else {
                assert(step_accepted(path@, i as int, floor, in_trie, shared));
            }
            seg_start = i + 1;
        }
        i = i + 1;
    }
    proof {
        assert(path@.take(n as int) =~= path@);
    }
    if count < floor_depth {
        return cut_at(path, n);
    }
    cut_at(path, seg_start)
}

/// There is a first backslash in `path` from position `c` on, no later
/// than `f`, when `path[f]` is one.
proof fn lemma_first_backslash(path: Seq<char>, c: int, f: int) -> (j: int)
    requires
        0 <= c <= f < path.len(),
        path[f] == '\\',
    ensures
        c <= j <= f,
        path[j] == '\\',
        forall|t: int| c <= t < j ==> path[t] != '\\',
    decreases f - c,
{
    if path[c] == '\\' {
        c
    } else {
        lemma_first_backslash(path, c + 1, f)
    }
}

/// The split depth is a floor for the automatic split: the folder the
/// fixed split gives is always a prefix of the automatic folder.
pub proof fn lemma_auto_split_extends_fixed(
    path: Seq<char>,
    floor: nat,
    has: spec_fn(Seq<Seq<char>>) -> bool,
    universal: spec_fn(Seq<Seq<char>>) -> bool,
    c: int,
    folder: Seq<char>,
    other: Seq<char>,
)
    requires
        is_auto_cut(path, floor, has, universal, c),
        is_fixed_split(path, floor, folder, other),
    ensures
        folder.len() <= c,
        folder == path.take(folder.len() as int),
{
    let f = folder.len() as int;
    assert(path.take(f) =~= folder);
    if backslash_count(path) < floor {
        assert(other.len() == 0);
        assert(folder =~= path);
    } else if c < f {
        assert(folder.last() == '\\');
        let j = lemma_first_backslash(path, c, f - 1);
        assert(path.take(f).take(j + 1) =~= path.take(j + 1));
        lemma_backslash_count_prefix(path.take(f), j + 1);
        assert(step_accepted(path, j, floor, has, universal));
        assert(false);
    }
}

/// A higher floor never gives a shorter folder: the automatic cut only
/// moves right as the floor grows.
pub proof fn lemma_auto_split_monotone(
    path: Seq<char>,
    floor1: nat,
    floor2: nat,
    has: spec_fn(Seq<Seq<char>>) -> bool,
    universal: spec_fn(Seq<Seq<char>>) -> bool,
    c1: int,
    c2: int,
)
    requires
        floor1 <= floor2,
        is_auto_cut(path, floor1, has, universal, c1),
        is_auto_cut(path, floor2, has, universal, c2),
    ensures
        c1 <= c2,
{
    if backslash_count(path) >= floor2 && c2 < c1 {
        if backslash_count(path) < floor1 {
            assert(false);
        }
        let j = lemma_first_backslash(path, c2, c1 - 1);
        assert(step_accepted(path, j, floor1, has, universal));
        assert(step_accepted(path, j, floor2, has, universal));
        assert(false);
    }
}

} // verus!

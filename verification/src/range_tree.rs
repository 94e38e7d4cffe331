//! Pending-chunk tracker: an interval tree over a window of chunk indices.
//!
//! The tree records, for a closed window `[start, end]` of chunk indices,
//! which indices have not yet been confirmed received.  Nodes live in a
//! growable arena (`tree_vec`) and refer to each other by array index.
//! A node is either an unresolved interval (a leaf, holding a contiguous
//! run of missing indices) or a split point (an inner node whose single
//! index has already been resolved and whose children partition the
//! space strictly below and strictly above it).  The `intervals` set
//! holds the arena indices of every node that still represents missing
//! work; the abstract state of the whole tracker is the set of missing
//! chunk indices, and `add_packet(i)` removes exactly `i` from it.

use std::collections::HashSet;
use vstd::prelude::*;

verus! {

broadcast use vstd::std_specs::hash::group_hash_axioms;

/// One tree node: a closed range `[start, end]` of chunk indices,
/// links to its parent and children by arena index, and a height
/// field used for rebalancing.
#[derive(Clone, Copy, Debug)]
pub struct Node {
    pub start: usize,
    pub end: usize,
    pub parent: Option<usize>,
    pub left: Option<usize>,
    pub right: Option<usize>,
    pub depth: usize,
}

/// The set of integers in the closed range `[lo, hi]`.
pub open spec fn range_set(lo: int, hi: int) -> Set<int> {
    Set::new(|i: int| lo <= i <= hi)
}

/// A leaf holds no children.
spec fn node_leaf(n: Node) -> bool {
    n.left is None && n.right is None
}

/// An inner node (a split point) holds both children.
spec fn node_inner(n: Node) -> bool {
    n.left is Some && n.right is Some
}

/// Well-formedness of the subtree rooted at arena index `j`, responsible
/// for the region `[lo, hi]` of chunk indices: the node's range lies in
/// the region; a leaf has height 1 and, when it spans more than one
/// index, is registered in `intervals`; an inner node is a resolved
/// split point (never in `intervals`) whose children cover the region
/// strictly below and strictly above the split and point back to it.
/// Heights are bounded by the region size, which keeps their
/// recomputation free of overflow.
spec fn subtree_ok(v: Seq<Node>, ivs: Set<usize>, j: int, lo: int, hi: int) -> bool
    decreases hi - lo,
{
    &&& 0 <= j < v.len()
    &&& lo <= v[j].start
    &&& v[j].start <= v[j].end
    &&& v[j].end <= hi
    &&& v[j].depth >= 1
    &&& 2 * v[j].depth <= hi - lo + 2
    &&& if node_leaf(v[j]) {
        &&& v[j].depth == 1
        &&& (v[j].start < v[j].end ==> ivs.contains(j as usize))
    } else if node_inner(v[j]) {
        let s = v[j].start as int;
        let l = v[j].left.unwrap() as int;
        let r = v[j].right.unwrap() as int;
        &&& v[j].start == v[j].end
        &&& !ivs.contains(j as usize)
        &&& lo < s
        &&& s < hi
        &&& 0 <= l < v.len()
        &&& 0 <= r < v.len()
        &&& v[l].parent == Some(j as usize)
        &&& v[r].parent == Some(j as usize)
        &&& subtree_ok(v, ivs, l, lo, s - 1)
        &&& subtree_ok(v, ivs, r, s + 1, hi)
    } else {
        false
    }
}

/// The set of arena indices that make up the subtree rooted at `j`.
spec fn subtree_idx(v: Seq<Node>, j: int, lo: int, hi: int) -> Set<int>
    decreases hi - lo,
{
    if 0 <= j < v.len() && node_inner(v[j]) && v[j].start == v[j].end && lo < v[j].start
        && v[j].start < hi {
        let s = v[j].start as int;
        set![j].union(subtree_idx(v, v[j].left.unwrap() as int, lo, s - 1)).union(
            subtree_idx(v, v[j].right.unwrap() as int, s + 1, hi),
        )
    } else {
        set![j]
    }
}

/// The chunk indices still missing according to the nodes drawn from the
/// arena index set `s`: every index covered by a node of `s` that is
/// registered in `intervals`.
spec fn pending_in(v: Seq<Node>, ivs: Set<usize>, s: Set<int>) -> Set<int> {
    Set::new(
        |i: int|
            exists|k: int|
                #[trigger] s.contains(k) && 0 <= k < v.len() && ivs.contains(k as usize)
                    && v[k].start <= i <= v[k].end,
    )
}

/// The set of all arena indices of an arena of length `len`.
spec fn all_idx(len: int) -> Set<int> {
    Set::new(|k: int| 0 <= k < len)
}

/// The missing set left after a sequence of arrivals is marked, one by
/// one, on a tracker whose missing set starts as `m`: each call to
/// `add_packet` removes exactly the delivered index.
pub open spec fn missing_after(m: Set<int>, marks: Seq<int>) -> Set<int>
    decreases marks.len(),
{
    if marks.len() == 0 {
        m
    } else {
        missing_after(m.remove(marks[0]), marks.drop_first())
    }
}

/// After any sequence of arrivals, an index is missing exactly when it
/// was missing at the start and never delivered.
pub proof fn lemma_missing_after_marks(m: Set<int>, marks: Seq<int>)
    ensures
        forall|i: int| #[trigger]
            missing_after(m, marks).contains(i) <==> (m.contains(i) && !marks.contains(i)),
    decreases marks.len(),
{
    if marks.len() > 0 {
        lemma_missing_after_marks(m.remove(marks[0]), marks.drop_first());
        assert forall|i: int| #[trigger]
            missing_after(m, marks).contains(i) <==> (m.contains(i) && !marks.contains(i)) by {
            assert(missing_after(m, marks) == missing_after(
                m.remove(marks[0]),
                marks.drop_first(),
            ));
            assert(missing_after(m.remove(marks[0]), marks.drop_first()).contains(i) <==> (m.remove(
                marks[0],
            ).contains(i) && !marks.drop_first().contains(i)));
            assert(marks.contains(marks[0])) by {
                assert(marks[0] == marks[0]);
            }
            if marks.drop_first().contains(i) {
                let p = choose|p: int|
                    0 <= p < marks.drop_first().len() && marks.drop_first()[p] == i;
                assert(marks[p + 1] == i);
                assert(marks.contains(i));
            }
            if marks.contains(i) && i != marks[0] {
                let p = choose|p: int| 0 <= p < marks.len() && marks[p] == i;
                assert(p >= 1);
                assert(marks.drop_first()[p - 1] == i);
                assert(marks.drop_first().contains(i));
            }
        }
    }
}

/// Completeness: delivering every index of the window, in any order and
/// with any repetitions or strays mixed in, leaves nothing missing.
pub proof fn lemma_all_marked_complete(win_lo: int, win_hi: int, marks: Seq<int>)
    requires
        forall|i: int| win_lo <= i <= win_hi ==> marks.contains(i),
    ensures
        missing_after(range_set(win_lo, win_hi), marks).is_empty(),
{
    lemma_missing_after_marks(range_set(win_lo, win_hi), marks);
    assert(missing_after(range_set(win_lo, win_hi), marks) =~= Set::<int>::empty());
}

/// Every arena index of a well-formed subtree is in bounds, and the
/// range of every node of the subtree lies inside the subtree's region.
proof fn lemma_subtree_bounds(v: Seq<Node>, ivs: Set<usize>, j: int, lo: int, hi: int)
    requires
        subtree_ok(v, ivs, j, lo, hi),
    ensures
        subtree_idx(v, j, lo, hi).contains(j),
        forall|k: int| #[trigger]
            subtree_idx(v, j, lo, hi).contains(k) ==> 0 <= k < v.len() && lo <= v[k].start && v[k].start <= v[k].end && v[k].end <= hi,
    decreases hi - lo,
{
    if node_inner(v[j]) {
        let s = v[j].start as int;
        let l = v[j].left.unwrap() as int;
        let r = v[j].right.unwrap() as int;
        lemma_subtree_bounds(v, ivs, l, lo, s - 1);
        lemma_subtree_bounds(v, ivs, r, s + 1, hi);
    }
}

/// The pending set drawn from an index set only depends on the ranges
/// and interval-registration of the nodes it names.
proof fn lemma_pending_frame(
    v0: Seq<Node>,
    ivs0: Set<usize>,
    v1: Seq<Node>,
    ivs1: Set<usize>,
    s: Set<int>,
)
    requires
        forall|k: int| #[trigger]
            s.contains(k) ==> 0 <= k < v0.len() && k < v1.len() && v1[k].start == v0[k].start && v1[k].end == v0[k].end && (ivs1.contains(k as usize) <==> ivs0.contains(k as usize)),
    ensures
        pending_in(v1, ivs1, s) == pending_in(v0, ivs0, s),
{
    assert forall|i: int| pending_in(v1, ivs1, s).contains(i) implies pending_in(
        v0,
        ivs0,
        s,
    ).contains(i) by {
        let k = choose|k: int|
            #[trigger] s.contains(k) && 0 <= k < v1.len() && ivs1.contains(k as usize) && v1[k].start <= i <= v1[k].end;
        assert(s.contains(k) && 0 <= k < v0.len() && ivs0.contains(k as usize) && v0[k].start <= i
            <= v0[k].end);
    }
    assert forall|i: int| pending_in(v0, ivs0, s).contains(i) implies pending_in(
        v1,
        ivs1,
        s,
    ).contains(i) by {
        let k = choose|k: int|
            #[trigger] s.contains(k) && 0 <= k < v0.len() && ivs0.contains(k as usize) && v0[k].start <= i <= v0[k].end;
        assert(s.contains(k) && 0 <= k < v1.len() && ivs1.contains(k as usize) && v1[k].start <= i
            <= v1[k].end);
    }
    assert(pending_in(v1, ivs1, s) =~= pending_in(v0, ivs0, s));
}

/// The pending set distributes over union of index sets.
proof fn lemma_pending_union(v: Seq<Node>, ivs: Set<usize>, s1: Set<int>, s2: Set<int>)
    ensures
        pending_in(v, ivs, s1.union(s2)) == pending_in(v, ivs, s1).union(pending_in(v, ivs, s2)),
{
    assert forall|i: int| pending_in(v, ivs, s1.union(s2)).contains(i) implies pending_in(
        v,
        ivs,
        s1,
    ).union(pending_in(v, ivs, s2)).contains(i) by {
        let k = choose|k: int|
            #[trigger] s1.union(s2).contains(k) && 0 <= k < v.len() && ivs.contains(k as usize)
                && v[k].start <= i <= v[k].end;
        if s1.contains(k) {
            assert(pending_in(v, ivs, s1).contains(i));
        } else {
            assert(s2.contains(k));
            assert(pending_in(v, ivs, s2).contains(i));
        }
    }
    assert forall|i: int|
        pending_in(v, ivs, s1).union(pending_in(v, ivs, s2)).contains(i) implies pending_in(
        v,
        ivs,
        s1.union(s2),
    ).contains(i) by {
        if pending_in(v, ivs, s1).contains(i) {
            let k = choose|k: int|
                #[trigger] s1.contains(k) && 0 <= k < v.len() && ivs.contains(k as usize) && v[k].start <= i <= v[k].end;
            assert(s1.union(s2).contains(k));
        } else {
            let k = choose|k: int|
                #[trigger] s2.contains(k) && 0 <= k < v.len() && ivs.contains(k as usize) && v[k].start <= i <= v[k].end;
            assert(s1.union(s2).contains(k));
        }
    }
    assert(pending_in(v, ivs, s1.union(s2)) =~= pending_in(v, ivs, s1).union(
        pending_in(v, ivs, s2),
    ));
}

/// The pending set of a single node is its range when the node is
/// registered in `intervals`, and empty otherwise.
proof fn lemma_pending_single(v: Seq<Node>, ivs: Set<usize>, k: int)
    requires
        0 <= k < v.len(),
    ensures
        ivs.contains(k as usize) ==> pending_in(v, ivs, set![k]) == range_set(
            v[k].start as int,
            v[k].end as int,
        ),
        !ivs.contains(k as usize) ==> pending_in(v, ivs, set![k]) == Set::<int>::empty(),
{
    if ivs.contains(k as usize) {
        assert forall|i: int| range_set(v[k].start as int, v[k].end as int).contains(i) implies pending_in(
            v,
            ivs,
            set![k],
        ).contains(i) by {
            assert(set![k].contains(k));
        }
        assert(pending_in(v, ivs, set![k]) =~= range_set(v[k].start as int, v[k].end as int));
    } else {
        assert(pending_in(v, ivs, set![k]) =~= Set::<int>::empty());
    }
}

/// Equality of nodes up to the parent link: a subtree never constrains
/// the parent field of its own root, so a re-parented root leaves the
/// subtree well-formed.
spec fn node_eq_mod_parent(a: Node, b: Node) -> bool {
    a.start == b.start && a.end == b.end && a.left == b.left && a.right == b.right && a.depth
        == b.depth
}

/// Every chunk index pending in a subtree lies inside its region.
proof fn lemma_pending_in_region(v: Seq<Node>, ivs: Set<usize>, j: int, lo: int, hi: int)
    requires
        subtree_ok(v, ivs, j, lo, hi),
    ensures
        forall|i: int| #[trigger]
            pending_in(v, ivs, subtree_idx(v, j, lo, hi)).contains(i) ==> lo <= i <= hi,
{
    lemma_subtree_bounds(v, ivs, j, lo, hi);
    assert forall|i: int|
        pending_in(v, ivs, subtree_idx(v, j, lo, hi)).contains(i) implies lo <= i <= hi by {
        let k = choose|k: int|
            #[trigger] subtree_idx(v, j, lo, hi).contains(k) && 0 <= k < v.len() && ivs.contains(
                k as usize,
            ) && v[k].start <= i <= v[k].end;
    }
}

/// A subtree is untouched by changes to the arena and the interval set
/// that leave all of its own nodes alone (its root may be re-parented).
proof fn lemma_subtree_frame(
    v0: Seq<Node>,
    ivs0: Set<usize>,
    v1: Seq<Node>,
    ivs1: Set<usize>,
    j: int,
    lo: int,
    hi: int,
)
    requires
        subtree_ok(v0, ivs0, j, lo, hi),
        v1.len() >= v0.len(),
        node_eq_mod_parent(v1[j], v0[j]),
        forall|k: int| #[trigger]
            subtree_idx(v0, j, lo, hi).contains(k) ==> k == j || v1[k] == v0[k],
        forall|k: int| #[trigger]
            subtree_idx(v0, j, lo, hi).contains(k) ==> (ivs1.contains(k as usize)
                <==> ivs0.contains(k as usize)),
    ensures
        subtree_ok(v1, ivs1, j, lo, hi),
        subtree_idx(v1, j, lo, hi) == subtree_idx(v0, j, lo, hi),
        pending_in(v1, ivs1, subtree_idx(v0, j, lo, hi)) == pending_in(
            v0,
            ivs0,
            subtree_idx(v0, j, lo, hi),
        ),
    decreases hi - lo,
{
    lemma_subtree_bounds(v0, ivs0, j, lo, hi);
    assert(subtree_idx(v0, j, lo, hi).contains(j));
    if node_inner(v0[j]) {
        let s = v0[j].start as int;
        let l = v0[j].left.unwrap() as int;
        let r = v0[j].right.unwrap() as int;
        assert(subtree_idx(v0, j, lo, hi) == set![j].union(subtree_idx(v0, l, lo, s - 1)).union(
            subtree_idx(v0, r, s + 1, hi),
        ));
        assert(forall|k: int| #[trigger]
            subtree_idx(v0, l, lo, s - 1).contains(k) ==> subtree_idx(v0, j, lo, hi).contains(k));
        assert(forall|k: int| #[trigger]
            subtree_idx(v0, r, s + 1, hi).contains(k) ==> subtree_idx(v0, j, lo, hi).contains(k));
        lemma_subtree_bounds(v0, ivs0, l, lo, s - 1);
        lemma_subtree_bounds(v0, ivs0, r, s + 1, hi);
        assert(l != j && r != j) by {
            assert(subtree_idx(v0, l, lo, s - 1).contains(l));
            assert(subtree_idx(v0, r, s + 1, hi).contains(r));
        }
        lemma_subtree_frame(v0, ivs0, v1, ivs1, l, lo, s - 1);
        lemma_subtree_frame(v0, ivs0, v1, ivs1, r, s + 1, hi);
        assert(v1[l] == v0[l] && v1[r] == v0[r]);
        assert(subtree_ok(v1, ivs1, j, lo, hi));
        assert(subtree_idx(v1, j, lo, hi) =~= subtree_idx(v0, j, lo, hi));
    } else {
        assert(subtree_ok(v1, ivs1, j, lo, hi));
        assert(subtree_idx(v1, j, lo, hi) =~= subtree_idx(v0, j, lo, hi));
    }
    lemma_pending_frame(v0, ivs0, v1, ivs1, subtree_idx(v0, j, lo, hi));
}

/// The pending-chunk tracker: an arena of nodes, the arena index of the
/// root, and the set of arena indices of nodes that still carry
/// unresolved intervals.  The window bounds are kept as ghost state.
pub struct RangeTree {
    root: usize,
    intervals: HashSet<usize>,
    tree_vec: Vec<Node>,
    window: Ghost<(int, int)>,
}

impl RangeTree {
    /// The set of chunk indices not yet marked as arrived.
    pub closed spec fn missing(self) -> Set<int> {
        pending_in(self.tree_vec@, self.intervals@, all_idx(self.tree_vec@.len() as int))
    }

    /// The set of arena indices of nodes carrying unresolved intervals.
    pub closed spec fn intervals_set(self) -> Set<usize> {
        self.intervals@
    }

    /// The arena contents.
    pub closed spec fn nodes(self) -> Seq<Node> {
        self.tree_vec@
    }

    /// Lower bound of the window this tracker was built over.
    pub closed spec fn win_lo(self) -> int {
        self.window@.0
    }

    /// Upper bound of the window this tracker was built over.
    pub closed spec fn win_hi(self) -> int {
        self.window@.1
    }

    /// Structural invariant: the arena forms a single well-formed tree
    /// over the window, every arena index belongs to it, and `intervals`
    /// only names arena indices.
    pub closed spec fn wf(self) -> bool {
        let v = self.tree_vec@;
        &&& 0 <= self.win_lo() <= self.win_hi() <= usize::MAX
        &&& (self.root as int) < v.len()
        &&& v[self.root as int].parent is None
        &&& subtree_ok(v, self.intervals@, self.root as int, self.win_lo(), self.win_hi())
        &&& subtree_idx(v, self.root as int, self.win_lo(), self.win_hi()) == all_idx(
            v.len() as int,
        )
        &&& forall|k: usize| #[trigger] self.intervals@.contains(k) ==> (k as int) < v.len()
    }

    /// Build a tracker whose window is the closed range `[start, end]`:
    /// a single unresolved interval node as root, with every index of
    /// the window still missing.
    pub fn new(start: usize, end: usize) -> (rt: RangeTree)
        requires
            start <= end,
        ensures
            rt.wf(),
            rt.missing() == range_set(start as int, end as int),
            rt.win_lo() == start,
            rt.win_hi() == end,
    {
        let mut tree_vec: Vec<Node> = Vec::new();
        tree_vec.push(
            Node { start, end, parent: None, left: None, right: None, depth: 1 },
        );
        let mut intervals: HashSet<usize> = HashSet::new();
        intervals.insert(0);
        let rt = RangeTree {
            root: 0,
            intervals,
            tree_vec,
            window: Ghost((start as int, end as int)),
        };
        proof {
            assert(subtree_idx(rt.tree_vec@, 0, start as int, end as int) =~= all_idx(1));
            assert forall|i: int| range_set(start as int, end as int).contains(i) implies rt.missing().contains(
                i,
            ) by {
                assert(all_idx(1).contains(0) && rt.intervals@.contains(0usize)
                    && rt.tree_vec@[0].start <= i <= rt.tree_vec@[0].end);
            }
            assert(rt.missing() =~= range_set(start as int, end as int));
        }
        rt
    }

    /// One AVL-style rotation at arena index `i`: when the recorded
    /// heights of the two children differ, the deeper child is lifted to
    /// the root of the subtree, the displaced middle subtree is
    /// re-attached under `i`, and `i`'s height is recomputed.  Returns
    /// the arena index of the subtree's new root (the caller re-attaches
    /// it).  Ranges, the intervals set, and hence the missing set are
    /// unchanged; only links and heights move.
    #[verifier::rlimit(100)]
    fn balance(&mut self, i: usize, Ghost(lo): Ghost<int>, Ghost(hi): Ghost<int>) -> (jr: usize)
        requires
            subtree_ok(old(self).tree_vec@, old(self).intervals@, i as int, lo, hi),
            0 <= lo,
            hi <= usize::MAX,
        ensures
            final(self).intervals == old(self).intervals,
            final(self).root == old(self).root,
            final(self).window == old(self).window,
            final(self).tree_vec@.len() == old(self).tree_vec@.len(),
            forall|k: int|
                0 <= k < old(self).tree_vec@.len() && !subtree_idx(
                    old(self).tree_vec@,
                    i as int,
                    lo,
                    hi,
                ).contains(k) ==> final(self).tree_vec@[k] == old(self).tree_vec@[k],
            forall|k: int|
                0 <= k < old(self).tree_vec@.len() ==> final(self).tree_vec@[k].start == old(self).tree_vec@[k].start && final(self).tree_vec@[k].end == old(self).tree_vec@[k].end,
            subtree_ok(final(self).tree_vec@, final(self).intervals@, jr as int, lo, hi),
            subtree_idx(final(self).tree_vec@, jr as int, lo, hi) == subtree_idx(
                old(self).tree_vec@,
                i as int,
                lo,
                hi,
            ),
            final(self).tree_vec@[jr as int].parent == old(self).tree_vec@[i as int].parent,
            pending_in(
                final(self).tree_vec@,
                final(self).intervals@,
                subtree_idx(old(self).tree_vec@, i as int, lo, hi),
            ) == pending_in(
                old(self).tree_vec@,
                old(self).intervals@,
                subtree_idx(old(self).tree_vec@, i as int, lo, hi),
            ),
    {
        let ghost v0 = self.tree_vec@;
        let ghost ivs0 = self.intervals@;
        let ghost s0 = subtree_idx(v0, i as int, lo, hi);
        proof {
            lemma_subtree_bounds(v0, ivs0, i as int, lo, hi);
        }
        let nl = self.tree_vec[i].left;
        let nr = self.tree_vec[i].right;
        let ld = match nl {
            Some(l) => self.tree_vec[l].depth,
            None => 0,
        };
        let rd = match nr {
            Some(r) => self.tree_vec[r].depth,
            None => 0,
        };
        if ld > rd {
            // the left child is the deeper one; it must be an inner node,
            // since the right child's height is at least 1 and a leaf has
            // height exactly 1
            let l = nl.unwrap();
            let ghost s = v0[i as int].start as int;
            let ghost t = v0[l as int].start as int;
            let ghost ir_g = v0[i as int].right.unwrap() as int;
            let ghost ll = v0[l as int].left.unwrap() as int;
            proof {
                assert(node_inner(v0[i as int]));
                assert(subtree_ok(v0, ivs0, l as int, lo, s - 1));
                assert(subtree_ok(v0, ivs0, ir_g, s + 1, hi));
                assert(v0[ir_g].depth >= 1);
                assert(v0[l as int].depth >= 2);
                assert(node_inner(v0[l as int]));
                assert(subtree_ok(v0, ivs0, ll, lo, t - 1));
                assert(subtree_ok(v0, ivs0, v0[l as int].right.unwrap() as int, t + 1, s - 1));
            }
            let rc = self.tree_vec[l].right.unwrap();
            let p = self.tree_vec[i].parent;
            self.tree_vec[i].left = Some(rc);
            self.tree_vec[rc].parent = Some(i);
            self.tree_vec[l].parent = p;
            self.tree_vec[l].right = Some(i);
            self.tree_vec[i].parent = Some(l);
            let ir = self.tree_vec[i].right.unwrap();
            let dl2 = self.tree_vec[rc].depth;
            let dr2 = self.tree_vec[ir].depth;
            proof {
                assert(2 * dl2 <= (s - 1) - (t + 1) + 2);
                assert(2 * dr2 <= hi - (s + 1) + 2);
            }
            let nd = if dl2 > dr2 {
                dl2 + 1
            } else {
                dr2 + 1
            };
            self.tree_vec[i].depth = nd;
            proof {
                let v1 = self.tree_vec@;
                lemma_subtree_bounds(v0, ivs0, ll, lo, t - 1);
                lemma_subtree_bounds(v0, ivs0, rc as int, t + 1, s - 1);
                lemma_subtree_bounds(v0, ivs0, ir_g, s + 1, hi);
                lemma_subtree_bounds(v0, ivs0, l as int, lo, s - 1);
                lemma_subtree_frame(v0, ivs0, v1, ivs0, ll, lo, t - 1);
                lemma_subtree_frame(v0, ivs0, v1, ivs0, rc as int, t + 1, s - 1);
                lemma_subtree_frame(v0, ivs0, v1, ivs0, ir_g, s + 1, hi);
                assert(subtree_ok(v1, ivs0, i as int, t + 1, hi));
                assert(subtree_ok(v1, ivs0, l as int, lo, hi));
                assert(subtree_idx(v1, i as int, t + 1, hi) == set![i as int].union(
                    subtree_idx(v1, rc as int, t + 1, s - 1),
                ).union(subtree_idx(v1, ir_g, s + 1, hi)));
                assert(subtree_idx(v1, l as int, lo, hi) == set![l as int].union(
                    subtree_idx(v1, ll, lo, t - 1),
                ).union(subtree_idx(v1, i as int, t + 1, hi)));
                assert(s0 == set![i as int].union(subtree_idx(v0, l as int, lo, s - 1)).union(
                    subtree_idx(v0, ir_g, s + 1, hi),
                ));
                assert(subtree_idx(v0, l as int, lo, s - 1) == set![l as int].union(
                    subtree_idx(v0, ll, lo, t - 1),
                ).union(subtree_idx(v0, rc as int, t + 1, s - 1)));
                assert(subtree_idx(v1, l as int, lo, hi) =~= s0);
                lemma_pending_frame(v0, ivs0, v1, ivs0, s0);
            }
            l
        } else if ld < rd {
            // mirror image: the right child is the deeper one
            let r = nr.unwrap();
            let ghost s = v0[i as int].start as int;
            let ghost t = v0[r as int].start as int;
            let ghost il_g = v0[i as int].left.unwrap() as int;
            let ghost rr = v0[r as int].right.unwrap() as int;
            proof {
                assert(node_inner(v0[i as int]));
                assert(subtree_ok(v0, ivs0, r as int, s + 1, hi));
                assert(subtree_ok(v0, ivs0, il_g, lo, s - 1));
                assert(v0[il_g].depth >= 1);
                assert(v0[r as int].depth >= 2);
                assert(node_inner(v0[r as int]));
                assert(subtree_ok(v0, ivs0, v0[r as int].left.unwrap() as int, s + 1, t - 1));
                assert(subtree_ok(v0, ivs0, rr, t + 1, hi));
            }
            let lc = self.tree_vec[r].left.unwrap();
            let p = self.tree_vec[i].parent;
            self.tree_vec[i].right = Some(lc);
            self.tree_vec[lc].parent = Some(i);
            self.tree_vec[r].parent = p;
            self.tree_vec[r].left = Some(i);
            self.tree_vec[i].parent = Some(r);
            let il = self.tree_vec[i].left.unwrap();
            let dl2 = self.tree_vec[il].depth;
            let dr2 = self.tree_vec[lc].depth;
            proof {
                assert(2 * dl2 <= (s - 1) - lo + 2);
                assert(2 * dr2 <= (t - 1) - (s + 1) + 2);
            }
            let nd = if dl2 > dr2 {
                dl2 + 1
            } else {
                dr2 + 1
            };
            self.tree_vec[i].depth = nd;
            proof {
                let v1 = self.tree_vec@;
                lemma_subtree_bounds(v0, ivs0, il_g, lo, s - 1);
                lemma_subtree_bounds(v0, ivs0, lc as int, s + 1, t - 1);
                lemma_subtree_bounds(v0, ivs0, rr, t + 1, hi);
                lemma_subtree_bounds(v0, ivs0, r as int, s + 1, hi);
                lemma_subtree_frame(v0, ivs0, v1, ivs0, il_g, lo, s - 1);
                lemma_subtree_frame(v0, ivs0, v1, ivs0, lc as int, s + 1, t - 1);
                lemma_subtree_frame(v0, ivs0, v1, ivs0, rr, t + 1, hi);
                assert(subtree_ok(v1, ivs0, i as int, lo, t - 1));
                assert(subtree_ok(v1, ivs0, r as int, lo, hi));
                assert(subtree_idx(v1, i as int, lo, t - 1) == set![i as int].union(
                    subtree_idx(v1, il_g, lo, s - 1),
                ).union(subtree_idx(v1, lc as int, s + 1, t - 1)));
                assert(subtree_idx(v1, r as int, lo, hi) == set![r as int].union(
                    subtree_idx(v1, i as int, lo, t - 1),
                ).union(subtree_idx(v1, rr, t + 1, hi)));
                assert(s0 == set![i as int].union(subtree_idx(v0, il_g, lo, s - 1)).union(
                    subtree_idx(v0, r as int, s + 1, hi),
                ));
                assert(subtree_idx(v0, r as int, s + 1, hi) == set![r as int].union(
                    subtree_idx(v0, lc as int, s + 1, t - 1),
                ).union(subtree_idx(v0, rr, t + 1, hi)));
                assert(subtree_idx(v1, r as int, lo, hi) =~= s0);
                lemma_pending_frame(v0, ivs0, v1, ivs0, s0);
            }
            r
        } else {
            // recorded heights already agree; nothing to do
            i
        }
    }

    /// Deliver chunk index `index` to the subtree rooted at arena index
    /// `j`, responsible for region `[lo, hi]`: narrow or split the
    /// interval leaf that still covers it, or change nothing when the
    /// index is already resolved or out of range.  Returns the arena
    /// index of the subtree's (possibly rotated) root together with
    /// whether the arena grew by a split.
    fn add_packet_at(
        &mut self,
        j: usize,
        index: usize,
        Ghost(lo): Ghost<int>,
        Ghost(hi): Ghost<int>,
    ) -> (res: (usize, bool))
        requires
            subtree_ok(old(self).tree_vec@, old(self).intervals@, j as int, lo, hi),
            forall|k: usize| #[trigger]
                old(self).intervals@.contains(k) ==> (k as int) < old(self).tree_vec@.len(),
            0 <= lo,
            hi <= usize::MAX,
        ensures
            final(self).root == old(self).root,
            final(self).window == old(self).window,
            final(self).tree_vec@.len() == old(self).tree_vec@.len() + (if res.1 {
                2int
            } else {
                0int
            }),
            forall|k: usize| #[trigger]
                final(self).intervals@.contains(k) ==> old(self).intervals@.contains(k) || old(self).tree_vec@.len() <= (k as int) < final(self).tree_vec@.len(),
            forall|k: int|
                0 <= k < old(self).tree_vec@.len() && !subtree_idx(
                    old(self).tree_vec@,
                    j as int,
                    lo,
                    hi,
                ).contains(k) ==> final(self).tree_vec@[k] == old(self).tree_vec@[k],
            forall|k: usize|
                !subtree_idx(old(self).tree_vec@, j as int, lo, hi).contains(k as int) && !(old(self).tree_vec@.len() <= (k as int) < final(self).tree_vec@.len()) ==> (final(self).intervals@.contains(k) <==> old(self).intervals@.contains(k)),
            subtree_ok(final(self).tree_vec@, final(self).intervals@, res.0 as int, lo, hi),
            subtree_idx(final(self).tree_vec@, res.0 as int, lo, hi) == subtree_idx(
                old(self).tree_vec@,
                j as int,
                lo,
                hi,
            ).union(
                Set::new(
                    |k: int| old(self).tree_vec@.len() <= k < final(self).tree_vec@.len(),
                ),
            ),
            final(self).tree_vec@[res.0 as int].parent == old(self).tree_vec@[j as int].parent,
            pending_in(
                final(self).tree_vec@,
                final(self).intervals@,
                subtree_idx(final(self).tree_vec@, res.0 as int, lo, hi),
            ) == pending_in(
                old(self).tree_vec@,
                old(self).intervals@,
                subtree_idx(old(self).tree_vec@, j as int, lo, hi),
            ).remove(index as int),
            !res.1 ==> res.0 == j,
            !pending_in(
                old(self).tree_vec@,
                old(self).intervals@,
                subtree_idx(old(self).tree_vec@, j as int, lo, hi),
            ).contains(index as int) ==> final(self).intervals@ == old(self).intervals@ && final(self).tree_vec@ == old(self).tree_vec@ && res.0 == j,
        decreases hi - lo, 1int,
    {
        let ghost v0 = self.tree_vec@;
        let ghost ivs0 = self.intervals@;
        let ghost s0 = subtree_idx(v0, j as int, lo, hi);
        proof {
            lemma_subtree_bounds(v0, ivs0, j as int, lo, hi);
        }
        let n_start = self.tree_vec[j].start;
        let n_end = self.tree_vec[j].end;
        if n_start == n_end {
            // a resolved split point or a one-index interval
            if index < n_start {
                match self.tree_vec[j].left {
                    Some(l) => {
                        self.descend_left(j, l, index, Ghost(lo), Ghost(hi))
                    },
                    None => {
                        // a repeat delivery below a fully resolved point
                        proof {
                            lemma_pending_single(v0, ivs0, j as int);
                            assert(pending_in(v0, ivs0, s0).remove(index as int) =~= pending_in(
                                v0,
                                ivs0,
                                s0,
                            ));
                            assert(subtree_idx(v0, j as int, lo, hi).union(
                                Set::new(|k: int| v0.len() <= k < v0.len()),
                            ) =~= s0);
                        }
                        (j, false)
                    },
                }
            } else if index > n_start {
                match self.tree_vec[j].right {
                    Some(r) => {
                        self.descend_right(j, r, index, Ghost(lo), Ghost(hi))
                    },
                    None => {
                        // a repeat delivery below a fully resolved point
                        proof {
                            lemma_pending_single(v0, ivs0, j as int);
                            assert(pending_in(v0, ivs0, s0).remove(index as int) =~= pending_in(
                                v0,
                                ivs0,
                                s0,
                            ));
                            assert(subtree_idx(v0, j as int, lo, hi).union(
                                Set::new(|k: int| v0.len() <= k < v0.len()),
                            ) =~= s0);
                        }
                        (j, false)
                    },
                }
            } else {
                // the delivered index is this very point: resolve it if it
                // was still outstanding; repeats fall through harmlessly
                self.intervals.remove(&j);
                proof {
                    let ivs1 = self.intervals@;
                    assert(ivs1 =~= ivs0.remove(j));
                    if node_inner(v0[j as int]) {
                        let s = v0[j as int].start as int;
                        let l = v0[j as int].left.unwrap() as int;
                        let r = v0[j as int].right.unwrap() as int;
                        assert(ivs1 =~= ivs0);
                        lemma_subtree_bounds(v0, ivs0, l, lo, s - 1);
                        lemma_subtree_bounds(v0, ivs0, r, s + 1, hi);
                        assert(s0 == set![j as int].union(subtree_idx(v0, l, lo, s - 1)).union(
                            subtree_idx(v0, r, s + 1, hi),
                        ));
                        lemma_pending_union(
                            v0,
                            ivs0,
                            set![j as int].union(subtree_idx(v0, l, lo, s - 1)),
                            subtree_idx(v0, r, s + 1, hi),
                        );
                        lemma_pending_union(
                            v0,
                            ivs0,
                            set![j as int],
                            subtree_idx(v0, l, lo, s - 1),
                        );
                        lemma_pending_single(v0, ivs0, j as int);
                        assert(!pending_in(v0, ivs0, s0).contains(index as int)) by {
                            if pending_in(v0, ivs0, subtree_idx(v0, l, lo, s - 1)).contains(
                                index as int,
                            ) {
                                let k = choose|k: int|
                                    #[trigger] subtree_idx(v0, l, lo, s - 1).contains(k) && 0 <= k
                                        < v0.len() && ivs0.contains(k as usize) && v0[k].start
                                        <= index as int <= v0[k].end;
                                assert(v0[k].end <= s - 1);
                            }
                            if pending_in(v0, ivs0, subtree_idx(v0, r, s + 1, hi)).contains(
                                index as int,
                            ) {
                                let k = choose|k: int|
                                    #[trigger] subtree_idx(v0, r, s + 1, hi).contains(k) && 0 <= k
                                        < v0.len() && ivs0.contains(k as usize) && v0[k].start
                                        <= index as int <= v0[k].end;
                                assert(v0[k].start >= s + 1);
                            }
                        }
                        assert(pending_in(v0, ivs1, s0) == pending_in(v0, ivs0, s0)) by {
                            lemma_pending_frame(v0, ivs0, v0, ivs1, s0);
                        }
                        assert(pending_in(v0, ivs1, s0) =~= pending_in(v0, ivs0, s0).remove(
                            index as int,
                        ));
                    } else {
                        // a leaf holding exactly this index
                        assert(s0 =~= set![j as int]);
                        lemma_pending_single(v0, ivs0, j as int);
                        lemma_pending_single(v0, ivs1, j as int);
                        if ivs0.contains(j) {
                            assert(pending_in(v0, ivs1, s0) =~= pending_in(v0, ivs0, s0).remove(
                                index as int,
                            ));
                        } else {
                            assert(ivs1 =~= ivs0);
                            assert(pending_in(v0, ivs1, s0) =~= pending_in(v0, ivs0, s0).remove(
                                index as int,
                            ));
                        }
                    }
                    assert(subtree_idx(v0, j as int, lo, hi).union(
                        Set::new(|k: int| v0.len() <= k < v0.len()),
                    ) =~= s0);
                }
                (j, false)
            }
        } else {
            // an unresolved interval leaf
            proof {
                assert(node_leaf(v0[j as int]));
                assert(s0 =~= set![j as int]);
                assert(ivs0.contains(j));
                lemma_pending_single(v0, ivs0, j as int);
                assert(subtree_idx(v0, j as int, lo, hi).union(
                    Set::new(|k: int| v0.len() <= k < v0.len()),
                ) =~= s0);
            }
            if index == n_start {
                // narrow the interval from below
                self.tree_vec[j].start = n_start + 1;
                proof {
                    let v1 = self.tree_vec@;
                    assert(subtree_ok(v1, ivs0, j as int, lo, hi));
                    assert(subtree_idx(v1, j as int, lo, hi) =~= s0);
                    lemma_pending_single(v1, ivs0, j as int);
                    assert(pending_in(v1, ivs0, s0) =~= pending_in(v0, ivs0, s0).remove(
                        index as int,
                    ));
                }
                (j, false)
            } else if index == n_end {
                // narrow the interval from above
                self.tree_vec[j].end = n_end - 1;
                proof {
                    let v1 = self.tree_vec@;
                    assert(subtree_ok(v1, ivs0, j as int, lo, hi));
                    assert(subtree_idx(v1, j as int, lo, hi) =~= s0);
                    lemma_pending_single(v1, ivs0, j as int);
                    assert(pending_in(v1, ivs0, s0) =~= pending_in(v0, ivs0, s0).remove(
                        index as int,
                    ));
                }
                (j, false)
            } else if n_start < index && index < n_end {
                // split: this node becomes the resolved point, and two new
                // interval leaves take over the runs below and above it
                self.intervals.remove(&j);
                let li = self.tree_vec.len();
                self.tree_vec.push(
                    Node {
                        start: n_start,
                        end: index - 1,
                        parent: Some(j),
                        left: None,
                        right: None,
                        depth: 1,
                    },
                );
                self.intervals.insert(li);
                let ri = self.tree_vec.len();
                self.tree_vec.push(
                    Node {
                        start: index + 1,
                        end: n_end,
                        parent: Some(j),
                        left: None,
                        right: None,
                        depth: 1,
                    },
                );
                self.intervals.insert(ri);
                self.tree_vec[j].start = index;
                self.tree_vec[j].end = index;
                self.tree_vec[j].left = Some(li);
                self.tree_vec[j].right = Some(ri);
                self.tree_vec[j].depth = 2;
                proof {
                    let v1 = self.tree_vec@;
                    let ivs1 = self.intervals@;
                    assert(ivs1 =~= ivs0.remove(j).insert(li).insert(ri));
                    assert(subtree_ok(v1, ivs1, li as int, lo, index - 1));
                    assert(subtree_ok(v1, ivs1, ri as int, index + 1, hi));
                    assert(subtree_ok(v1, ivs1, j as int, lo, hi));
                    assert(subtree_idx(v1, li as int, lo, index - 1) =~= set![li as int]);
                    assert(subtree_idx(v1, ri as int, index + 1, hi) =~= set![ri as int]);
                    assert(subtree_idx(v1, j as int, lo, hi) =~= s0.union(
                        Set::new(|k: int| v0.len() <= k < v1.len()),
                    ));
                    lemma_pending_union(
                        v1,
                        ivs1,
                        set![j as int].union(set![li as int]),
                        set![ri as int],
                    );
                    lemma_pending_union(v1, ivs1, set![j as int], set![li as int]);
                    lemma_pending_single(v1, ivs1, j as int);
                    lemma_pending_single(v1, ivs1, li as int);
                    lemma_pending_single(v1, ivs1, ri as int);
                    assert(subtree_idx(v1, j as int, lo, hi) =~= set![j as int].union(
                        set![li as int],
                    ).union(set![ri as int]));
                    assert(pending_in(v1, ivs1, subtree_idx(v1, j as int, lo, hi)) =~= pending_in(
                        v0,
                        ivs0,
                        s0,
                    ).remove(index as int));
                }
                (j, true)
            } else {
                // outside this interval: a stale or foreign index
                proof {
                    assert(pending_in(v0, ivs0, s0).remove(index as int) =~= pending_in(
                        v0,
                        ivs0,
                        s0,
                    ));
                }
                (j, false)
            }
        }
    }

    /// Deliver `index` into the left subtree of the resolved split point
    /// at arena index `j`, then re-attach the (possibly new) left root,
    /// recompute `j`'s height and rotate at `j` if the recorded heights
    /// of its children now differ by more than one.
    #[verifier::rlimit(100)]
    fn descend_left(
        &mut self,
        j: usize,
        l: usize,
        index: usize,
        Ghost(lo): Ghost<int>,
        Ghost(hi): Ghost<int>,
    ) -> (res: (usize, bool))
        requires
            subtree_ok(old(self).tree_vec@, old(self).intervals@, j as int, lo, hi),
            old(self).tree_vec@[j as int].left == Some(l),
            old(self).tree_vec@[j as int].start == old(self).tree_vec@[j as int].end,
            (index as int) < old(self).tree_vec@[j as int].start,
            forall|k: usize| #[trigger]
                old(self).intervals@.contains(k) ==> (k as int) < old(self).tree_vec@.len(),
            0 <= lo,
            hi <= usize::MAX,
        ensures
            final(self).root == old(self).root,
            final(self).window == old(self).window,
            final(self).tree_vec@.len() == old(self).tree_vec@.len() + (if res.1 {
                2int
            } else {
                0int
            }),
            forall|k: usize| #[trigger]
                final(self).intervals@.contains(k) ==> old(self).intervals@.contains(k) || old(self).tree_vec@.len() <= (k as int) < final(self).tree_vec@.len(),
            forall|k: int|
                0 <= k < old(self).tree_vec@.len() && !subtree_idx(
                    old(self).tree_vec@,
                    j as int,
                    lo,
                    hi,
                ).contains(k) ==> final(self).tree_vec@[k] == old(self).tree_vec@[k],
            forall|k: usize|
                !subtree_idx(old(self).tree_vec@, j as int, lo, hi).contains(k as int) && !(old(self).tree_vec@.len() <= (k as int) < final(self).tree_vec@.len()) ==> (final(self).intervals@.contains(k) <==> old(self).intervals@.contains(k)),
            subtree_ok(final(self).tree_vec@, final(self).intervals@, res.0 as int, lo, hi),
            subtree_idx(final(self).tree_vec@, res.0 as int, lo, hi) == subtree_idx(
                old(self).tree_vec@,
                j as int,
                lo,
                hi,
            ).union(
                Set::new(
                    |k: int| old(self).tree_vec@.len() <= k < final(self).tree_vec@.len(),
                ),
            ),
            final(self).tree_vec@[res.0 as int].parent == old(self).tree_vec@[j as int].parent,
            pending_in(
                final(self).tree_vec@,
                final(self).intervals@,
                subtree_idx(final(self).tree_vec@, res.0 as int, lo, hi),
            ) == pending_in(
                old(self).tree_vec@,
                old(self).intervals@,
                subtree_idx(old(self).tree_vec@, j as int, lo, hi),
            ).remove(index as int),
            !res.1 ==> res.0 == j,
            !pending_in(
                old(self).tree_vec@,
                old(self).intervals@,
                subtree_idx(old(self).tree_vec@, j as int, lo, hi),
            ).contains(index as int) ==> final(self).intervals@ == old(self).intervals@ && final(self).tree_vec@ == old(self).tree_vec@ && res.0 == j,
        decreases hi - lo, 0int,
    {
        let ghost v0 = self.tree_vec@;
        let ghost ivs0 = self.intervals@;
        let ghost s0 = subtree_idx(v0, j as int, lo, hi);
        let n0 = self.tree_vec.len();
        let ghost s = v0[j as int].start as int;
        let ghost r_g = v0[j as int].right.unwrap() as int;
        let ghost sl0 = subtree_idx(v0, l as int, lo, s - 1);
        let ghost sr0 = subtree_idx(v0, r_g, s + 1, hi);
        proof {
            assert(node_inner(v0[j as int]));
            assert(subtree_ok(v0, ivs0, l as int, lo, s - 1));
            assert(subtree_ok(v0, ivs0, r_g, s + 1, hi));
            lemma_subtree_bounds(v0, ivs0, j as int, lo, hi);
            lemma_subtree_bounds(v0, ivs0, l as int, lo, s - 1);
            lemma_subtree_bounds(v0, ivs0, r_g, s + 1, hi);
            assert(s0 == set![j as int].union(sl0).union(sr0));
            assert(!sl0.contains(j as int));
            assert(!sr0.contains(j as int));
            assert(forall|k: int| #[trigger] sr0.contains(k) ==> !sl0.contains(k));
            lemma_pending_union(v0, ivs0, set![j as int].union(sl0), sr0);
            lemma_pending_union(v0, ivs0, set![j as int], sl0);
            lemma_pending_single(v0, ivs0, j as int);
            lemma_pending_in_region(v0, ivs0, r_g, s + 1, hi);
            assert(!pending_in(v0, ivs0, sr0).contains(index as int));
            assert(pending_in(v0, ivs0, s0) =~= pending_in(v0, ivs0, sl0).union(
                pending_in(v0, ivs0, sr0),
            ));
        }
        let (jl, grew) = self.add_packet_at(l, index, Ghost(lo), Ghost(s - 1));
        let ghost vm = self.tree_vec@;
        let ghost ivsm = self.intervals@;
        let ghost slm = subtree_idx(vm, jl as int, lo, s - 1);
        let ghost fresh = Set::new(|k: int| v0.len() <= k < vm.len());
        proof {
            assert(vm[j as int] == v0[j as int]);
            assert forall|k: int| sr0.contains(k) implies k == r_g || vm[k] == v0[k] by {
                assert(0 <= k < v0.len());
            }
            assert forall|k: int| sr0.contains(k) implies (ivsm.contains(k as usize)
                <==> ivs0.contains(k as usize)) by {
                assert(0 <= k < v0.len() && v0.len() == n0 as int);
                let ku = k as usize;
                assert(ku as int == k);
                assert(!sl0.contains(ku as int));
                assert(!(v0.len() <= (ku as int) < vm.len()));
            }
            lemma_subtree_frame(v0, ivs0, vm, ivsm, r_g, s + 1, hi);
            assert(!ivsm.contains(j)) by {
                assert(!sl0.contains(j as int));
                assert(!(v0.len() <= (j as int) < vm.len()));
                assert(!ivs0.contains(j));
            }
            lemma_pending_frame(v0, ivs0, vm, ivsm, sr0);
        }
        if grew {
            self.tree_vec[j].left = Some(jl);
            let rr = self.tree_vec[j].right.unwrap();
            let dl = self.tree_vec[jl].depth;
            let dr = self.tree_vec[rr].depth;
            proof {
                assert(rr as int == r_g);
                assert(!slm.contains(j as int)) by {
                    assert(!sl0.contains(j as int) && !fresh.contains(j as int));
                }
                assert(2 * dl <= (s - 1) - lo + 2);
                assert(2 * dr <= hi - (s + 1) + 2);
            }
            let nd = if dl > dr {
                dl + 1
            } else {
                dr + 1
            };
            self.tree_vec[j].depth = nd;
            let ghost va = self.tree_vec@;
            proof {
                lemma_subtree_bounds(vm, ivsm, jl as int, lo, s - 1);
                assert forall|k: int| slm.contains(k) implies k == jl as int || va[k] == vm[k] by {
                    assert(k != j as int);
                }
                lemma_subtree_frame(vm, ivsm, va, ivsm, jl as int, lo, s - 1);
                assert forall|k: int|
                    subtree_idx(vm, r_g, s + 1, hi).contains(k) implies k == r_g || va[k]
                    == vm[k] by {
                    assert(subtree_idx(vm, r_g, s + 1, hi) == sr0);
                    assert(!sl0.contains(k) && v0[k].start >= s + 1);
                    assert(k != j as int);
                }
                lemma_subtree_frame(vm, ivsm, va, ivsm, r_g, s + 1, hi);
                assert(subtree_ok(va, ivsm, j as int, lo, hi));
                assert(subtree_idx(va, j as int, lo, hi) == set![j as int].union(
                    subtree_idx(va, jl as int, lo, s - 1),
                ).union(subtree_idx(va, r_g, s + 1, hi)));
                assert(subtree_idx(va, j as int, lo, hi) =~= s0.union(fresh));
                lemma_pending_union(
                    va,
                    ivsm,
                    set![j as int].union(subtree_idx(va, jl as int, lo, s - 1)),
                    subtree_idx(va, r_g, s + 1, hi),
                );
                lemma_pending_union(
                    va,
                    ivsm,
                    set![j as int],
                    subtree_idx(va, jl as int, lo, s - 1),
                );
                lemma_pending_single(va, ivsm, j as int);
                assert(pending_in(va, ivsm, slm) == pending_in(vm, ivsm, slm)) by {
                    lemma_subtree_bounds(vm, ivsm, jl as int, lo, s - 1);
                    lemma_pending_frame(vm, ivsm, va, ivsm, slm);
                }
                assert(pending_in(va, ivsm, sr0) == pending_in(vm, ivsm, sr0)) by {
                    lemma_pending_frame(vm, ivsm, va, ivsm, sr0);
                }
                assert(pending_in(va, ivsm, subtree_idx(va, j as int, lo, hi)) =~= pending_in(
                    v0,
                    ivs0,
                    s0,
                ).remove(index as int));
            }
            if dl > dr + 1 || dr > dl + 1 {
                let jr = self.balance(j, Ghost(lo), Ghost(hi));
                proof {
                    assert(subtree_idx(
                        final(self).tree_vec@,
                        jr as int,
                        lo,
                        hi,
                    ) == subtree_idx(va, j as int, lo, hi));
                    assert(pending_in(
                        final(self).tree_vec@,
                        final(self).intervals@,
                        subtree_idx(va, j as int, lo, hi),
                    ) == pending_in(va, ivsm, subtree_idx(va, j as int, lo, hi)));
                    assert(subtree_idx(final(self).tree_vec@, jr as int, lo, hi) =~= s0.union(
                        Set::new(|k: int| v0.len() <= k < final(self).tree_vec@.len()),
                    ));
                }
                (jr, true)
            } else {
                proof {
                    assert(subtree_idx(va, j as int, lo, hi) =~= s0.union(
                        Set::new(|k: int| v0.len() <= k < va.len()),
                    ));
                }
                (j, true)
            }
        } else {
            proof {
                assert(jl == l);
                assert(fresh =~= Set::<int>::empty());
                assert(slm =~= sl0);
                assert(subtree_ok(vm, ivsm, j as int, lo, hi));
                assert(subtree_idx(vm, j as int, lo, hi) == set![j as int].union(
                    subtree_idx(vm, l as int, lo, s - 1),
                ).union(subtree_idx(vm, r_g, s + 1, hi)));
                assert(subtree_idx(vm, j as int, lo, hi) =~= s0);
                assert(subtree_idx(vm, j as int, lo, hi) =~= s0.union(
                    Set::new(|k: int| v0.len() <= k < vm.len()),
                ));
                lemma_pending_union(
                    vm,
                    ivsm,
                    set![j as int].union(subtree_idx(vm, l as int, lo, s - 1)),
                    subtree_idx(vm, r_g, s + 1, hi),
                );
                lemma_pending_union(
                    vm,
                    ivsm,
                    set![j as int],
                    subtree_idx(vm, l as int, lo, s - 1),
                );
                lemma_pending_single(vm, ivsm, j as int);
                assert(pending_in(vm, ivsm, subtree_idx(vm, j as int, lo, hi)) =~= pending_in(
                    v0,
                    ivs0,
                    s0,
                ).remove(index as int));
            }
            (j, false)
        }
    }

    /// Deliver `index` into the right subtree of the resolved split point
    /// at arena index `j`, then re-attach the (possibly new) right root,
    /// recompute `j`'s height and rotate at `j` if the recorded heights
    /// of its children now differ by more than one.
    #[verifier::rlimit(100)]
    fn descend_right(
        &mut self,
        j: usize,
        r: usize,
        index: usize,
        Ghost(lo): Ghost<int>,
        Ghost(hi): Ghost<int>,
    ) -> (res: (usize, bool))
        requires
            subtree_ok(old(self).tree_vec@, old(self).intervals@, j as int, lo, hi),
            old(self).tree_vec@[j as int].right == Some(r),
            old(self).tree_vec@[j as int].start == old(self).tree_vec@[j as int].end,
            (index as int) > old(self).tree_vec@[j as int].start,
            forall|k: usize| #[trigger]
                old(self).intervals@.contains(k) ==> (k as int) < old(self).tree_vec@.len(),
            0 <= lo,
            hi <= usize::MAX,
        ensures
            final(self).root == old(self).root,
            final(self).window == old(self).window,
            final(self).tree_vec@.len() == old(self).tree_vec@.len() + (if res.1 {
                2int
            } else {
                0int
            }),
            forall|k: usize| #[trigger]
                final(self).intervals@.contains(k) ==> old(self).intervals@.contains(k) || old(self).tree_vec@.len() <= (k as int) < final(self).tree_vec@.len(),
            forall|k: int|
                0 <= k < old(self).tree_vec@.len() && !subtree_idx(
                    old(self).tree_vec@,
                    j as int,
                    lo,
                    hi,
                ).contains(k) ==> final(self).tree_vec@[k] == old(self).tree_vec@[k],
            forall|k: usize|
                !subtree_idx(old(self).tree_vec@, j as int, lo, hi).contains(k as int) && !(old(self).tree_vec@.len() <= (k as int) < final(self).tree_vec@.len()) ==> (final(self).intervals@.contains(k) <==> old(self).intervals@.contains(k)),
            subtree_ok(final(self).tree_vec@, final(self).intervals@, res.0 as int, lo, hi),
            subtree_idx(final(self).tree_vec@, res.0 as int, lo, hi) == subtree_idx(
                old(self).tree_vec@,
                j as int,
                lo,
                hi,
            ).union(
                Set::new(
                    |k: int| old(self).tree_vec@.len() <= k < final(self).tree_vec@.len(),
                ),
            ),
            final(self).tree_vec@[res.0 as int].parent == old(self).tree_vec@[j as int].parent,
            pending_in(
                final(self).tree_vec@,
                final(self).intervals@,
                subtree_idx(final(self).tree_vec@, res.0 as int, lo, hi),
            ) == pending_in(
                old(self).tree_vec@,
                old(self).intervals@,
                subtree_idx(old(self).tree_vec@, j as int, lo, hi),
            ).remove(index as int),
            !res.1 ==> res.0 == j,
            !pending_in(
                old(self).tree_vec@,
                old(self).intervals@,
                subtree_idx(old(self).tree_vec@, j as int, lo, hi),
            ).contains(index as int) ==> final(self).intervals@ == old(self).intervals@ && final(self).tree_vec@ == old(self).tree_vec@ && res.0 == j,
        decreases hi - lo, 0int,
    {
        let ghost v0 = self.tree_vec@;
        let ghost ivs0 = self.intervals@;
        let ghost s0 = subtree_idx(v0, j as int, lo, hi);
        let n0 = self.tree_vec.len();
        let ghost s = v0[j as int].start as int;
        let ghost l_g = v0[j as int].left.unwrap() as int;
        let ghost sl0 = subtree_idx(v0, l_g, lo, s - 1);
        let ghost sr0 = subtree_idx(v0, r as int, s + 1, hi);
        proof {
            assert(node_inner(v0[j as int]));
            assert(subtree_ok(v0, ivs0, l_g, lo, s - 1));
            assert(subtree_ok(v0, ivs0, r as int, s + 1, hi));
            lemma_subtree_bounds(v0, ivs0, j as int, lo, hi);
            lemma_subtree_bounds(v0, ivs0, l_g, lo, s - 1);
            lemma_subtree_bounds(v0, ivs0, r as int, s + 1, hi);
            assert(s0 == set![j as int].union(sl0).union(sr0));
            assert(!sl0.contains(j as int));
            assert(!sr0.contains(j as int));
            assert(forall|k: int| #[trigger] sl0.contains(k) ==> !sr0.contains(k));
            lemma_pending_union(v0, ivs0, set![j as int].union(sl0), sr0);
            lemma_pending_union(v0, ivs0, set![j as int], sl0);
            lemma_pending_single(v0, ivs0, j as int);
            lemma_pending_in_region(v0, ivs0, l_g, lo, s - 1);
            assert(!pending_in(v0, ivs0, sl0).contains(index as int));
            assert(pending_in(v0, ivs0, s0) =~= pending_in(v0, ivs0, sl0).union(
                pending_in(v0, ivs0, sr0),
            ));
        }
        let (jr_c, grew) = self.add_packet_at(r, index, Ghost(s + 1), Ghost(hi));
        let ghost vm = self.tree_vec@;
        let ghost ivsm = self.intervals@;
        let ghost srm = subtree_idx(vm, jr_c as int, s + 1, hi);
        let ghost fresh = Set::new(|k: int| v0.len() <= k < vm.len());
        proof {
            assert(vm[j as int] == v0[j as int]);
            assert forall|k: int| sl0.contains(k) implies k == l_g || vm[k] == v0[k] by {
                assert(0 <= k < v0.len());
            }
            assert forall|k: int| sl0.contains(k) implies (ivsm.contains(k as usize)
                <==> ivs0.contains(k as usize)) by {
                assert(0 <= k < v0.len() && v0.len() == n0 as int);
                let ku = k as usize;
                assert(ku as int == k);
                assert(!sr0.contains(ku as int));
                assert(!(v0.len() <= (ku as int) < vm.len()));
            }
            lemma_subtree_frame(v0, ivs0, vm, ivsm, l_g, lo, s - 1);
            assert(!ivsm.contains(j)) by {
                assert(!sr0.contains(j as int));
                assert(!(v0.len() <= (j as int) < vm.len()));
                assert(!ivs0.contains(j));
            }
            lemma_pending_frame(v0, ivs0, vm, ivsm, sl0);
        }
        if grew {
            self.tree_vec[j].right = Some(jr_c);
            let ll = self.tree_vec[j].left.unwrap();
            let dl = self.tree_vec[ll].depth;
            let dr = self.tree_vec[jr_c].depth;
            proof {
                assert(ll as int == l_g);
                assert(!srm.contains(j as int)) by {
                    assert(!sr0.contains(j as int) && !fresh.contains(j as int));
                }
                assert(2 * dl <= (s - 1) - lo + 2);
                assert(2 * dr <= hi - (s + 1) + 2);
            }
            let nd = if dl > dr {
                dl + 1
            } else {
                dr + 1
            };
            self.tree_vec[j].depth = nd;
            let ghost va = self.tree_vec@;
            proof {
                lemma_subtree_bounds(vm, ivsm, jr_c as int, s + 1, hi);
                assert forall|k: int| srm.contains(k) implies k == jr_c as int || va[k]
                    == vm[k] by {
                    assert(k != j as int);
                }
                lemma_subtree_frame(vm, ivsm, va, ivsm, jr_c as int, s + 1, hi);
                assert forall|k: int|
                    subtree_idx(vm, l_g, lo, s - 1).contains(k) implies k == l_g || va[k]
                    == vm[k] by {
                    assert(subtree_idx(vm, l_g, lo, s - 1) == sl0);
                    assert(!sr0.contains(k) && v0[k].end <= s - 1);
                    assert(k != j as int);
                }
                lemma_subtree_frame(vm, ivsm, va, ivsm, l_g, lo, s - 1);
                assert(subtree_ok(va, ivsm, j as int, lo, hi));
                assert(subtree_idx(va, j as int, lo, hi) == set![j as int].union(
                    subtree_idx(va, l_g, lo, s - 1),
                ).union(subtree_idx(va, jr_c as int, s + 1, hi)));
                assert(subtree_idx(va, j as int, lo, hi) =~= s0.union(fresh));
                lemma_pending_union(
                    va,
                    ivsm,
                    set![j as int].union(subtree_idx(va, l_g, lo, s - 1)),
                    subtree_idx(va, jr_c as int, s + 1, hi),
                );
                lemma_pending_union(va, ivsm, set![j as int], subtree_idx(va, l_g, lo, s - 1));
                lemma_pending_single(va, ivsm, j as int);
                assert(pending_in(va, ivsm, srm) == pending_in(vm, ivsm, srm)) by {
                    lemma_subtree_bounds(vm, ivsm, jr_c as int, s + 1, hi);
                    lemma_pending_frame(vm, ivsm, va, ivsm, srm);
                }
                assert(pending_in(va, ivsm, sl0) == pending_in(vm, ivsm, sl0)) by {
                    lemma_pending_frame(vm, ivsm, va, ivsm, sl0);
                }
                assert(pending_in(va, ivsm, subtree_idx(va, j as int, lo, hi)) =~= pending_in(
                    v0,
                    ivs0,
                    s0,
                ).remove(index as int));
            }
            if dl > dr + 1 || dr > dl + 1 {
                let jr = self.balance(j, Ghost(lo), Ghost(hi));
                proof {
                    assert(subtree_idx(
                        final(self).tree_vec@,
                        jr as int,
                        lo,
                        hi,
                    ) == subtree_idx(va, j as int, lo, hi));
                    assert(pending_in(
                        final(self).tree_vec@,
                        final(self).intervals@,
                        subtree_idx(va, j as int, lo, hi),
                    ) == pending_in(va, ivsm, subtree_idx(va, j as int, lo, hi)));
                    assert(subtree_idx(final(self).tree_vec@, jr as int, lo, hi) =~= s0.union(
                        Set::new(|k: int| v0.len() <= k < final(self).tree_vec@.len()),
                    ));
                }
                (jr, true)
            } else {
                proof {
                    assert(subtree_idx(va, j as int, lo, hi) =~= s0.union(
                        Set::new(|k: int| v0.len() <= k < va.len()),
                    ));
                }
                (j, true)
            }
        } else {
            proof {
                assert(jr_c == r);
                assert(fresh =~= Set::<int>::empty());
                assert(srm =~= sr0);
                assert(subtree_ok(vm, ivsm, j as int, lo, hi));
                assert(subtree_idx(vm, j as int, lo, hi) == set![j as int].union(
                    subtree_idx(vm, l_g, lo, s - 1),
                ).union(subtree_idx(vm, r as int, s + 1, hi)));
                assert(subtree_idx(vm, j as int, lo, hi) =~= s0);
                assert(subtree_idx(vm, j as int, lo, hi) =~= s0.union(
                    Set::new(|k: int| v0.len() <= k < vm.len()),
                ));
                lemma_pending_union(
                    vm,
                    ivsm,
                    set![j as int].union(subtree_idx(vm, l_g, lo, s - 1)),
                    subtree_idx(vm, r as int, s + 1, hi),
                );
                lemma_pending_union(vm, ivsm, set![j as int], subtree_idx(vm, l_g, lo, s - 1));
                lemma_pending_single(vm, ivsm, j as int);
                assert(pending_in(vm, ivsm, subtree_idx(vm, j as int, lo, hi)) =~= pending_in(
                    v0,
                    ivs0,
                    s0,
                ).remove(index as int));
            }
            (j, false)
        }
    }

    /// Record on the tracker that the chunk with index `index` has
    /// arrived.  Exactly that index leaves the missing set; marking an
    /// index that is not missing (a repeat delivery, or an index outside
    /// the window) changes nothing.
    pub fn add_packet(&mut self, index: usize)
        requires
            old(self).wf(),
        ensures
            final(self).wf(),
            final(self).missing() == old(self).missing().remove(index as int),
            final(self).win_lo() == old(self).win_lo(),
            final(self).win_hi() == old(self).win_hi(),
            !old(self).missing().contains(index as int) ==> final(self).intervals_set() == old(self).intervals_set() && final(self).nodes() == old(self).nodes(),
    {
        let ghost v0 = self.tree_vec@;
        let ghost ivs0 = self.intervals@;
        let ghost lo = self.window@.0;
        let ghost hi = self.window@.1;
        let ghost s0 = subtree_idx(v0, self.root as int, lo, hi);
        let r = self.root;
        let (jr, _grew) = self.add_packet_at(r, index, Ghost(lo), Ghost(hi));
        self.root = jr;
        proof {
            let v1 = self.tree_vec@;
            let ivs1 = self.intervals@;
            assert(subtree_idx(v1, jr as int, lo, hi) =~= all_idx(v1.len() as int));
            assert(self.missing() == pending_in(v1, ivs1, subtree_idx(v1, jr as int, lo, hi)));
            assert(old(self).missing() == pending_in(v0, ivs0, s0));
            assert forall|k: usize| #[trigger] ivs1.contains(k) implies (k as int) < v1.len() by {
                if ivs0.contains(k) {
                    assert((k as int) < v0.len());
                }
            }
        }
    }

    /// Whether the whole window has been accounted for: the `intervals`
    /// set is empty exactly when no chunk index is missing, so this is
    /// the client's termination condition for the current window.
    pub fn is_complete(&self) -> (done: bool)
        requires
            self.wf(),
        ensures
            done == self.missing().is_empty(),
    {
        let done = self.intervals.is_empty();
        proof {
            let v = self.tree_vec@;
            let ivs = self.intervals@;
            lemma_subtree_bounds(v, ivs, self.root as int, self.win_lo(), self.win_hi());
            if ivs.is_empty() {
                assert(self.missing() =~= Set::<int>::empty());
            } else {
                let k = ivs.choose();
                assert(ivs.contains(k));
                assert(all_idx(v.len() as int).contains(k as int));
                assert(subtree_idx(v, self.root as int, self.win_lo(), self.win_hi()).contains(
                    k as int,
                ));
                assert(self.missing().contains(v[k as int].start as int));
            }
        }
        done
    }

    /// Whether this chunk index is still missing in the subtree at `j`.
    fn query_at(&self, j: usize, index: usize, Ghost(lo): Ghost<int>, Ghost(hi): Ghost<int>) -> (m:
        bool)
        requires
            subtree_ok(self.tree_vec@, self.intervals@, j as int, lo, hi),
        ensures
            m == pending_in(
                self.tree_vec@,
                self.intervals@,
                subtree_idx(self.tree_vec@, j as int, lo, hi),
            ).contains(index as int),
        decreases hi - lo,
    {
        let ghost v = self.tree_vec@;
        let ghost ivs = self.intervals@;
        let ghost s0 = subtree_idx(v, j as int, lo, hi);
        proof {
            lemma_subtree_bounds(v, ivs, j as int, lo, hi);
            if node_inner(v[j as int]) {
                let s = v[j as int].start as int;
                let l = v[j as int].left.unwrap() as int;
                let r = v[j as int].right.unwrap() as int;
                assert(subtree_ok(v, ivs, l, lo, s - 1));
                assert(subtree_ok(v, ivs, r, s + 1, hi));
                assert(s0 == set![j as int].union(subtree_idx(v, l, lo, s - 1)).union(
                    subtree_idx(v, r, s + 1, hi),
                ));
                lemma_pending_union(
                    v,
                    ivs,
                    set![j as int].union(subtree_idx(v, l, lo, s - 1)),
                    subtree_idx(v, r, s + 1, hi),
                );
                lemma_pending_union(v, ivs, set![j as int], subtree_idx(v, l, lo, s - 1));
                lemma_pending_single(v, ivs, j as int);
                lemma_pending_in_region(v, ivs, l, lo, s - 1);
                lemma_pending_in_region(v, ivs, r, s + 1, hi);
            } else {
                assert(s0 =~= set![j as int]);
                lemma_pending_single(v, ivs, j as int);
            }
        }
        let n_start = self.tree_vec[j].start;
        let n_end = self.tree_vec[j].end;
        if n_start == n_end {
            if index < n_start {
                match self.tree_vec[j].left {
                    Some(l) => self.query_at(l, index, Ghost(lo), Ghost(n_start as int - 1)),
                    None => false,
                }
            } else if index > n_start {
                match self.tree_vec[j].right {
                    Some(r) => self.query_at(r, index, Ghost(n_start as int + 1), Ghost(hi)),
                    None => false,
                }
            } else {
                self.intervals.contains(&j)
            }
        } else {
            n_start <= index && index <= n_end
        }
    }

    /// Whether this chunk index is still missing.
    pub fn is_missing(&self, index: usize) -> (m: bool)
        requires
            self.wf(),
        ensures
            m == self.missing().contains(index as int),
    {
        proof {
            assert(subtree_idx(
                self.tree_vec@,
                self.root as int,
                self.win_lo(),
                self.win_hi(),
            ) == all_idx(self.tree_vec@.len() as int));
        }
        self.query_at(self.root, index, Ghost(self.win_lo()), Ghost(self.win_hi()))
    }

    /// Append the still-missing runs of the subtree at `j`, in increasing
    /// order, to `out`.
    fn collect_ranges(
        &self,
        j: usize,
        Ghost(lo): Ghost<int>,
        Ghost(hi): Ghost<int>,
        out: &mut Vec<(usize, usize)>,
    )
        requires
            subtree_ok(self.tree_vec@, self.intervals@, j as int, lo, hi),
        ensures
            final(out)@.len() >= old(out)@.len(),
            forall|p: int| 0 <= p < old(out)@.len() ==> final(out)@[p] == old(out)@[p],
            forall|p: int|
                old(out)@.len() <= p < final(out)@.len() ==> lo <= final(out)@[p].0 && final(out)@[p].0 <= final(out)@[p].1 && final(out)@[p].1 <= hi,
            forall|p: int, q: int|
                old(out)@.len() <= p < q < final(out)@.len() ==> final(out)@[p].1 + 1 < final(out)@[q].0,
            forall|i: int|
                #[trigger] pending_in(
                    self.tree_vec@,
                    self.intervals@,
                    subtree_idx(self.tree_vec@, j as int, lo, hi),
                ).contains(i) <==> exists|p: int|
                    old(out)@.len() <= p < final(out)@.len() && final(out)@[p].0 <= i && i <= (
                    #[trigger] final(out)@[p]).1,
        decreases hi - lo,
    {
        let ghost v = self.tree_vec@;
        let ghost ivs = self.intervals@;
        let ghost s0 = subtree_idx(v, j as int, lo, hi);
        let n_left = self.tree_vec[j].left;
        let n_right = self.tree_vec[j].right;
        match (n_left, n_right) {
            (Some(l), Some(r)) => {
                let ghost s = v[j as int].start as int;
                proof {
                    assert(node_inner(v[j as int]));
                    assert(subtree_ok(v, ivs, l as int, lo, s - 1));
                    assert(subtree_ok(v, ivs, r as int, s + 1, hi));
                    assert(s0 == set![j as int].union(subtree_idx(v, l as int, lo, s - 1)).union(
                        subtree_idx(v, r as int, s + 1, hi),
                    ));
                    lemma_pending_union(
                        v,
                        ivs,
                        set![j as int].union(subtree_idx(v, l as int, lo, s - 1)),
                        subtree_idx(v, r as int, s + 1, hi),
                    );
                    lemma_pending_union(v, ivs, set![j as int], subtree_idx(v, l as int, lo, s - 1));
                    lemma_pending_single(v, ivs, j as int);
                }
                let s_exec = self.tree_vec[j].start;
                self.collect_ranges(l, Ghost(lo), Ghost(s_exec as int - 1), out);
                let ghost out_mid = out@;
                self.collect_ranges(r, Ghost(s_exec as int + 1), Ghost(hi), out);
                proof {
                    let o0 = old(out)@;
                    let o1 = out_mid;
                    let o2 = out@;
                    let pl = pending_in(v, ivs, subtree_idx(v, l as int, lo, s - 1));
                    let pr = pending_in(v, ivs, subtree_idx(v, r as int, s + 1, hi));
                    assert(pending_in(v, ivs, s0) =~= pl.union(pr)) by {
                        lemma_pending_single(v, ivs, j as int);
                    }
                    assert forall|p: int, q: int|
                        o0.len() <= p < q < o2.len() implies o2[p].1 + 1 < o2[q].0 by {
                        if q < o1.len() {
                            assert(o2[p] == o1[p] && o2[q] == o1[q]);
                        } else if p < o1.len() {
                            assert(o2[p] == o1[p]);
                            assert(o1[p].1 <= s - 1);
                            assert(o2[q].0 >= s + 1);
                        }
                    }
                    assert forall|i: int|
                        #[trigger] pending_in(v, ivs, s0).contains(i) implies exists|p: int|
                            o0.len() <= p < o2.len() && o2[p].0 <= i && i <= (
                            #[trigger] o2[p]).1 by {
                        if pl.contains(i) {
                            let p = choose|p: int|
                                o0.len() <= p < o1.len() && o1[p].0 <= i && i <= (
                                #[trigger] o1[p]).1;
                            assert(o2[p] == o1[p]);
                            assert(o2[p].0 <= i && i <= o2[p].1);
                        } else {
                            assert(pr.contains(i));
                            let p = choose|p: int|
                                o1.len() <= p < o2.len() && o2[p].0 <= i && i <= (
                                #[trigger] o2[p]).1;
                            assert(o2[p].0 <= i && i <= o2[p].1);
                        }
                    }
                    assert forall|i: int|
                        (exists|p: int|
                            o0.len() <= p < o2.len() && o2[p].0 <= i && i <= (
                            #[trigger] o2[p]).1) implies #[trigger] pending_in(
                        v,
                        ivs,
                        s0,
                    ).contains(i) by {
                        let p = choose|p: int|
                            o0.len() <= p < o2.len() && o2[p].0 <= i && i <= (#[trigger] o2[p]).1;
                        if p < o1.len() {
                            assert(o2[p] == o1[p]);
                            assert(o1[p].0 <= i && i <= o1[p].1);
                            assert(pl.contains(i));
                        } else {
                            assert(pr.contains(i));
                        }
                    }
                }
            },
            _ => {
                proof {
                    assert(node_leaf(v[j as int]));
                    assert(s0 =~= set![j as int]);
                    lemma_pending_single(v, ivs, j as int);
                }
                if self.intervals.contains(&j) {
                    let n_start = self.tree_vec[j].start;
                    let n_end = self.tree_vec[j].end;
                    out.push((n_start, n_end));
                    proof {
                        let o0 = old(out)@;
                        let o2 = out@;
                        assert(o2[o0.len() as int] == (n_start, n_end));
                        assert forall|i: int|
                            #[trigger] pending_in(v, ivs, s0).contains(i) implies exists|p: int|
                                o0.len() <= p < o2.len() && o2[p].0 <= i && i <= (
                                #[trigger] o2[p]).1 by {
                            assert(o2[o0.len() as int].0 <= i && i <= o2[o0.len() as int].1);
                        }
                    }
                }
            },
        }
    }

    /// The still-missing chunk indices as maximal closed ranges, in
    /// increasing order: exactly what a retransmission request must ask
    /// for.  Every missing index is covered by exactly one range, and
    /// consecutive ranges are separated by at least one resolved index.
    pub fn pending_ranges(&self) -> (ranges: Vec<(usize, usize)>)
        requires
            self.wf(),
        ensures
            forall|p: int| 0 <= p < ranges@.len() ==> ranges@[p].0 <= ranges@[p].1,
            forall|p: int, q: int| 0 <= p < q < ranges@.len() ==> ranges@[p].1 + 1 < ranges@[q].0,
            forall|i: int|
                #[trigger] self.missing().contains(i) <==> exists|p: int|
                    0 <= p < ranges@.len() && ranges@[p].0 <= i && i <= (
                    #[trigger] ranges@[p]).1,
    {
        proof {
            assert(subtree_idx(
                self.tree_vec@,
                self.root as int,
                self.win_lo(),
                self.win_hi(),
            ) == all_idx(self.tree_vec@.len() as int));
        }
        let mut out: Vec<(usize, usize)> = Vec::new();
        self.collect_ranges(self.root, Ghost(self.win_lo()), Ghost(self.win_hi()), &mut out);
        out
    }

    /// Whatever is still missing lies inside the tracker's window.
    pub proof fn lemma_missing_in_window(self)
        requires
            self.wf(),
        ensures
            forall|i: int| #[trigger]
                self.missing().contains(i) ==> self.win_lo() <= i <= self.win_hi(),
    {
        lemma_pending_in_region(
            self.tree_vec@,
            self.intervals@,
            self.root as int,
            self.win_lo(),
            self.win_hi(),
        );
    }

    /// Repeat deliveries are silent no-ops: after an index has been
    /// marked once (`missing` lost it), marking it again is covered by
    /// the no-change case of `add_packet`, so the `intervals` set and
    /// the arena stay exactly as after the first call.
    pub proof fn lemma_mark_arrived_idempotent(self, index: usize)
        requires
            self.wf(),
        ensures
            !self.missing().remove(index as int).contains(index as int),
            self.missing().remove(index as int).remove(index as int) == self.missing().remove(
                index as int,
            ),
    {
        assert(self.missing().remove(index as int).remove(index as int) =~= self.missing().remove(
            index as int,
        ));
    }

    /// An index outside the window is never missing, so marking it
    /// leaves the missing set unchanged (and, by the no-change case of
    /// `add_packet`, the `intervals` set and the arena too).
    pub proof fn lemma_out_of_window_no_op(self, index: usize)
        requires
            self.wf(),
            (index as int) < self.win_lo() || (index as int) > self.win_hi(),
        ensures
            !self.missing().contains(index as int),
            self.missing().remove(index as int) == self.missing(),
    {
        self.lemma_missing_in_window();
        assert(self.missing().remove(index as int) =~= self.missing());
    }

    /// Reset the tracker to a fresh single-interval tree over a new
    /// window, discarding all prior nodes.
    pub fn reinit(&mut self, start: usize, end: usize)
        requires
            start <= end,
        ensures
            final(self).wf(),
            final(self).missing() == range_set(start as int, end as int),
            final(self).win_lo() == start,
            final(self).win_hi() == end,
    {
        self.tree_vec.clear();
        self.tree_vec.push(
            Node { start, end, parent: None, left: None, right: None, depth: 1 },
        );
        self.root = 0;
        self.intervals.clear();
        self.intervals.insert(0);
        self.window = Ghost((start as int, end as int));
        proof {
            assert(subtree_idx(self.tree_vec@, 0, start as int, end as int) =~= all_idx(1));
            assert forall|i: int| range_set(start as int, end as int).contains(i) implies self.missing().contains(
                i,
            ) by {
                assert(all_idx(1).contains(0) && self.intervals@.contains(0usize)
                    && self.tree_vec@[0].start <= i <= self.tree_vec@[0].end);
            }
            assert(self.missing() =~= range_set(start as int, end as int));
        }
    }
}

} // verus!

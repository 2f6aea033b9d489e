//! Shape of a bounding-volume hierarchy. The tree is built over primitive
//! indices: at each node a random axis is drawn, the node's primitives are
//! sorted on the minimum corner of their boxes along that axis and split at
//! the midpoint. Box arithmetic and ray traversal are floating point and are
//! left to the caller, who hands each primitive's sort keys in as integers
//! that order as the box coordinates do.
use vstd::prelude::*;

use crate::lemma_swap_keeps_multiset;
use crate::rtweekend::random_i32_1;

verus! {

broadcast use vstd::seq_lib::group_to_multiset_ensures;

/// Sort key on `axis` of a primitive whose keys `k` stand for the minimum
/// corner of its bounding box on the x, y and z axes.
pub open spec fn axis_key(k: (u64, u64, u64), axis: int) -> u64 {
    if axis == 0 {
        k.0
    } else if axis == 1 {
        k.1
    } else {
        k.2
    }
}

fn key_on(k: &(u64, u64, u64), axis: usize) -> (r: u64)
    ensures
        r == axis_key(*k, axis as int),
{
    if axis == 0 {
        k.0
    } else if axis == 1 {
        k.1
    } else {
        k.2
    }
}

/// A child of a node: a primitive, or an earlier node of the arena.
#[derive(Clone, Copy, Debug, PartialEq, Eq, Structural)]
pub enum BvhChild {
    Leaf(usize),
    Node(usize),
}

/// One interior node: its two children and the axis its primitives were
/// sorted on. A node over a single primitive has that primitive on both sides.
#[derive(Clone, Copy, Debug, PartialEq, Eq, Structural)]
pub struct BvhNode {
    pub left: BvhChild,
    pub right: BvhChild,
    pub axis: usize,
}

/// The nodes of a hierarchy, children always before their parent; the root
/// is the last node.
pub struct BvhLayout {
    pub nodes: Vec<BvhNode>,
}

pub open spec fn child_rank(c: BvhChild) -> nat {
    match c {
        BvhChild::Leaf(_) => 0,
        BvhChild::Node(k) => k as nat + 1,
    }
}

/// The primitives under `c`.
pub open spec fn leaves(nodes: Seq<BvhNode>, c: BvhChild) -> Set<usize>
    decreases child_rank(c),
{
    match c {
        BvhChild::Leaf(p) => set![p],
        BvhChild::Node(k) => {
            if k < nodes.len() && child_rank(nodes[k as int].left) <= k && child_rank(
                nodes[k as int].right,
            ) <= k {
                leaves(nodes, nodes[k as int].left).union(leaves(nodes, nodes[k as int].right))
            } else {
                Set::empty()
            }
        },
    }
}

/// A child of node `k` over `n` primitives names a primitive, or a node
/// built before `k`.
pub open spec fn child_in_range(c: BvhChild, k: int, n: int) -> bool {
    match c {
        BvhChild::Leaf(p) => p < n,
        BvhChild::Node(m) => m < k,
    }
}

/// Node `k` is well formed: its children are in range, its axis is one of
/// three, on that axis every primitive on its left sorts no later than every
/// primitive on its right, and no primitive is on both sides unless the node
/// holds a single primitive twice.
pub open spec fn node_wf(nodes: Seq<BvhNode>, k: int, keys: Seq<(u64, u64, u64)>) -> bool {
    let nd = nodes[k];
    &&& child_in_range(nd.left, k, keys.len() as int)
    &&& child_in_range(nd.right, k, keys.len() as int)
    &&& nd.axis < 3
    &&& (nd.left == nd.right || leaves(nodes, nd.left).disjoint(leaves(nodes, nd.right)))
    &&& forall|a: usize, b: usize|
        #![trigger leaves(nodes, nd.left).contains(a), leaves(nodes, nd.right).contains(b)]
        leaves(nodes, nd.left).contains(a) && leaves(nodes, nd.right).contains(b) ==> axis_key(
            keys[a as int],
            nd.axis as int,
        ) <= axis_key(keys[b as int], nd.axis as int)
}

pub open spec fn nodes_wf(nodes: Seq<BvhNode>, keys: Seq<(u64, u64, u64)>) -> bool {
    forall|k: int| 0 <= k < nodes.len() ==> #[trigger] node_wf(nodes, k, keys)
}

/// Sort key, on `axis`, of the primitive at position `i` of `objects`.
pub open spec fn key_at(
    keys: Seq<(u64, u64, u64)>,
    objects: Seq<usize>,
    i: int,
    axis: int,
) -> u64 {
    axis_key(keys[objects[i] as int], axis)
}

/// `objects[lo..hi]` is in order of its keys on `axis`.
pub open spec fn sorted_on(
    keys: Seq<(u64, u64, u64)>,
    objects: Seq<usize>,
    lo: int,
    hi: int,
    axis: int,
) -> bool {
    forall|a: int, b: int|
        #![trigger key_at(keys, objects, a, axis), key_at(keys, objects, b, axis)]
        lo <= a < b < hi ==> key_at(keys, objects, a, axis) <= key_at(keys, objects, b, axis)
}

pub open spec fn is_prefix(a: Seq<BvhNode>, b: Seq<BvhNode>) -> bool {
    &&& a.len() <= b.len()
    &&& forall|k: int| 0 <= k < a.len() ==> #[trigger] b[k] == a[k]
}

impl BvhLayout {
    /// The node at the top of the hierarchy.
    pub open spec fn root(&self) -> BvhChild {
        BvhChild::Node((self.nodes@.len() - 1) as usize)
    }

    /// Every node is well formed and the root covers each of the `keys.len()`
    /// primitives.
    pub open spec fn wf(&self, keys: Seq<(u64, u64, u64)>) -> bool {
        &&& self.nodes@.len() > 0
        &&& nodes_wf(self.nodes@, keys)
        &&& leaves(self.nodes@, self.root()) == Set::new(|p: usize| p < keys.len())
    }

    /// The hierarchy over the primitives whose sort keys are `keys`; `None`
    /// for an empty scene, which has no bounding box to build on.
    pub fn new(keys: &Vec<(u64, u64, u64)>) -> (r: Option<BvhLayout>)
        requires
            2 * keys@.len() <= usize::MAX,
        ensures
            r is None <==> keys@.len() == 0,
            r matches Some(l) ==> l.wf(keys@) && l.nodes@.len() < 2 * keys@.len(),
    {
        let n = keys.len();
        if n == 0 {
            return None;
        }
        let mut objects: Vec<usize> = Vec::new();
        let mut i: usize = 0;
        while i < n
            invariant
                i <= n,
                n == keys@.len(),
                objects@.len() == i,
                forall|k: int| 0 <= k < i ==> #[trigger] objects@[k] == k,
            decreases n - i,
        {
            objects.push(i);
            i = i + 1;
        }
        let ghost identity = objects@;
        assert(identity.no_duplicates());
        let mut nodes: Vec<BvhNode> = Vec::new();
        let root = build_span(keys, &mut objects, &mut nodes, 0, n);
        let layout = BvhLayout { nodes };
        proof {
            assert(identity.subrange(0, n as int) =~= identity);
            assert(objects@.subrange(0, n as int) =~= objects@);
            assert forall|p: usize| objects@.to_set().contains(p) <==> p < n by {
                if p < n {
                    assert(identity[p as int] == p);
                    assert(identity.contains(p));
                } else if objects@.contains(p) {
                    assert(identity.to_multiset().count(p) > 0);
                    let w = choose|w: int| 0 <= w < identity.len() && identity[w] == p;
                    assert(identity[w] == w);
                }
            }
            assert(leaves(layout.nodes@, layout.root()) =~= Set::new(|p: usize| p < keys@.len()));
        }
        Some(layout)
    }
}

/// Appending nodes does not change what an existing node covers.
proof fn lemma_leaves_extend(nodes: Seq<BvhNode>, big: Seq<BvhNode>, c: BvhChild)
    requires
        is_prefix(nodes, big),
        child_rank(c) <= nodes.len(),
    ensures
        leaves(big, c) == leaves(nodes, c),
    decreases child_rank(c),
{
    match c {
        BvhChild::Leaf(_) => {},
        BvhChild::Node(k) => {
            assert(big[k as int] == nodes[k as int]);
            let nd = nodes[k as int];
            if child_rank(nd.left) <= k && child_rank(nd.right) <= k {
                lemma_leaves_extend(nodes, big, nd.left);
                lemma_leaves_extend(nodes, big, nd.right);
            }
        },
    }
}

/// Appending nodes keeps the existing nodes well formed.
proof fn lemma_nodes_wf_extend(nodes: Seq<BvhNode>, big: Seq<BvhNode>, keys: Seq<(u64, u64, u64)>)
    requires
        is_prefix(nodes, big),
        nodes_wf(nodes, keys),
    ensures
        forall|k: int| 0 <= k < nodes.len() ==> #[trigger] node_wf(big, k, keys),
{
    assert forall|k: int| 0 <= k < nodes.len() implies #[trigger] node_wf(big, k, keys) by {
        assert(node_wf(nodes, k, keys));
        let nd = nodes[k];
        assert(big[k] == nd);
        lemma_leaves_extend(nodes, big, nd.left);
        lemma_leaves_extend(nodes, big, nd.right);
    }
}

/// Two sequences with one multiset hold the same values.
proof fn lemma_same_multiset_same_set(a: Seq<usize>, b: Seq<usize>)
    requires
        a.to_multiset() == b.to_multiset(),
    ensures
        a.to_set() == b.to_set(),
{
    assert forall|x: usize| a.contains(x) <==> b.contains(x) by {
        assert(a.contains(x) <==> a.to_multiset().count(x) > 0);
        assert(b.contains(x) <==> b.to_multiset().count(x) > 0);
    }
    assert(a.to_set() =~= b.to_set());
}

/// Rearranging the span `[lo, hi)` of a sequence without repeats, and
/// leaving the rest alone, gives a sequence without repeats.
proof fn lemma_span_shuffle_keeps_distinct(before: Seq<usize>, after: Seq<usize>, lo: int, hi: int)
    requires
        0 <= lo <= hi <= before.len(),
        after.len() == before.len(),
        forall|i: int|
            0 <= i < before.len() && !(lo <= i < hi) ==> #[trigger] after[i] == before[i],
        after.subrange(lo, hi).to_multiset() == before.subrange(lo, hi).to_multiset(),
        before.no_duplicates(),
    ensures
        after.no_duplicates(),
{
    let n = before.len() as int;
    assert(before =~= before.subrange(0, lo) + before.subrange(lo, hi) + before.subrange(hi, n));
    assert(after =~= after.subrange(0, lo) + after.subrange(lo, hi) + after.subrange(hi, n));
    assert(after.subrange(0, lo) =~= before.subrange(0, lo));
    assert(after.subrange(hi, n) =~= before.subrange(hi, n));
    vstd::seq_lib::lemma_multiset_commutative(before.subrange(0, lo), before.subrange(lo, hi));
    vstd::seq_lib::lemma_multiset_commutative(
        before.subrange(0, lo) + before.subrange(lo, hi),
        before.subrange(hi, n),
    );
    vstd::seq_lib::lemma_multiset_commutative(after.subrange(0, lo), after.subrange(lo, hi));
    vstd::seq_lib::lemma_multiset_commutative(
        after.subrange(0, lo) + after.subrange(lo, hi),
        after.subrange(hi, n),
    );
    assert(after.to_multiset() == before.to_multiset());
    before.lemma_multiset_has_no_duplicates();
    after.lemma_multiset_has_no_duplicates_conv();
}

/// Exchanges the entries at `a` and `b`.
fn swap_entries(objects: &mut Vec<usize>, a: usize, b: usize)
    requires
        a < old(objects)@.len(),
        b < old(objects)@.len(),
    ensures
        final(objects)@ == old(objects)@.update(a as int, old(objects)@[b as int]).update(
            b as int,
            old(objects)@[a as int],
        ),
{
    let x = objects[a];
    let y = objects[b];
    objects.set(a, y);
    objects.set(b, x);
}

/// A swap inside `[lo, hi)` keeps the multiset of that span.
proof fn lemma_swap_in_span(s: Seq<usize>, a: int, b: int, lo: int, hi: int)
    requires
        0 <= lo <= a < hi <= s.len(),
        lo <= b < hi,
    ensures
        s.update(a, s[b]).update(b, s[a]).subrange(lo, hi).to_multiset() == s.subrange(
            lo,
            hi,
        ).to_multiset(),
{
    let sub = s.subrange(lo, hi);
    assert(s.update(a, s[b]).update(b, s[a]).subrange(lo, hi) =~= sub.update(a - lo, sub[b - lo]).update(
        b - lo,
        sub[a - lo],
    ));
    lemma_swap_keeps_multiset(sub, a - lo, b - lo);
}

/// Sorts `objects[start..end]` by the primitives' keys on `axis`, keeping
/// primitives with equal keys in their order (insertion sort).
fn sort_span(
    keys: &Vec<(u64, u64, u64)>,
    objects: &mut Vec<usize>,
    start: usize,
    end: usize,
    axis: usize,
)
    requires
        start <= end <= old(objects)@.len(),
        axis < 3,
        forall|i: int| 0 <= i < old(objects)@.len() ==> (#[trigger] old(objects)@[i]) < keys@.len(),
    ensures
        final(objects)@.len() == old(objects)@.len(),
        forall|i: int| 0 <= i < old(objects)@.len() ==> (#[trigger] final(objects)@[i]) < keys@.len(),
        forall|i: int|
            0 <= i < old(objects)@.len() && !(start <= i < end) ==> #[trigger] final(objects)@[i]
                == old(objects)@[i],
        final(objects)@.subrange(start as int, end as int).to_multiset() == old(
            objects,
        )@.subrange(start as int, end as int).to_multiset(),
        sorted_on(keys@, final(objects)@, start as int, end as int, axis as int),
{
    let ghost orig = objects@;
    let mut i: usize = start;
    while i < end
        invariant
            start <= i <= end,
            end <= objects@.len(),
            objects@.len() == orig.len(),
            forall|t: int| 0 <= t < orig.len() ==> (#[trigger] objects@[t]) < keys@.len(),
            forall|t: int|
                0 <= t < orig.len() && !(start <= t < end) ==> #[trigger] objects@[t] == orig[t],
            objects@.subrange(start as int, end as int).to_multiset() == orig.subrange(
                start as int,
                end as int,
            ).to_multiset(),
            sorted_on(keys@, objects@, start as int, i as int, axis as int),
        decreases end - i,
    {
        let mut j: usize = i;
        while j > start && key_on(&keys[objects[j - 1]], axis) > key_on(&keys[objects[j]], axis)
            invariant
                start <= j <= i < end,
                end <= objects@.len(),
                objects@.len() == orig.len(),
                forall|t: int| 0 <= t < orig.len() ==> (#[trigger] objects@[t]) < keys@.len(),
                forall|t: int|
                    0 <= t < orig.len() && !(start <= t < end) ==> #[trigger] objects@[t]
                        == orig[t],
                objects@.subrange(start as int, end as int).to_multiset() == orig.subrange(
                    start as int,
                    end as int,
                ).to_multiset(),
                sorted_on(keys@, objects@, start as int, j as int, axis as int),
                sorted_on(keys@, objects@, j as int, i + 1, axis as int),
                forall|a: int, b: int|
                    #![trigger key_at(keys@, objects@, a, axis as int), key_at(keys@, objects@, b, axis as int)]
                    start <= a < j < b <= i ==> key_at(keys@, objects@, a, axis as int) <= key_at(
                        keys@,
                        objects@,
                        b,
                        axis as int,
                    ),
            decreases j,
        {
            let ghost before = objects@;
            swap_entries(objects, j - 1, j);
            proof {
                lemma_swap_in_span(before, j - 1, j as int, start as int, end as int);
                let ax = axis as int;
                assert(key_at(keys@, before, j - 1, ax) > key_at(keys@, before, j as int, ax));
                assert(key_at(keys@, objects@, j - 1, ax) == key_at(keys@, before, j as int, ax));
                assert(key_at(keys@, objects@, j as int, ax) == key_at(keys@, before, j - 1, ax));
                assert forall|t: int|
                    0 <= t < objects@.len() && t != j - 1 && t != j implies #[trigger] key_at(
                        keys@,
                        objects@,
                        t,
                        ax,
                    ) == key_at(keys@, before, t, ax) by {
                    assert(objects@[t] == before[t]);
                }
                assert forall|a: int, b: int|
                    #![trigger key_at(keys@, objects@, a, ax), key_at(keys@, objects@, b, ax)]
                    j - 1 <= a < b < i + 1 implies key_at(keys@, objects@, a, ax) <= key_at(
                        keys@,
                        objects@,
                        b,
                        ax,
                    ) by {
                    if a == j - 1 {
                        if b > j {
                            assert(key_at(keys@, before, j as int, ax) <= key_at(keys@, before, b, ax));
                        }
                    } else if a == j {
                        assert(key_at(keys@, before, j - 1, ax) <= key_at(keys@, before, b, ax));
                    } else {
                        assert(key_at(keys@, before, a, ax) <= key_at(keys@, before, b, ax));
                    }
                }
                assert forall|a: int, b: int|
                    #![trigger key_at(keys@, objects@, a, ax), key_at(keys@, objects@, b, ax)]
                    start <= a < j - 1 < b <= i implies key_at(keys@, objects@, a, ax) <= key_at(
                        keys@,
                        objects@,
                        b,
                        ax,
                    ) by {
                    if b == j {
                        assert(key_at(keys@, before, a, ax) <= key_at(keys@, before, j - 1, ax));
                    } else {
                        assert(key_at(keys@, before, a, ax) <= key_at(keys@, before, b, ax));
                    }
                }
                assert forall|a: int, b: int|
                    #![trigger key_at(keys@, objects@, a, ax), key_at(keys@, objects@, b, ax)]
                    start <= a < b < j - 1 implies key_at(keys@, objects@, a, ax) <= key_at(
                        keys@,
                        objects@,
                        b,
                        ax,
                    ) by {
                    assert(key_at(keys@, before, a, ax) <= key_at(keys@, before, b, ax));
                }
                assert(sorted_on(keys@, objects@, start as int, j - 1, axis as int));
            }
            j = j - 1;
        }
        proof {
            assert forall|a: int, b: int|
                #![trigger key_at(keys@, objects@, a, axis as int), key_at(keys@, objects@, b, axis as int)]
                start <= a < b < i + 1 implies key_at(keys@, objects@, a, axis as int)
                    <= key_at(keys@, objects@, b, axis as int) by {
                if a < j && b == j {
                    if a < j - 1 {
                        assert(key_at(keys@, objects@, a, axis as int) <= key_at(keys@, objects@, j - 1, axis as int));
                    }
                }
            }
        }
        i = i + 1;
    }
}

/// Builds the subtree over `objects[start..end]` and returns the index of its
/// root node, the last node appended. One primitive gives a node with it on
/// both sides; two give a node with them in order of their keys on the drawn
/// axis, the second first where the keys tie; more are sorted on the drawn
/// axis and split at the midpoint.
fn build_span(
    keys: &Vec<(u64, u64, u64)>,
    objects: &mut Vec<usize>,
    nodes: &mut Vec<BvhNode>,
    start: usize,
    end: usize,
) -> (r: usize)
    requires
        start < end <= old(objects)@.len(),
        forall|i: int| 0 <= i < old(objects)@.len() ==> (#[trigger] old(objects)@[i]) < keys@.len(),
        old(objects)@.no_duplicates(),
        nodes_wf(old(nodes)@, keys@),
        old(nodes)@.len() + 2 * (end - start) <= usize::MAX,
    ensures
        final(objects)@.no_duplicates(),
        final(objects)@.len() == old(objects)@.len(),
        forall|i: int| 0 <= i < old(objects)@.len() ==> (#[trigger] final(objects)@[i]) < keys@.len(),
        forall|i: int|
            0 <= i < old(objects)@.len() && !(start <= i < end) ==> #[trigger] final(objects)@[i]
                == old(objects)@[i],
        final(objects)@.subrange(start as int, end as int).to_multiset() == old(
            objects,
        )@.subrange(start as int, end as int).to_multiset(),
        is_prefix(old(nodes)@, final(nodes)@),
        old(nodes)@.len() < final(nodes)@.len() <= old(nodes)@.len() + 2 * (end - start) - 1,
        nodes_wf(final(nodes)@, keys@),
        r == final(nodes)@.len() - 1,
        leaves(final(nodes)@, BvhChild::Node(r)) == final(objects)@.subrange(
            start as int,
            end as int,
        ).to_set(),
    decreases end - start,
{
    let axis = random_i32_1(0, 3) as usize;
    let span = end - start;
    let ghost nodes0 = nodes@;
    let ghost objects0 = objects@;
    if span <= 2 {
        let a = objects[start];
        let b = objects[end - 1];
        let (left, right) = if span == 1 || key_on(&keys[a], axis) < key_on(&keys[b], axis) {
            (a, b)
        } else {
            (b, a)
        };
        let k = nodes.len();
        nodes.push(BvhNode { left: BvhChild::Leaf(left), right: BvhChild::Leaf(right), axis });
        proof {
            assert(is_prefix(nodes0, nodes@));
            lemma_nodes_wf_extend(nodes0, nodes@, keys@);
            assert(leaves(nodes@, BvhChild::Leaf(left)) == set![left]);
            assert(leaves(nodes@, BvhChild::Leaf(right)) == set![right]);
            if span == 2 {
                assert(a != b);
            }
            assert(node_wf(nodes@, k as int, keys@));
            let sub = objects@.subrange(start as int, end as int);
            if span == 1 {
                assert(sub =~= seq![a]);
                assert(sub[0] == a);
                assert(sub.to_set() =~= set![a]);
            } else {
                assert(sub =~= seq![a, b]);
                assert(sub[0] == a && sub[1] == b);
                assert(sub.to_set() =~= set![a, b]);
            }
            assert(leaves(nodes@, BvhChild::Node(k)) =~= sub.to_set());
        }
        k
    } else {
        sort_span(keys, objects, start, end, axis);
        let ghost objects1 = objects@;
        proof {
            lemma_span_shuffle_keeps_distinct(objects0, objects1, start as int, end as int);
        }
        let mid = start + span / 2;
        let left = build_span(keys, objects, nodes, start, mid);
        let ghost objects2 = objects@;
        let ghost nodes2 = nodes@;
        let right = build_span(keys, objects, nodes, mid, end);
        let ghost objects3 = objects@;
        let ghost nodes3 = nodes@;
        let k = nodes.len();
        nodes.push(BvhNode { left: BvhChild::Node(left), right: BvhChild::Node(right), axis });
        proof {
            let s = start as int;
            let m = mid as int;
            let e = end as int;
            assert(objects3.subrange(s, m) =~= objects2.subrange(s, m));
            assert(objects2.subrange(m, e) =~= objects1.subrange(m, e));
            assert(objects3.subrange(s, e) =~= objects3.subrange(s, m) + objects3.subrange(m, e));
            assert(objects2.subrange(s, e) =~= objects2.subrange(s, m) + objects2.subrange(m, e));
            assert(objects1.subrange(s, e) =~= objects1.subrange(s, m) + objects1.subrange(m, e));
            vstd::seq_lib::lemma_multiset_commutative(objects3.subrange(s, m), objects3.subrange(m, e));
            vstd::seq_lib::lemma_multiset_commutative(objects2.subrange(s, m), objects2.subrange(m, e));
            vstd::seq_lib::lemma_multiset_commutative(objects1.subrange(s, m), objects1.subrange(m, e));
            assert(objects3.subrange(s, e).to_multiset() == objects0.subrange(s, e).to_multiset());
            assert(is_prefix(nodes2, nodes@));
            assert(is_prefix(nodes3, nodes@));
            lemma_leaves_extend(nodes2, nodes@, BvhChild::Node(left));
            lemma_leaves_extend(nodes3, nodes@, BvhChild::Node(right));
            lemma_nodes_wf_extend(nodes3, nodes@, keys@);
            let lset = leaves(nodes@, BvhChild::Node(left));
            let rset = leaves(nodes@, BvhChild::Node(right));
            assert(lset == objects3.subrange(s, m).to_set());
            assert(rset == objects3.subrange(m, e).to_set());
            lemma_same_multiset_same_set(objects2.subrange(s, m), objects1.subrange(s, m));
            lemma_same_multiset_same_set(objects3.subrange(m, e), objects1.subrange(m, e));
            assert forall|x: usize, y: usize|
                #![trigger lset.contains(x), rset.contains(y)]
                lset.contains(x) && rset.contains(y) implies axis_key(keys@[x as int], axis as int)
                    <= axis_key(keys@[y as int], axis as int) by {
                assert(objects1.subrange(s, m).contains(x));
                assert(objects1.subrange(m, e).contains(y));
                let a = choose|a: int| 0 <= a < m - s && objects1.subrange(s, m)[a] == x;
                let b = choose|b: int| 0 <= b < e - m && objects1.subrange(m, e)[b] == y;
                assert(key_at(keys@, objects1, s + a, axis as int) <= key_at(keys@, objects1, m + b, axis as int));
            }
            assert(lset.disjoint(rset)) by {
                assert forall|x: usize| lset.contains(x) implies !rset.contains(x) by {
                    if rset.contains(x) {
                        assert(objects3.subrange(s, m).contains(x));
                        assert(objects3.subrange(m, e).contains(x));
                        let a = choose|a: int| 0 <= a < m - s && objects3.subrange(s, m)[a] == x;
                        let b = choose|b: int| 0 <= b < e - m && objects3.subrange(m, e)[b] == x;
                        assert(objects3[s + a] == objects3[m + b]);
                    }
                }
            }
            assert(node_wf(nodes@, k as int, keys@));
            vstd::seq_lib::seq_to_set_distributes_over_add(objects3.subrange(s, m), objects3.subrange(m, e));
            assert(leaves(nodes@, BvhChild::Node(k)) =~= objects3.subrange(s, e).to_set());
        }
        k
    }
}

} // verus!

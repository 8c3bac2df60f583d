//! Bounding-volume hierarchy over primitive indices.
//!
//! The tree is kept in an arena: every inner node refers to children stored at
//! smaller indices, and every leaf holds a short list of primitive indices.
//! Each primitive is summarised, for building, by the minimum corner of its
//! bounding box, given on each axis as an order-preserving integer key.

use crate::random::rand_range;
use vstd::prelude::*;

verus! {

broadcast use {vstd::seq_lib::group_to_multiset_ensures, vstd::multiset::group_multiset_axioms};

/// Largest number of primitives kept in one leaf; larger sets are split.
pub const LEAF_SIZE: usize = 32;

/// A node of the hierarchy.
#[derive(Debug)]
pub enum BvhNode {
    /// A flat list of primitive indices, scanned linearly.
    Leaf { items: Vec<usize> },
    /// Two subtrees whose primitives were split at the median along `axis`.
    Inner { left: usize, right: usize, axis: usize },
}

/// A hierarchy over the primitives `0 .. count`, rooted at `nodes[root]`.
pub struct BVH {
    pub nodes: Vec<BvhNode>,
    pub root: usize,
    pub count: usize,
}

/// The primitive indices below node `k`, left subtree first.
pub open spec fn items_of(nodes: Seq<BvhNode>, k: int) -> Seq<usize>
    decreases k,
{
    if 0 <= k < nodes.len() {
        match nodes[k] {
            BvhNode::Leaf { items } => items@,
            BvhNode::Inner { left, right, axis: _ } => {
                if left < k && right < k {
                    items_of(nodes, left as int) + items_of(nodes, right as int)
                } else {
                    Seq::empty()
                }
            },
        }
    } else {
        Seq::empty()
    }
}

/// The indices `0 .. n` in order.
pub open spec fn all_indices(n: nat) -> Seq<usize> {
    Seq::new(n, |i: int| i as usize)
}

/// Shape of node `k`: leaves hold between one and `LEAF_SIZE` valid indices;
/// an inner node holds more than `LEAF_SIZE`, refers to earlier nodes, and its
/// left subtree holds the lower half (rounded down).
pub open spec fn node_shape_ok(nodes: Seq<BvhNode>, count: int, k: int) -> bool {
    match nodes[k] {
        BvhNode::Leaf { items } => {
            &&& 1 <= items@.len() <= LEAF_SIZE
            &&& forall|j: int| 0 <= j < items@.len() ==> #[trigger] items@[j] < count
        },
        BvhNode::Inner { left, right, axis } => {
            let nl = items_of(nodes, left as int).len();
            let nr = items_of(nodes, right as int).len();
            &&& left < k
            &&& right < k
            &&& axis < 3
            &&& nl + nr > LEAF_SIZE
            &&& nl == (nl + nr) / 2
        },
    }
}

/// Every key of `l` on `axis` is at most every key of `r` on `axis`.
pub open spec fn split_ordered(keys: Seq<[u64; 3]>, l: Seq<usize>, r: Seq<usize>, axis: int) -> bool {
    forall|a: int, b: int|
        #![trigger l[a], r[b]]
        0 <= a < l.len() && 0 <= b < r.len() ==> keys[l[a] as int][axis] <= keys[r[b] as int][axis]
}

/// An inner node `k` separates its primitives by their keys on its axis.
pub open spec fn node_split_ok(nodes: Seq<BvhNode>, keys: Seq<[u64; 3]>, k: int) -> bool {
    match nodes[k] {
        BvhNode::Leaf { .. } => true,
        BvhNode::Inner { left, right, axis } => split_ordered(
            keys,
            items_of(nodes, left as int),
            items_of(nodes, right as int),
            axis as int,
        ),
    }
}

/// Node `k` has its shape and, if inner, separates its primitives by `keys`.
pub open spec fn node_ok(nodes: Seq<BvhNode>, keys: Seq<[u64; 3]>, k: int) -> bool {
    node_shape_ok(nodes, keys.len() as int, k) && node_split_ok(nodes, keys, k)
}

impl BVH {
    /// Structural validity: every node has its shape, and the root holds each
    /// of the indices `0 .. count` exactly once.
    pub open spec fn wf(self) -> bool {
        &&& self.root < self.nodes@.len()
        &&& forall|k: int|
            0 <= k < self.nodes@.len() ==> #[trigger] node_shape_ok(self.nodes@, self.count as int, k)
        &&& items_of(self.nodes@, self.root as int).to_multiset() == all_indices(
            self.count as nat,
        ).to_multiset()
    }

    /// Every inner node splits its primitives by `keys` on its axis.
    pub open spec fn split_by(self, keys: Seq<[u64; 3]>) -> bool {
        forall|k: int| 0 <= k < self.nodes@.len() ==> #[trigger] node_split_ok(self.nodes@, keys, k)
    }
}

/// Nodes below `k` do not change when nodes are appended.
proof fn lemma_items_prefix(n1: Seq<BvhNode>, n2: Seq<BvhNode>, k: int)
    requires
        0 <= k < n1.len() <= n2.len(),
        n2.subrange(0, n1.len() as int) == n1,
    ensures
        items_of(n2, k) == items_of(n1, k),
    decreases k,
{
    assert(n2[k] == n1[k]);
    match n1[k] {
        BvhNode::Inner { left, right, axis: _ } => {
            if left < k && right < k {
                lemma_items_prefix(n1, n2, left as int);
                lemma_items_prefix(n1, n2, right as int);
            }
        },
        BvhNode::Leaf { .. } => {},
    }
}

proof fn lemma_node_ok_prefix(n1: Seq<BvhNode>, n2: Seq<BvhNode>, keys: Seq<[u64; 3]>, k: int)
    requires
        0 <= k < n1.len() <= n2.len(),
        n2.subrange(0, n1.len() as int) == n1,
        node_ok(n1, keys, k),
    ensures
        node_ok(n2, keys, k),
{
    assert(n2[k] == n1[k]);
    match n1[k] {
        BvhNode::Inner { left, right, axis: _ } => {
            lemma_items_prefix(n1, n2, left as int);
            lemma_items_prefix(n1, n2, right as int);
        },
        BvhNode::Leaf { .. } => {},
    }
}

/// The key of primitive `i` on `axis`.
fn axis_key(keys: &Vec<[u64; 3]>, i: usize, axis: usize) -> (r: u64)
    requires
        i < keys@.len(),
        axis < 3,
    ensures
        r == keys@[i as int][axis as int],
{
    keys[i][axis]
}

/// Relies on std's `slice::sort_unstable_by_key`: afterwards the slice holds
/// the same elements, in non-decreasing order of the key.
#[verifier::external_body]
fn sort_on_axis(ids: &mut Vec<usize>, keys: &Vec<[u64; 3]>, axis: usize)
    requires
        axis < 3,
        forall|j: int| 0 <= j < old(ids)@.len() ==> old(ids)@[j] < keys@.len(),
    ensures
        final(ids)@.to_multiset() == old(ids)@.to_multiset(),
        forall|a: int, b: int|
            0 <= a <= b < final(ids)@.len() ==> keys@[final(ids)@[a] as int][axis as int]
                <= keys@[final(ids)@[b] as int][axis as int],
{
    ids.sort_unstable_by_key(|i| axis_key(keys, *i, axis));
}

/// Appends the subtree over `ids` to `nodes` and returns the index of its root,
/// which is the last node.
fn build_node(nodes: &mut Vec<BvhNode>, keys: &Vec<[u64; 3]>, ids: Vec<usize>) -> (k: usize)
    requires
        ids@.len() >= 1,
        forall|j: int| 0 <= j < ids@.len() ==> #[trigger] ids@[j] < keys@.len(),
        forall|j: int| 0 <= j < old(nodes)@.len() ==> #[trigger] node_ok(old(nodes)@, keys@, j),
    ensures
        old(nodes)@.len() <= k,
        k as int == final(nodes)@.len() - 1,
        final(nodes)@.subrange(0, old(nodes)@.len() as int) == old(nodes)@,
        forall|j: int| 0 <= j < final(nodes)@.len() ==> #[trigger] node_ok(final(nodes)@, keys@, j),
        items_of(final(nodes)@, k as int).to_multiset() == ids@.to_multiset(),
    decreases ids@.len(),
{
    let n = ids.len();
    let ghost before = nodes@;
    if n <= LEAF_SIZE {
        let ghost ids_s = ids@;
        nodes.push(BvhNode::Leaf { items: ids });
        proof {
            assert(nodes@.subrange(0, before.len() as int) == before);
            assert forall|j: int| 0 <= j < nodes@.len() implies #[trigger] node_ok(nodes@, keys@, j) by {
                if j < before.len() {
                    lemma_node_ok_prefix(before, nodes@, keys@, j);
                } else {
                    assert(items_of(nodes@, j) == ids_s);
                }
            }
        }
        return nodes.len() - 1;
    }
    let axis = rand_range(0, 3);
    let mut sorted = ids;
    sort_on_axis(&mut sorted, keys, axis);
    let ghost s = sorted@;
    proof {
        assert(s.to_multiset().len() == ids@.to_multiset().len());
    }
    let m = n / 2;
    let right_ids = sorted.split_off(m);
    let left_ids = sorted;
    proof {
        assert(s =~= left_ids@ + right_ids@);
        assert forall|j: int| 0 <= j < s.len() implies #[trigger] s[j] < keys@.len() by {
            assert(s.to_multiset().count(s[j]) > 0);
            assert(ids@.contains(s[j]));
        }
        assert forall|j: int| 0 <= j < left_ids@.len() implies #[trigger] left_ids@[j] < keys@.len() by {
            assert(left_ids@[j] == s[j]);
        }
        assert forall|j: int| 0 <= j < right_ids@.len() implies #[trigger] right_ids@[j] < keys@.len() by {
            assert(right_ids@[j] == s[j + m]);
        }
    }
    let ghost ls = left_ids@;
    let ghost rs = right_ids@;
    let l = build_node(nodes, keys, left_ids);
    let ghost n1 = nodes@;
    let r = build_node(nodes, keys, right_ids);
    let ghost n2 = nodes@;
    nodes.push(BvhNode::Inner { left: l, right: r, axis });
    proof {
        let fin = nodes@;
        let k = n2.len() as int;
        assert(n2.subrange(0, n1.len() as int) == n1) by {
            assert(n2.subrange(0, n1.len() as int) =~= n2.subrange(
                0,
                n1.len() as int,
            ).subrange(0, n1.len() as int));
        }
        assert(fin.subrange(0, n2.len() as int) =~= n2);
        lemma_items_prefix(n1, n2, l as int);
        lemma_items_prefix(n2, fin, l as int);
        lemma_items_prefix(n2, fin, r as int);
        let li = items_of(fin, l as int);
        let ri = items_of(fin, r as int);
        assert(li.to_multiset() == ls.to_multiset());
        assert(ri.to_multiset() == rs.to_multiset());
        assert(items_of(fin, k) == li + ri);
        vstd::seq_lib::lemma_multiset_commutative(li, ri);
        vstd::seq_lib::lemma_multiset_commutative(ls, rs);
        assert(li.len() == ls.len());
        assert(ri.len() == rs.len());
        assert forall|a: int, b: int| 0 <= a < li.len() && 0 <= b < ri.len() implies keys@[li[a] as int][axis as int]
            <= keys@[ri[b] as int][axis as int] by {
            assert(li.to_multiset().count(li[a]) > 0);
            assert(ls.contains(li[a]));
            let p = choose|p: int| 0 <= p < ls.len() && ls[p] == li[a];
            assert(ri.to_multiset().count(ri[b]) > 0);
            assert(rs.contains(ri[b]));
            let q = choose|q: int| 0 <= q < rs.len() && rs[q] == ri[b];
            assert(s[p] == ls[p]);
            assert(s[q + m] == rs[q]);
        }
        assert(node_ok(fin, keys@, k));
        assert(fin.subrange(0, before.len() as int) =~= before);
        assert forall|j: int| 0 <= j < fin.len() implies #[trigger] node_ok(fin, keys@, j) by {
            if j < n2.len() {
                lemma_node_ok_prefix(n2, fin, keys@, j);
            }
        }
        assert(n2.subrange(0, before.len() as int) =~= n1.subrange(0, before.len() as int));
    }
    nodes.len() - 1
}

impl BVH {
    /// Builds the hierarchy over the primitives `0 .. keys.len()`, where
    /// `keys[i][a]` orders primitive `i` along axis `a`. At most `LEAF_SIZE`
    /// primitives form a single leaf; more are split at the median along an
    /// axis drawn at random, and each half is built the same way.
    pub fn build(keys: &Vec<[u64; 3]>) -> (r: BVH)
        requires
            keys@.len() >= 1,
        ensures
            r.wf(),
            r.count == keys@.len(),
            r.split_by(keys@),
            keys@.len() <= LEAF_SIZE <==> r.nodes@[r.root as int] is Leaf,
    {
        let n = keys.len();
        let mut ids: Vec<usize> = Vec::new();
        let mut i: usize = 0;
        while i < n
            invariant
                i <= n == keys@.len(),
                ids@ == all_indices(i as nat),
            decreases n - i,
        {
            ids.push(i);
            i = i + 1;
            proof {
                assert(ids@ =~= all_indices(i as nat));
            }
        }
        let mut nodes: Vec<BvhNode> = Vec::new();
        let ghost id_seq = ids@;
        let root = build_node(&mut nodes, keys, ids);
        let r = BVH { nodes, root, count: n };
        proof {
            assert forall|k: int| 0 <= k < r.nodes@.len() implies #[trigger] node_shape_ok(
                r.nodes@,
                r.count as int,
                k,
            ) by {
                assert(node_ok(r.nodes@, keys@, k));
            }
            assert forall|k: int| 0 <= k < r.nodes@.len() implies #[trigger] node_split_ok(
                r.nodes@,
                keys@,
                k,
            ) by {
                assert(node_ok(r.nodes@, keys@, k));
            }
            let top = items_of(r.nodes@, r.root as int);
            assert(top.len() == n) by {
                assert(top.to_multiset().len() == id_seq.to_multiset().len());
            }
            assert(node_shape_ok(r.nodes@, r.count as int, r.root as int));
        }
        r
    }
}

/// The key of a hit, if any.
pub open spec fn hit_key(h: Option<(usize, u64)>) -> Option<u64> {
    match h {
        Some(p) => Some(p.1),
        None => None,
    }
}

/// Scans the primitives `s` in order, keeping the closest hit so far; a later
/// hit replaces it only when strictly nearer. `hits[i]` is the key of the
/// distance at which primitive `i` is hit, if it is.
pub open spec fn scan_closest(hits: Seq<Option<u64>>, s: Seq<usize>) -> Option<(usize, u64)>
    decreases s.len(),
{
    if s.len() == 0 {
        None
    } else {
        let prev = scan_closest(hits, s.drop_last());
        let i = s.last();
        match hits[i as int] {
            None => prev,
            Some(t) => match prev {
                Some(p) => if t < p.1 {
                    Some((i, t))
                } else {
                    prev
                },
                None => Some((i, t)),
            },
        }
    }
}

/// The nearer of two hits; the right one on a tie.
pub open spec fn nearer(l: Option<(usize, u64)>, r: Option<(usize, u64)>) -> Option<(usize, u64)> {
    match (l, r) {
        (Some(a), Some(b)) => if a.1 < b.1 {
            l
        } else {
            r
        },
        (Some(_), None) => l,
        (None, _) => r,
    }
}

/// The hit that a query at node `k` reports: a leaf scans its primitives; an
/// inner node reports nothing when the ray misses its box (`boxes[k]` false),
/// else the nearer of its children's hits.
pub open spec fn node_hit(
    nodes: Seq<BvhNode>,
    boxes: Seq<bool>,
    hits: Seq<Option<u64>>,
    k: int,
) -> Option<(usize, u64)>
    decreases k,
{
    if 0 <= k < nodes.len() {
        match nodes[k] {
            BvhNode::Leaf { items } => scan_closest(hits, items@),
            BvhNode::Inner { left, right, axis: _ } => {
                if left < k && right < k && boxes[k] {
                    nearer(node_hit(nodes, boxes, hits, left as int), node_hit(nodes, boxes, hits, right as int))
                } else {
                    None
                }
            },
        }
    } else {
        None
    }
}

/// The closest hit among all primitives, found by one linear scan.
pub open spec fn linear_scan(hits: Seq<Option<u64>>) -> Option<(usize, u64)> {
    scan_closest(hits, all_indices(hits.len()))
}

/// Boxes that bound their primitives: whenever the ray misses the box of an
/// inner node, it hits none of the primitives below that node.
pub open spec fn boxes_sound(nodes: Seq<BvhNode>, boxes: Seq<bool>, hits: Seq<Option<u64>>) -> bool {
    forall|k: int, j: int|
        0 <= k < nodes.len() && nodes[k] is Inner && !boxes[k] && 0 <= j < items_of(nodes, k).len()
            ==> #[trigger] hits[#[trigger] items_of(nodes, k)[j] as int] is None
}

/// The answers `boxes` and `hits` agree with every result that the tests
/// `box_hit` (node index to whether the ray meets that node's box) and
/// `prim_hit` (primitive index to the key of the distance at which the ray
/// meets it) can return.
pub open spec fn answers_match<B: Fn(usize) -> bool, P: Fn(usize) -> Option<u64>>(
    box_hit: B,
    prim_hit: P,
    boxes: Seq<bool>,
    hits: Seq<Option<u64>>,
) -> bool {
    &&& forall|k: usize, b: bool| #[trigger] box_hit.ensures((k,), b) && k < boxes.len() ==> b == boxes[k as int]
    &&& forall|i: usize, h: Option<u64>|
        #[trigger] prim_hit.ensures((i,), h) && i < hits.len() ==> h == hits[i as int]
}

fn scan_leaf_by<P: Fn(usize) -> Option<u64>>(items: &Vec<usize>, count: usize, prim_hit: &P) -> (r: Option<
    (usize, u64),
>)
    requires
        forall|j: int| 0 <= j < items@.len() ==> #[trigger] items@[j] < count,
        forall|i: usize| i < count ==> #[trigger] prim_hit.requires((i,)),
    ensures
        forall|hits: Seq<Option<u64>>|
            hits.len() == count && (forall|i: usize, h: Option<u64>|
                #[trigger] prim_hit.ensures((i,), h) && i < hits.len() ==> h == hits[i as int]) ==> r
                == scan_closest(hits, items@),
{
    let mut best: Option<(usize, u64)> = None;
    let mut j: usize = 0;
    while j < items.len()
        invariant
            j <= items@.len(),
            forall|j: int| 0 <= j < items@.len() ==> #[trigger] items@[j] < count,
            forall|i: usize| i < count ==> #[trigger] prim_hit.requires((i,)),
            forall|hits: Seq<Option<u64>>|
                hits.len() == count && (forall|i: usize, h: Option<u64>|
                    #[trigger] prim_hit.ensures((i,), h) && i < hits.len() ==> h == hits[i as int]) ==> best
                    == scan_closest(hits, items@.subrange(0, j as int)),
        decreases items@.len() - j,
    {
        let i = items[j];
        let h = prim_hit(i);
        let ghost old_best = best;
        match h {
            None => {},
            Some(t) => {
                match best {
                    Some(p) => {
                        if t < p.1 {
                            best = Some((i, t));
                        }
                    },
                    None => {
                        best = Some((i, t));
                    },
                }
            },
        }
        proof {
            assert(items@.subrange(0, j + 1).drop_last() =~= items@.subrange(0, j as int));
            assert forall|hits: Seq<Option<u64>>|
                hits.len() == count && (forall|i: usize, h: Option<u64>|
                    #[trigger] prim_hit.ensures((i,), h) && i < hits.len() ==> h == hits[i as int]) implies best
                    == scan_closest(hits, items@.subrange(0, j + 1)) by {
                assert(h == hits[i as int]);
                assert(old_best == scan_closest(hits, items@.subrange(0, j as int)));
            }
        }
        j = j + 1;
    }
    proof {
        assert(items@.subrange(0, items@.len() as int) =~= items@);
    }
    best
}

impl BVH {
    fn hit_node_by<B: Fn(usize) -> bool, P: Fn(usize) -> Option<u64>>(
        &self,
        k: usize,
        box_hit: &B,
        prim_hit: &P,
    ) -> (r: Option<(usize, u64)>)
        requires
            self.wf(),
            k < self.nodes@.len(),
            forall|j: usize| j < self.nodes@.len() ==> #[trigger] box_hit.requires((j,)),
            forall|i: usize| i < self.count ==> #[trigger] prim_hit.requires((i,)),
        ensures
            forall|boxes: Seq<bool>, hits: Seq<Option<u64>>|
                boxes.len() == self.nodes@.len() && hits.len() == self.count && #[trigger] answers_match(
                    *box_hit,
                    *prim_hit,
                    boxes,
                    hits,
                ) ==> r == node_hit(self.nodes@, boxes, hits, k as int),
        decreases k,
    {
        assert(node_shape_ok(self.nodes@, self.count as int, k as int));
        match &self.nodes[k] {
            BvhNode::Leaf { items } => scan_leaf_by(items, self.count, prim_hit),
            BvhNode::Inner { left, right, axis: _ } => {
                let met = box_hit(k);
                if !met {
                    return None;
                }
                let l = self.hit_node_by(*left, box_hit, prim_hit);
                let r = self.hit_node_by(*right, box_hit, prim_hit);
                match (l, r) {
                    (Some(a), Some(b)) => if a.1 < b.1 {
                        l
                    } else {
                        r
                    },
                    (Some(_), None) => l,
                    (None, _) => r,
                }
            },
        }
    }

    /// The closest hit of a ray: the primitive and the key of its distance.
    /// `box_hit(k)` tells whether the ray meets the box of inner node `k`, and
    /// `prim_hit(i)` whether and where it meets primitive `i`; they are called
    /// only along the traversal. Subtrees whose box is missed are skipped; both
    /// children of a node whose box is met are queried, and the nearer answer
    /// wins. For any answers that the two tests are consistent with, the
    /// result is the one `node_hit` gives.
    pub fn closest_hit_by<B: Fn(usize) -> bool, P: Fn(usize) -> Option<u64>>(
        &self,
        box_hit: &B,
        prim_hit: &P,
    ) -> (r: Option<(usize, u64)>)
        requires
            self.wf(),
            forall|j: usize| j < self.nodes@.len() ==> #[trigger] box_hit.requires((j,)),
            forall|i: usize| i < self.count ==> #[trigger] prim_hit.requires((i,)),
        ensures
            forall|boxes: Seq<bool>, hits: Seq<Option<u64>>|
                boxes.len() == self.nodes@.len() && hits.len() == self.count && #[trigger] answers_match(
                    *box_hit,
                    *prim_hit,
                    boxes,
                    hits,
                ) ==> r == node_hit(self.nodes@, boxes, hits, self.root as int),
    {
        self.hit_node_by(self.root, box_hit, prim_hit)
    }

    /// The closest hit of a ray, from the answers of all box and primitive
    /// tests: `boxes[k]` for the box of node `k` (read for inner nodes only),
    /// `hits[i]` for primitive `i`. A reported primitive is hit at the
    /// reported key.
    pub fn closest_hit(&self, boxes: &Vec<bool>, hits: &Vec<Option<u64>>) -> (r: Option<(usize, u64)>)
        requires
            self.wf(),
            boxes@.len() == self.nodes@.len(),
            hits@.len() == self.count,
        ensures
            r == node_hit(self.nodes@, boxes@, hits@, self.root as int),
            r matches Some(p) ==> p.0 < self.count && hits@[p.0 as int] == Some(p.1),
    {
        let box_hit = |k: usize| -> (b: bool)
            requires
                k < boxes@.len(),
            ensures
                b == boxes@[k as int],
            { boxes[k] };
        let prim_hit = |i: usize| -> (h: Option<u64>)
            requires
                i < hits@.len(),
            ensures
                h == hits@[i as int],
            { hits[i] };
        proof {
            lemma_node_hit_valid(*self, boxes@, hits@, self.root as int);
            assert(answers_match(box_hit, prim_hit, boxes@, hits@));
        }
        self.closest_hit_by(&box_hit, &prim_hit)
    }
}

/// The minimum of two optional keys.
pub open spec fn min_opt(a: Option<u64>, b: Option<u64>) -> Option<u64> {
    match (a, b) {
        (Some(x), Some(y)) => Some(if x <= y { x } else { y }),
        (Some(x), None) => Some(x),
        (None, _) => b,
    }
}

/// The smallest key among the hits of the primitives `s`.
pub open spec fn closest_key(hits: Seq<Option<u64>>, s: Seq<usize>) -> Option<u64>
    decreases s.len(),
{
    if s.len() == 0 {
        None
    } else {
        min_opt(closest_key(hits, s.drop_last()), hits[s.last() as int])
    }
}

proof fn lemma_scan_key(hits: Seq<Option<u64>>, s: Seq<usize>)
    ensures
        hit_key(scan_closest(hits, s)) == closest_key(hits, s),
        scan_closest(hits, s) matches Some(p) ==> hits[p.0 as int] == Some(p.1) && s.contains(p.0),
    decreases s.len(),
{
    if s.len() > 0 {
        lemma_scan_key(hits, s.drop_last());
        if let Some(p) = scan_closest(hits, s.drop_last()) {
            let j = choose|j: int| 0 <= j < s.drop_last().len() && s.drop_last()[j] == p.0;
            assert(s[j] == p.0);
        }
        assert(s[s.len() - 1] == s.last());
    }
}

proof fn lemma_closest_char(hits: Seq<Option<u64>>, s: Seq<usize>)
    ensures
        closest_key(hits, s) is None ==> forall|j: int| 0 <= j < s.len() ==> (#[trigger] hits[s[j] as int]) is None,
        closest_key(hits, s) matches Some(t) ==> {
            &&& exists|j: int| 0 <= j < s.len() && #[trigger] hits[s[j] as int] == Some(t)
            &&& forall|j: int|
                0 <= j < s.len() && (#[trigger] hits[s[j] as int]) is Some ==> t <= hits[s[j] as int]->0
        },
    decreases s.len(),
{
    if s.len() > 0 {
        let d = s.drop_last();
        let n = s.len() - 1;
        lemma_closest_char(hits, d);
        assert(s.last() == s[n]);
        if closest_key(hits, s) is None {
            assert forall|j: int| 0 <= j < s.len() implies (#[trigger] hits[s[j] as int]) is None by {
                if j < n {
                    assert(d[j] == s[j]);
                }
            }
        }
        if let Some(t) = closest_key(hits, s) {
            if hits[s[n] as int] != Some(t) {
                let j = choose|j: int| 0 <= j < d.len() && #[trigger] hits[d[j] as int] == Some(t);
                assert(d[j] == s[j]);
                assert(hits[s[j] as int] == Some(t));
            }
            assert forall|j: int|
                0 <= j < s.len() && (#[trigger] hits[s[j] as int]) is Some implies t <= hits[s[j]
                as int]->0 by {
                if j < n {
                    assert(d[j] == s[j]);
                    assert(hits[d[j] as int] is Some);
                }
            }
        }
    }
}

proof fn lemma_closest_same_elements(hits: Seq<Option<u64>>, s1: Seq<usize>, s2: Seq<usize>)
    requires
        forall|x: usize| s1.contains(x) <==> s2.contains(x),
    ensures
        closest_key(hits, s1) == closest_key(hits, s2),
{
    lemma_closest_char(hits, s1);
    lemma_closest_char(hits, s2);
    match (closest_key(hits, s1), closest_key(hits, s2)) {
        (Some(t1), Some(t2)) => {
            let j1 = choose|j: int| 0 <= j < s1.len() && #[trigger] hits[s1[j] as int] == Some(t1);
            assert(s2.contains(s1[j1]));
            let k1 = choose|k: int| 0 <= k < s2.len() && s2[k] == s1[j1];
            assert(hits[s2[k1] as int] == Some(t1));
            let j2 = choose|j: int| 0 <= j < s2.len() && #[trigger] hits[s2[j] as int] == Some(t2);
            assert(s1.contains(s2[j2]));
            let k2 = choose|k: int| 0 <= k < s1.len() && s1[k] == s2[j2];
            assert(hits[s1[k2] as int] == Some(t2));
        },
        (Some(t1), None) => {
            let j1 = choose|j: int| 0 <= j < s1.len() && #[trigger] hits[s1[j] as int] == Some(t1);
            assert(s2.contains(s1[j1]));
            let k1 = choose|k: int| 0 <= k < s2.len() && s2[k] == s1[j1];
            assert(hits[s2[k1] as int] is None);
        },
        (None, Some(t2)) => {
            let j2 = choose|j: int| 0 <= j < s2.len() && #[trigger] hits[s2[j] as int] == Some(t2);
            assert(s1.contains(s2[j2]));
            let k2 = choose|k: int| 0 <= k < s1.len() && s1[k] == s2[j2];
            assert(hits[s1[k2] as int] is None);
        },
        (None, None) => {},
    }
}

proof fn lemma_closest_concat(hits: Seq<Option<u64>>, a: Seq<usize>, b: Seq<usize>)
    ensures
        closest_key(hits, a + b) == min_opt(closest_key(hits, a), closest_key(hits, b)),
    decreases b.len(),
{
    if b.len() == 0 {
        assert(a + b =~= a);
    } else {
        lemma_closest_concat(hits, a, b.drop_last());
        assert((a + b).drop_last() =~= a + b.drop_last());
        assert((a + b).last() == b.last());
    }
}

proof fn lemma_closest_none(hits: Seq<Option<u64>>, s: Seq<usize>)
    requires
        forall|j: int| 0 <= j < s.len() ==> (#[trigger] hits[s[j] as int]) is None,
    ensures
        closest_key(hits, s) is None,
    decreases s.len(),
{
    if s.len() > 0 {
        let d = s.drop_last();
        assert forall|j: int| 0 <= j < d.len() implies (#[trigger] hits[d[j] as int]) is None by {
            assert(d[j] == s[j]);
        }
        lemma_closest_none(hits, d);
        assert(hits[s[s.len() - 1] as int] is None);
    }
}

proof fn lemma_node_hit_valid(bvh: BVH, boxes: Seq<bool>, hits: Seq<Option<u64>>, k: int)
    requires
        bvh.wf(),
        0 <= k < bvh.nodes@.len(),
    ensures
        node_hit(bvh.nodes@, boxes, hits, k) matches Some(p) ==> hits[p.0 as int] == Some(p.1) && p.0
            < bvh.count,
    decreases k,
{
    let nodes = bvh.nodes@;
    assert(node_shape_ok(nodes, bvh.count as int, k));
    match nodes[k] {
        BvhNode::Leaf { items } => {
            lemma_scan_key(hits, items@);
            if let Some(p) = scan_closest(hits, items@) {
                let j = choose|j: int| 0 <= j < items@.len() && items@[j] == p.0;
                assert(items@[j] < bvh.count);
            }
        },
        BvhNode::Inner { left, right, axis: _ } => {
            lemma_node_hit_valid(bvh, boxes, hits, left as int);
            lemma_node_hit_valid(bvh, boxes, hits, right as int);
        },
    }
}

proof fn lemma_node_hit(bvh: BVH, boxes: Seq<bool>, hits: Seq<Option<u64>>, k: int)
    requires
        bvh.wf(),
        0 <= k < bvh.nodes@.len(),
        boxes.len() == bvh.nodes@.len(),
        boxes_sound(bvh.nodes@, boxes, hits),
    ensures
        hit_key(node_hit(bvh.nodes@, boxes, hits, k)) == closest_key(hits, items_of(bvh.nodes@, k)),
        node_hit(bvh.nodes@, boxes, hits, k) matches Some(p) ==> hits[p.0 as int] == Some(p.1),
    decreases k,
{
    let nodes = bvh.nodes@;
    assert(node_shape_ok(nodes, bvh.count as int, k));
    match nodes[k] {
        BvhNode::Leaf { items } => {
            lemma_scan_key(hits, items@);
        },
        BvhNode::Inner { left, right, axis: _ } => {
            let is = items_of(nodes, k);
            if boxes[k] {
                lemma_node_hit(bvh, boxes, hits, left as int);
                lemma_node_hit(bvh, boxes, hits, right as int);
                lemma_closest_concat(hits, items_of(nodes, left as int), items_of(nodes, right as int));
            } else {
                assert forall|j: int| 0 <= j < is.len() implies (#[trigger] hits[is[j] as int]) is None by {
                    assert(hits[items_of(nodes, k)[j] as int] is None);
                }
                lemma_closest_none(hits, is);
            }
        },
    }
}

/// A query through the hierarchy finds a hit exactly when a linear scan over
/// all primitives does, at the same (smallest) distance, provided that the
/// ray misses the primitives below every inner node whose box it misses. The
/// primitive it reports is hit at the distance it reports.
pub proof fn lemma_bvh_agrees_with_linear_scan(bvh: BVH, boxes: Seq<bool>, hits: Seq<Option<u64>>)
    requires
        bvh.wf(),
        boxes.len() == bvh.nodes@.len(),
        hits.len() == bvh.count,
        boxes_sound(bvh.nodes@, boxes, hits),
    ensures
        hit_key(node_hit(bvh.nodes@, boxes, hits, bvh.root as int)) == hit_key(linear_scan(hits)),
        node_hit(bvh.nodes@, boxes, hits, bvh.root as int) matches Some(p) ==> hits[p.0 as int] == Some(p.1),
{
    let top = items_of(bvh.nodes@, bvh.root as int);
    let all = all_indices(hits.len());
    lemma_node_hit(bvh, boxes, hits, bvh.root as int);
    assert forall|x: usize| top.contains(x) <==> all.contains(x) by {
        assert(top.to_multiset().count(x) == all.to_multiset().count(x));
    }
    lemma_closest_same_elements(hits, top, all);
    lemma_scan_key(hits, all);
}

} // verus!

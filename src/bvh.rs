use vstd::prelude::*;
use vstd::seq_lib::lemma_multiset_commutative;

use crate::sort::{indexes_in, key_on, sort_by_axis, sort_on, sorted_on};

verus! {

/// A list of elements is made a leaf when half its length, rounded down, is at
/// most this; leaves therefore hold up to five elements.
pub const LEAF_SPLIT_HALF: usize = 2;

/// The number that a 64-bit sign-magnitude pattern stands for: the low 63 bits,
/// negated when the top bit is set. For the bits of an IEEE 754 double that is not a
/// NaN, numbers in this order are doubles in their own order, the two zeros equal.
pub open spec fn signed_magnitude(bits: u64) -> int {
    if bits >= 0x8000_0000_0000_0000 {
        -(bits - 0x8000_0000_0000_0000)
    } else {
        bits as int
    }
}

/// The unsigned key of a sign-magnitude pattern: patterns with the top bit set are
/// inverted, the others get the top bit set.
pub open spec fn order_key_spec(bits: u64) -> int {
    if bits >= 0x8000_0000_0000_0000 {
        0xffff_ffff_ffff_ffff - bits
    } else {
        bits + 0x8000_0000_0000_0000
    }
}

/// Turns the bits of a double into a key whose unsigned order is the doubles' order,
/// so that centroids can be sorted as integers.
pub fn order_key(bits: u64) -> (r: u64)
    ensures
        r == order_key_spec(bits),
{
    if bits >= 0x8000_0000_0000_0000 {
        let r = !bits;
        assert(r == 0xffff_ffff_ffff_ffff - bits) by (bit_vector)
            requires
                r == !bits,
        ;
        r
    } else {
        let r = bits | 0x8000_0000_0000_0000;
        assert(r == bits + 0x8000_0000_0000_0000) by (bit_vector)
            requires
                r == bits | 0x8000_0000_0000_0000,
                bits < 0x8000_0000_0000_0000,
        ;
        r
    }
}

/// Keys keep the order of the numbers: a smaller number gets a smaller key, and a
/// key no larger than another comes from a number no larger.
pub proof fn lemma_order_key_monotone(a: u64, b: u64)
    ensures
        signed_magnitude(a) < signed_magnitude(b) ==> order_key_spec(a) < order_key_spec(b),
        order_key_spec(a) <= order_key_spec(b) ==> signed_magnitude(a) <= signed_magnitude(b),
{
}

/// Whether no element of `a` comes after an element of `b` on `axis`.
pub open spec fn split_on(a: Seq<usize>, b: Seq<usize>, keys: Seq<(u64, u64, u64)>, axis: usize) -> bool {
    forall|i: int, j: int|
        0 <= i < a.len() && 0 <= j < b.len() ==> key_on(keys[a[i] as int], axis) <= key_on(
            keys[b[j] as int],
            axis,
        )
}

/// Cutting a sorted list at `mid` and rearranging each part leaves no element of
/// the first part after one of the second.
proof fn lemma_split_keeps_order(
    sorted: Seq<usize>,
    mid: int,
    a: Seq<usize>,
    b: Seq<usize>,
    keys: Seq<(u64, u64, u64)>,
    axis: usize,
)
    requires
        0 <= mid <= sorted.len(),
        sorted_on(sorted, keys, axis),
        a.to_multiset() == sorted.subrange(0, mid).to_multiset(),
        b.to_multiset() == sorted.subrange(mid, sorted.len() as int).to_multiset(),
    ensures
        split_on(a, b, keys, axis),
{
    let lo = sorted.subrange(0, mid);
    let hi = sorted.subrange(mid, sorted.len() as int);
    assert forall|i: int, j: int| 0 <= i < a.len() && 0 <= j < b.len() implies key_on(
        keys[a[i] as int],
        axis,
    ) <= key_on(keys[b[j] as int], axis) by {
        a.to_multiset_ensures();
        b.to_multiset_ensures();
        lo.to_multiset_ensures();
        hi.to_multiset_ensures();
        assert(a.contains(a[i]));
        assert(b.contains(b[j]));
        assert(a.to_multiset().count(a[i]) > 0);
        assert(b.to_multiset().count(b[j]) > 0);
        assert(lo.to_multiset().count(a[i]) > 0);
        assert(hi.to_multiset().count(b[j]) > 0);
        assert(lo.contains(a[i]));
        assert(hi.contains(b[j]));
        let p = choose|p: int| 0 <= p < lo.len() && lo[p] == a[i];
        let q = choose|q: int| 0 <= q < hi.len() && hi[q] == b[j];
        assert(sorted[p] == a[i]);
        assert(sorted[mid + q] == b[j]);
    }
}

/// The indices `0, 1, ..., n - 1` in order.
pub open spec fn all_indexes(n: int) -> Seq<usize> {
    Seq::new(n as nat, |i: int| i as usize)
}

/// Whether `f` gives one answer per box: two calls on the same box agree.
pub open spec fn answers_once<B, F: Fn(&B) -> bool>(f: F) -> bool {
    forall|b: &B, x: bool, y: bool|
        call_ensures(f, (b,), x) && call_ensures(f, (b,), y) ==> x == y
}

/// The list `0, 1, ..., n - 1`.
pub fn index_range(n: usize) -> (r: Vec<usize>)
    ensures
        r@ == all_indexes(n as int),
{
    let mut r: Vec<usize> = Vec::new();
    let mut i: usize = 0;
    while i < n
        invariant
            i <= n,
            r@ == all_indexes(i as int),
        decreases n - i,
    {
        r.push(i);
        i += 1;
        assert(r@ =~= all_indexes(i as int));
    }
    r
}

/// A node of a bounding volume hierarchy over element indices. `B` is the node's
/// bounding box, whose geometry the caller owns. A node with no children is a leaf
/// and lists its elements; an inner node has exactly two children and no elements.
#[derive(Debug)]
pub struct BvhNode<B> {
    pub aabb: B,
    pub children: Vec<Box<BvhNode<B>>>,
    pub indexes: Vec<usize>,
}

impl<B> BvhNode<B> {
    /// Element indices of the subtree, leaves from first child to last.
    pub open spec fn elements(self) -> Seq<usize>
        decreases self,
    {
        if self.children.len() == 2 {
            self.children[0].elements() + self.children[1].elements()
        } else {
            self.indexes@
        }
    }

    /// The shape every built tree has: leaves hold at most `2 * LEAF_SPLIT_HALF + 1`
    /// elements, inner nodes two children and no elements, both halves non-empty.
    pub open spec fn wf(self) -> bool
        decreases self,
    {
        if self.children.len() == 0 {
            self.indexes.len() / 2 <= LEAF_SPLIT_HALF
        } else {
            &&& self.children.len() == 2
            &&& self.indexes.len() == 0
            &&& self.children[0].wf()
            &&& self.children[1].wf()
            &&& self.children[0].elements().len() > LEAF_SPLIT_HALF
            &&& self.children[1].elements().len() > LEAF_SPLIT_HALF
        }
    }

    /// Whether this subtree is what the median-split build makes from the list
    /// `input`: the node's box is what `bound` gave for `input`; when half of `input`
    /// (rounded down) is at most `LEAF_SPLIT_HALF` the node is a leaf holding `input`
    /// as it is; otherwise `input` is stably sorted on the axis that `axis_of` picked
    /// from the node's box, and the first child is built from the first half of that
    /// order (rounded down), the second child from the rest.
    pub open spec fn built_from<FB: Fn(&Vec<usize>) -> B, FA: Fn(&B) -> usize>(
        self,
        input: Seq<usize>,
        keys: Seq<(u64, u64, u64)>,
        bound: FB,
        axis_of: FA,
    ) -> bool
        decreases self,
    {
        &&& exists|v: Vec<usize>| v@ == input && call_ensures(bound, (&v,), self.aabb)
        &&& if input.len() / 2 <= LEAF_SPLIT_HALF {
            self.children.len() == 0 && self.indexes@ == input
        } else {
            &&& self.children.len() == 2
            &&& self.indexes.len() == 0
            &&& exists|axis: usize|
                #[trigger] call_ensures(axis_of, (&self.aabb,), axis) && split_on(
                    self.children[0].elements(),
                    self.children[1].elements(),
                    keys,
                    axis,
                ) && self.children[0].built_from(
                    sort_on(input, keys, axis).take((input.len() / 2) as int),
                    keys,
                    bound,
                    axis_of,
                ) && self.children[1].built_from(
                    sort_on(input, keys, axis).skip((input.len() / 2) as int),
                    keys,
                    bound,
                    axis_of,
                )
        }
    }

    /// Whether two trees have equal boxes, equal leaf lists and the same shape.
    pub open spec fn same_tree(self, other: BvhNode<B>) -> bool
        decreases self,
    {
        &&& self.aabb == other.aabb
        &&& self.indexes@ == other.indexes@
        &&& self.children.len() == other.children.len()
        &&& self.children.len() == 2 ==> self.children[0].same_tree(*other.children[0])
            && self.children[1].same_tree(*other.children[1])
    }

    /// Builds the hierarchy over `indexes` by median split. `keys[i]` orders element
    /// `i` along x, y and z; `bound` gives the box of a list of elements and `axis_of`
    /// the axis along which a box is longest.
    pub fn build_with_indexes<FB: Fn(&Vec<usize>) -> B, FA: Fn(&B) -> usize>(
        indexes: Vec<usize>,
        keys: &Vec<(u64, u64, u64)>,
        bound: &FB,
        axis_of: &FA,
    ) -> (r: BvhNode<B>)
        requires
            indexes_in(indexes@, keys.len() as int),
            forall|v: &Vec<usize>| call_requires(*bound, (v,)),
            forall|b: &B| call_requires(*axis_of, (b,)),
        ensures
            r.wf(),
            r.built_from(indexes@, keys@, *bound, *axis_of),
            r.children.len() == 0 ==> r.indexes@ == indexes@,
            r.elements().to_multiset() == indexes@.to_multiset(),
        decreases indexes.len(),
    {
        let aabb = bound(&indexes);
        let mid = indexes.len() / 2;
        if mid <= LEAF_SPLIT_HALF {
            return BvhNode { aabb, children: Vec::new(), indexes };
        }
        let axis = axis_of(&aabb);
        let mut first = sort_by_axis(&indexes, keys, axis);
        let ghost sorted = first@;
        let second = first.split_off(mid);
        proof {
            assert(sorted =~= first@ + second@);
            assert(first@ =~= sorted.take(mid as int));
            assert(second@ =~= sorted.skip(mid as int));
            lemma_multiset_commutative(first@, second@);
        }
        let ghost lo = first@;
        let ghost hi = second@;
        let left = BvhNode::build_with_indexes(first, keys, bound, axis_of);
        let right = BvhNode::build_with_indexes(second, keys, bound, axis_of);
        proof {
            lemma_multiset_commutative(left.elements(), right.elements());
            lemma_split_keeps_order(sorted, mid as int, left.elements(), right.elements(), keys@, axis);
        }
        let mut children: Vec<Box<BvhNode<B>>> = Vec::new();
        children.push(Box::new(left));
        children.push(Box::new(right));
        let r = BvhNode { aabb, children, indexes: Vec::new() };
        proof {
            assert(r.elements().to_multiset() == sorted.to_multiset());
            assert(r.children[0].elements().len() == mid) by {
                left.elements().to_multiset_ensures();
                lo.to_multiset_ensures();
            }
            assert(r.elements().len() == indexes@.len()) by {
                r.elements().to_multiset_ensures();
                indexes@.to_multiset_ensures();
            }
            assert(split_on(r.children[0].elements(), r.children[1].elements(), keys@, axis));
            assert(call_ensures(*axis_of, (&r.aabb,), axis));
        }
        r
    }

    /// Builds the hierarchy over every element `0..keys.len()` of a mesh, one per face.
    pub fn build_from_mesh<FB: Fn(&Vec<usize>) -> B, FA: Fn(&B) -> usize>(
        keys: &Vec<(u64, u64, u64)>,
        bound: &FB,
        axis_of: &FA,
    ) -> (r: BvhNode<B>)
        requires
            forall|v: &Vec<usize>| call_requires(*bound, (v,)),
            forall|b: &B| call_requires(*axis_of, (b,)),
        ensures
            r.wf(),
            r.built_from(all_indexes(keys.len() as int), keys@, *bound, *axis_of),
            r.elements().to_multiset() == all_indexes(keys.len() as int).to_multiset(),
    {
        BvhNode::build_with_indexes(index_range(keys.len()), keys, bound, axis_of)
    }

    /// Builds the hierarchy over every element `0..keys.len()` of a scene.
    pub fn build_from_scene<FB: Fn(&Vec<usize>) -> B, FA: Fn(&B) -> usize>(
        keys: &Vec<(u64, u64, u64)>,
        bound: &FB,
        axis_of: &FA,
    ) -> (r: BvhNode<B>)
        requires
            forall|v: &Vec<usize>| call_requires(*bound, (v,)),
            forall|b: &B| call_requires(*axis_of, (b,)),
        ensures
            r.wf(),
            r.built_from(all_indexes(keys.len() as int), keys@, *bound, *axis_of),
            r.elements().to_multiset() == all_indexes(keys.len() as int).to_multiset(),
    {
        BvhNode::build_with_indexes(index_range(keys.len()), keys, bound, axis_of)
    }

    /// Element indices of the leaves reached from this node when a subtree is
    /// entered only if `box_hit` accepts its box, first child before second.
    pub open spec fn reached<F: Fn(&B) -> bool>(self, box_hit: F) -> Seq<usize>
        decreases self,
    {
        if !call_ensures(box_hit, (&self.aabb,), true) {
            Seq::empty()
        } else if self.children.len() == 2 {
            self.children[0].reached(box_hit) + self.children[1].reached(box_hit)
        } else {
            self.indexes@
        }
    }

    fn collect<F: Fn(&B) -> bool>(&self, box_hit: &F, out: &mut Vec<usize>)
        requires
            forall|b: &B| call_requires(*box_hit, (b,)),
            answers_once(*box_hit),
        ensures
            final(out)@ == old(out)@ + self.reached(*box_hit),
        decreases self,
    {
        if !box_hit(&self.aabb) {
            assert(old(out)@ + self.reached(*box_hit) =~= old(out)@);
            return;
        }
        if self.children.len() == 2 {
            let ghost before = out@;
            self.children[0].collect(box_hit, out);
            self.children[1].collect(box_hit, out);
            assert(final(out)@ =~= before + self.reached(*box_hit));
        } else {
            let mut i: usize = 0;
            let ghost before = out@;
            while i < self.indexes.len()
                invariant
                    i <= self.indexes.len(),
                    out@ == before + self.indexes@.take(i as int),
                decreases self.indexes.len() - i,
            {
                out.push(self.indexes[i]);
                i += 1;
                assert(out@ =~= before + self.indexes@.take(i as int));
            }
            assert(self.indexes@.take(i as int) =~= self.indexes@);
        }
    }

    /// The elements that a ray may hit, in traversal order: those of every leaf whose
    /// box, and the boxes of all nodes above it, `box_hit` accepts.
    pub fn candidates<F: Fn(&B) -> bool>(&self, box_hit: &F) -> (r: Vec<usize>)
        requires
            forall|b: &B| call_requires(*box_hit, (b,)),
            answers_once(*box_hit),
        ensures
            r@ == self.reached(*box_hit),
    {
        let mut out: Vec<usize> = Vec::new();
        self.collect(box_hit, &mut out);
        assert(out@ =~= self.reached(*box_hit));
        out
    }

    /// Tests the reached elements in traversal order with `element_hit`, which
    /// reports whether a ray hits an element closer than any hit found before, and
    /// gives the last element that reported a hit: the nearest one.
    pub fn intersect_for_scene<FB: Fn(&B) -> bool, FE: Fn(usize) -> bool>(
        &self,
        box_hit: &FB,
        element_hit: &FE,
    ) -> (r: Option<usize>)
        requires
            forall|b: &B| call_requires(*box_hit, (b,)),
            answers_once(*box_hit),
            forall|i: usize| call_requires(*element_hit, (i,)),
        ensures
            r is None ==> forall|p: int|
                0 <= p < self.reached(*box_hit).len() ==> call_ensures(
                    *element_hit,
                    (#[trigger] self.reached(*box_hit)[p],),
                    false,
                ),
            r is Some ==> exists|p: int|
                0 <= p < self.reached(*box_hit).len() && self.reached(*box_hit)[p] == r->0
                    && call_ensures(*element_hit, (r->0,), true) && forall|q: int|
                    p < q < self.reached(*box_hit).len() ==> call_ensures(
                        *element_hit,
                        (#[trigger] self.reached(*box_hit)[q],),
                        false,
                    ),
    {
        let cands = self.candidates(box_hit);
        let mut nearest: Option<usize> = None;
        let ghost mut at: int = -1;
        let mut i: usize = 0;
        while i < cands.len()
            invariant
                i <= cands.len(),
                forall|j: usize| call_requires(*element_hit, (j,)),
                nearest is None ==> at == -1,
                nearest is Some ==> 0 <= at < i && cands@[at] == nearest->0 && call_ensures(
                    *element_hit,
                    (nearest->0,),
                    true,
                ),
                forall|q: int|
                    at < q < i ==> call_ensures(*element_hit, (#[trigger] cands@[q],), false),
            decreases cands.len() - i,
        {
            let e = cands[i];
            if element_hit(e) {
                nearest = Some(e);
                proof {
                    at = i as int;
                }
            }
            i += 1;
        }
        nearest
    }

    /// Tests the reached elements in traversal order with `element_hit` and tells
    /// whether any of them reported a hit.
    pub fn intersect_for_mesh<FB: Fn(&B) -> bool, FE: Fn(usize) -> bool>(
        &self,
        box_hit: &FB,
        element_hit: &FE,
    ) -> (r: bool)
        requires
            forall|b: &B| call_requires(*box_hit, (b,)),
            answers_once(*box_hit),
            forall|i: usize| call_requires(*element_hit, (i,)),
        ensures
            !r ==> forall|p: int|
                0 <= p < self.reached(*box_hit).len() ==> call_ensures(
                    *element_hit,
                    (#[trigger] self.reached(*box_hit)[p],),
                    false,
                ),
            r ==> exists|p: int|
                0 <= p < self.reached(*box_hit).len() && call_ensures(
                    *element_hit,
                    (#[trigger] self.reached(*box_hit)[p],),
                    true,
                ),
    {
        let r = self.intersect_for_scene(box_hit, element_hit);
        r.is_some()
    }

    /// Whether `box_hit` accepts the box of every node of this subtree that holds `e`.
    pub open spec fn accepts_path_to<F: Fn(&B) -> bool>(self, e: usize, box_hit: F) -> bool
        decreases self,
    {
        &&& self.elements().contains(e) ==> call_ensures(box_hit, (&self.aabb,), true)
        &&& self.children.len() == 2 ==> self.children[0].accepts_path_to(e, box_hit)
            && self.children[1].accepts_path_to(e, box_hit)
    }
}

/// Traversal misses no element that the box tests let through: where `box_hit`
/// accepts every box that holds element `e` (as a conservative ray-box test does for
/// an element the ray hits), traversal reaches `e`.
pub proof fn lemma_traversal_reaches_accepted<B, F: Fn(&B) -> bool>(
    node: BvhNode<B>,
    e: usize,
    box_hit: F,
)
    requires
        node.elements().contains(e),
        node.accepts_path_to(e, box_hit),
    ensures
        node.reached(box_hit).contains(e),
    decreases node,
{
    if node.children.len() == 2 {
        let a = node.children[0];
        let b = node.children[1];
        if a.elements().contains(e) {
            lemma_traversal_reaches_accepted(*a, e, box_hit);
            let k = choose|k: int| 0 <= k < a.reached(box_hit).len() && a.reached(box_hit)[k] == e;
            assert((a.reached(box_hit) + b.reached(box_hit))[k] == e);
        } else {
            assert(b.elements().contains(e)) by {
                let k = choose|k: int| 0 <= k < node.elements().len() && node.elements()[k] == e;
                if k >= a.elements().len() {
                    assert(b.elements()[k - a.elements().len()] == e);
                }
            }
            lemma_traversal_reaches_accepted(*b, e, box_hit);
            let k = choose|k: int| 0 <= k < b.reached(box_hit).len() && b.reached(box_hit)[k] == e;
            assert((a.reached(box_hit) + b.reached(box_hit))[a.reached(box_hit).len() + k] == e);
        }
    }
}

/// With box tests that accept every box, traversal reaches exactly the elements of
/// the tree in leaf order, as a walk over the whole list would.
pub proof fn lemma_traversal_without_pruning<B, F: Fn(&B) -> bool>(node: BvhNode<B>, box_hit: F)
    requires
        forall|b: &B| call_ensures(box_hit, (b,), true),
    ensures
        node.reached(box_hit) == node.elements(),
    decreases node,
{
    if node.children.len() == 2 {
        lemma_traversal_without_pruning(*node.children[0], box_hit);
        lemma_traversal_without_pruning(*node.children[1], box_hit);
    }
}

/// Traversal reaches nothing but elements of the tree.
pub proof fn lemma_reached_within<B, F: Fn(&B) -> bool>(node: BvhNode<B>, e: usize, box_hit: F)
    requires
        node.reached(box_hit).contains(e),
    ensures
        node.elements().contains(e),
    decreases node,
{
    if call_ensures(box_hit, (&node.aabb,), true) && node.children.len() == 2 {
        let a = node.children[0];
        let b = node.children[1];
        let ra = a.reached(box_hit);
        let rb = b.reached(box_hit);
        let k = choose|k: int| 0 <= k < (ra + rb).len() && (ra + rb)[k] == e;
        if k < ra.len() {
            assert(ra[k] == e);
            lemma_reached_within(*a, e, box_hit);
            let m = choose|m: int| 0 <= m < a.elements().len() && a.elements()[m] == e;
            assert((a.elements() + b.elements())[m] == e);
        } else {
            assert(rb[k - ra.len()] == e);
            lemma_reached_within(*b, e, box_hit);
            let m = choose|m: int| 0 <= m < b.elements().len() && b.elements()[m] == e;
            assert((a.elements() + b.elements())[a.elements().len() + m] == e);
        }
    }
}

/// The smallest distance that `dist` gives an element of `s`; `None` when it gives
/// none of them one (no element is hit).
pub open spec fn closest(s: Seq<usize>, dist: spec_fn(usize) -> Option<int>) -> Option<int>
    decreases s.len(),
{
    if s.len() == 0 {
        None
    } else {
        let rest = closest(s.drop_last(), dist);
        match dist(s.last()) {
            None => rest,
            Some(d) => match rest {
                None => Some(d),
                Some(r) => Some(
                    if d < r {
                        d
                    } else {
                        r
                    },
                ),
            },
        }
    }
}

proof fn lemma_closest_is_least(s: Seq<usize>, dist: spec_fn(usize) -> Option<int>)
    ensures
        closest(s, dist) is None ==> forall|i: int| 0 <= i < s.len() ==> dist(s[i]) is None,
        closest(s, dist) is Some ==> (exists|i: int|
            0 <= i < s.len() && dist(s[i]) == closest(s, dist)) && forall|i: int|
            0 <= i < s.len() && dist(s[i]) is Some ==> closest(s, dist)->0 <= dist(s[i])->0,
    decreases s.len(),
{
    if s.len() > 0 {
        let t = s.drop_last();
        lemma_closest_is_least(t, dist);
        assert forall|i: int| 0 <= i < t.len() implies s[i] == t[i] by {}
        if closest(s, dist) is Some {
            if dist(s.last()) == closest(s, dist) {
                assert(dist(s[s.len() - 1]) == closest(s, dist));
            } else {
                let i = choose|i: int| 0 <= i < t.len() && dist(t[i]) == closest(t, dist);
                assert(dist(s[i]) == closest(s, dist));
            }
        }
    }
}

/// The bounding volume hierarchy finds the same closest hit as a walk over the
/// whole list: where `box_hit` accepts every box that holds an element hit at all
/// (`dist` gives it a distance), the closest distance among the reached elements is
/// the closest among all elements of the tree.
pub proof fn lemma_traversal_finds_closest<B, F: Fn(&B) -> bool>(
    node: BvhNode<B>,
    box_hit: F,
    dist: spec_fn(usize) -> Option<int>,
)
    requires
        forall|e: usize|
            node.elements().contains(e) && dist(e) is Some ==> node.accepts_path_to(e, box_hit),
    ensures
        closest(node.reached(box_hit), dist) == closest(node.elements(), dist),
{
    let r = node.reached(box_hit);
    let all = node.elements();
    lemma_closest_is_least(r, dist);
    lemma_closest_is_least(all, dist);
    // every reached element is an element of the tree
    assert forall|i: int| 0 <= i < r.len() implies all.contains(r[i]) by {
        assert(r.contains(r[i]));
        lemma_reached_within(node, r[i], box_hit);
    }
    // every hit element of the tree is reached
    assert forall|i: int| 0 <= i < all.len() && dist(all[i]) is Some implies r.contains(all[i]) by {
        assert(all.contains(all[i]));
        lemma_traversal_reaches_accepted(node, all[i], box_hit);
    }
    if closest(all, dist) is Some {
        let i = choose|i: int| 0 <= i < all.len() && dist(all[i]) == closest(all, dist);
        assert(r.contains(all[i]));
        let k = choose|k: int| 0 <= k < r.len() && r[k] == all[i];
        assert(dist(r[k]) is Some);
        let j = choose|j: int| 0 <= j < r.len() && dist(r[j]) == closest(r, dist);
        assert(all.contains(r[j]));
        let m = choose|m: int| 0 <= m < all.len() && all[m] == r[j];
        assert(closest(all, dist)->0 <= dist(all[m])->0);
    } else if closest(r, dist) is Some {
        let j = choose|j: int| 0 <= j < r.len() && dist(r[j]) == closest(r, dist);
        assert(all.contains(r[j]));
        let m = choose|m: int| 0 <= m < all.len() && all[m] == r[j];
        assert(dist(all[m]) is Some);
    }
}

/// Whether `bound` gives one box per list: two calls on equal lists agree.
pub open spec fn bound_answers_once<B, FB: Fn(&Vec<usize>) -> B>(bound: FB) -> bool {
    forall|v: &Vec<usize>, w: &Vec<usize>, x: B, y: B|
        v@ == w@ && call_ensures(bound, (v,), x) && call_ensures(bound, (w,), y) ==> x == y
}

/// Whether `axis_of` gives one axis per box.
pub open spec fn axis_answers_once<B, FA: Fn(&B) -> usize>(axis_of: FA) -> bool {
    forall|b: &B, x: usize, y: usize|
        call_ensures(axis_of, (b,), x) && call_ensures(axis_of, (b,), y) ==> x == y
}

/// The build is deterministic: with callbacks that answer once per input, two trees
/// built from the same list and keys are the same tree.
pub proof fn lemma_build_deterministic<B, FB: Fn(&Vec<usize>) -> B, FA: Fn(&B) -> usize>(
    t1: BvhNode<B>,
    t2: BvhNode<B>,
    input: Seq<usize>,
    keys: Seq<(u64, u64, u64)>,
    bound: FB,
    axis_of: FA,
)
    requires
        t1.built_from(input, keys, bound, axis_of),
        t2.built_from(input, keys, bound, axis_of),
        bound_answers_once(bound),
        axis_answers_once(axis_of),
    ensures
        t1.same_tree(t2),
    decreases t1,
{
    let v1 = choose|v: Vec<usize>| v@ == input && call_ensures(bound, (&v,), t1.aabb);
    let v2 = choose|v: Vec<usize>| v@ == input && call_ensures(bound, (&v,), t2.aabb);
    assert(t1.aabb == t2.aabb);
    if input.len() / 2 > LEAF_SPLIT_HALF {
        assert(t1.indexes@ =~= t2.indexes@);
        let a1 = choose|axis: usize|
            #[trigger] call_ensures(axis_of, (&t1.aabb,), axis) && split_on(
                t1.children[0].elements(),
                t1.children[1].elements(),
                keys,
                axis,
            ) && t1.children[0].built_from(
                sort_on(input, keys, axis).take((input.len() / 2) as int),
                keys,
                bound,
                axis_of,
            ) && t1.children[1].built_from(
                sort_on(input, keys, axis).skip((input.len() / 2) as int),
                keys,
                bound,
                axis_of,
            );
        let a2 = choose|axis: usize|
            #[trigger] call_ensures(axis_of, (&t2.aabb,), axis) && split_on(
                t2.children[0].elements(),
                t2.children[1].elements(),
                keys,
                axis,
            ) && t2.children[0].built_from(
                sort_on(input, keys, axis).take((input.len() / 2) as int),
                keys,
                bound,
                axis_of,
            ) && t2.children[1].built_from(
                sort_on(input, keys, axis).skip((input.len() / 2) as int),
                keys,
                bound,
                axis_of,
            );
        assert(a1 == a2);
        let sorted = sort_on(input, keys, a1);
        lemma_build_deterministic(
            *t1.children[0],
            *t2.children[0],
            sorted.take((input.len() / 2) as int),
            keys,
            bound,
            axis_of,
        );
        lemma_build_deterministic(
            *t1.children[1],
            *t2.children[1],
            sorted.skip((input.len() / 2) as int),
            keys,
            bound,
            axis_of,
        );
    }
}

/// The element that a scan over `s` ends with when it keeps, as it goes, each
/// element hit strictly closer than the best so far (the nearest-hit update).
pub open spec fn scan_nearest(s: Seq<usize>, dist: spec_fn(usize) -> Option<int>) -> Option<usize>
    decreases s.len(),
{
    if s.len() == 0 {
        None
    } else {
        let before = closest(s.drop_last(), dist);
        match dist(s.last()) {
            Some(d) => if before is None || d < before->0 {
                Some(s.last())
            } else {
                scan_nearest(s.drop_last(), dist)
            },
            None => scan_nearest(s.drop_last(), dist),
        }
    }
}

proof fn lemma_scan_nearest(s: Seq<usize>, dist: spec_fn(usize) -> Option<int>)
    ensures
        scan_nearest(s, dist) is None <==> closest(s, dist) is None,
        scan_nearest(s, dist) is Some ==> s.contains(scan_nearest(s, dist)->0) && dist(
            scan_nearest(s, dist)->0,
        ) == closest(s, dist),
    decreases s.len(),
{
    if s.len() > 0 {
        let t = s.drop_last();
        lemma_scan_nearest(t, dist);
        if scan_nearest(s, dist) is Some {
            let e = scan_nearest(s, dist)->0;
            if e == s.last() && dist(s.last()) is Some && (closest(t, dist) is None || dist(
                s.last(),
            )->0 < closest(t, dist)->0) {
                assert(s[s.len() - 1] == e);
            } else {
                let k = choose|k: int| 0 <= k < t.len() && t[k] == e;
                assert(s[k] == e);
            }
        }
    }
}

proof fn lemma_closest_same_elements(a: Seq<usize>, b: Seq<usize>, dist: spec_fn(usize) -> Option<int>)
    requires
        forall|e: usize| a.contains(e) <==> b.contains(e),
    ensures
        closest(a, dist) == closest(b, dist),
{
    lemma_closest_is_least(a, dist);
    lemma_closest_is_least(b, dist);
    if closest(a, dist) is Some {
        let i = choose|i: int| 0 <= i < a.len() && dist(a[i]) == closest(a, dist);
        assert(a.contains(a[i]));
        let k = choose|k: int| 0 <= k < b.len() && b[k] == a[i];
        let j = choose|j: int| 0 <= j < b.len() && dist(b[j]) == closest(b, dist);
        assert(b.contains(b[j]));
        let m = choose|m: int| 0 <= m < a.len() && a[m] == b[j];
        assert(closest(a, dist)->0 <= dist(a[m])->0);
    } else if closest(b, dist) is Some {
        let j = choose|j: int| 0 <= j < b.len() && dist(b[j]) == closest(b, dist);
        assert(b.contains(b[j]));
        let m = choose|m: int| 0 <= m < a.len() && a[m] == b[j];
        assert(dist(a[m]) is Some);
    }
}

/// Traversal with the nearest-hit update gives the same element as a linear scan
/// over any list of the tree's elements: where `box_hit` accepts every box that holds
/// an element hit at all, and no two hit elements are hit at the same distance.
pub proof fn lemma_traversal_matches_linear_scan<B, F: Fn(&B) -> bool>(
    node: BvhNode<B>,
    box_hit: F,
    dist: spec_fn(usize) -> Option<int>,
    linear: Seq<usize>,
)
    requires
        forall|e: usize| #[trigger] linear.contains(e) <==> node.elements().contains(e),
        forall|e: usize|
            node.elements().contains(e) && dist(e) is Some ==> node.accepts_path_to(e, box_hit),
        forall|e: usize, f: usize|
            #[trigger] dist(e) is Some && #[trigger] dist(f) is Some && e != f ==> dist(e) != dist(f),
    ensures
        scan_nearest(node.reached(box_hit), dist) == scan_nearest(linear, dist),
{
    let r = node.reached(box_hit);
    lemma_traversal_finds_closest(node, box_hit, dist);
    lemma_closest_same_elements(linear, node.elements(), dist);
    lemma_scan_nearest(r, dist);
    lemma_scan_nearest(linear, dist);
    if scan_nearest(r, dist) is Some {
        let e = scan_nearest(r, dist)->0;
        let f = scan_nearest(linear, dist)->0;
        assert(dist(e) == dist(f));
    }
}

} // verus!

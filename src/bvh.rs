//! The bounding-volume hierarchy: a binary tree over the indices of the
//! scene's objects, built by sorting along the longest axis of the objects'
//! union box and halving.
use vstd::prelude::*;
use crate::aabb::{Aabb, Axis};
use crate::interval::Interval;
use crate::nearest::{
    hit_fn, hits_deterministic, is_nearest_hit, lemma_min_hit_concat, lemma_min_hit_none,
    lemma_min_hit_restrict, min_hit, t_of,
};

verus! {

broadcast use vstd::seq_lib::group_to_multiset_ensures;

/// A node of the hierarchy. A leaf holds the index of one object and that
/// object's box; an inner node owns its two subtrees and the union of their
/// boxes.
pub enum BvhNode {
    Leaf { object: usize, bbox: Aabb },
    Node { left: Box<BvhNode>, right: Box<BvhNode>, bbox: Aabb },
}

/// The minimum along `axis` of the box of object `i`.
pub open spec fn min_key(boxes: Seq<Aabb>, i: usize, axis: Axis) -> i32 {
    boxes[i as int].min.at_spec(axis)
}

/// Every object of `l` starts, along `axis`, no later than every object of `r`.
pub open spec fn split_along(boxes: Seq<Aabb>, l: Seq<usize>, r: Seq<usize>, axis: Axis) -> bool {
    forall|i: usize, j: usize|
        l.contains(i) && r.contains(j) ==> #[trigger] min_key(boxes, i, axis) <= #[trigger] min_key(
            boxes,
            j,
            axis,
        )
}

/// `b` is the smallest box holding the boxes of the objects in `s`: it holds
/// each of them, and each of its six faces touches one of them.
pub open spec fn tight(b: Aabb, boxes: Seq<Aabb>, s: Seq<usize>) -> bool {
    &&& forall|k: int| 0 <= k < s.len() ==> b.contains_box(#[trigger] boxes[s[k] as int])
    &&& exists|k: int| 0 <= k < s.len() && b.min.x == #[trigger] boxes[s[k] as int].min.x
    &&& exists|k: int| 0 <= k < s.len() && b.min.y == #[trigger] boxes[s[k] as int].min.y
    &&& exists|k: int| 0 <= k < s.len() && b.min.z == #[trigger] boxes[s[k] as int].min.z
    &&& exists|k: int| 0 <= k < s.len() && b.max.x == #[trigger] boxes[s[k] as int].max.x
    &&& exists|k: int| 0 <= k < s.len() && b.max.y == #[trigger] boxes[s[k] as int].max.y
    &&& exists|k: int| 0 <= k < s.len() && b.max.z == #[trigger] boxes[s[k] as int].max.z
}

/// Every entry of `s` indexes `boxes`.
pub open spec fn indices_in(s: Seq<usize>, n: int) -> bool {
    forall|k: int| 0 <= k < s.len() ==> #[trigger] s[k] < n
}

/// The indices `0, 1, ..., n - 1`.
pub open spec fn all_indices(n: nat) -> Seq<usize> {
    Seq::new(n, |i: int| i as usize)
}

impl BvhNode {
    /// The box stored in the node.
    pub open spec fn bbox_spec(self) -> Aabb {
        match self {
            BvhNode::Leaf { bbox, .. } => bbox,
            BvhNode::Node { bbox, .. } => bbox,
        }
    }

    /// The objects of the leaves, from left to right.
    pub open spec fn leaves(self) -> Seq<usize>
        decreases self,
    {
        match self {
            BvhNode::Leaf { object, .. } => seq![object],
            BvhNode::Node { left, right, .. } => left.leaves() + right.leaves(),
        }
    }

    /// The shape of a tree built over `boxes` with `longest_axis` choosing the
    /// split axis: a leaf stores its object's box; an inner node stores the
    /// union of its children's boxes, its left subtree holds half of its
    /// objects (rounded down), and none of them starts later, along an axis
    /// that `longest_axis` gives for the node's box, than any object of the
    /// right subtree.
    pub open spec fn wf<F: Fn(Aabb) -> Axis>(self, boxes: Seq<Aabb>, longest_axis: F) -> bool
        decreases self,
    {
        match self {
            BvhNode::Leaf { object, bbox } => object < boxes.len() && bbox == boxes[object as int],
            BvhNode::Node { left, right, bbox } => {
                &&& left.wf(boxes, longest_axis)
                &&& right.wf(boxes, longest_axis)
                &&& bbox == left.bbox_spec().union_spec(right.bbox_spec())
                &&& left.leaves().len() == (left.leaves().len() + right.leaves().len()) / 2
                &&& exists|axis: Axis|
                    #[trigger] call_ensures(longest_axis, (bbox,), axis) && split_along(
                        boxes,
                        left.leaves(),
                        right.leaves(),
                        axis,
                    )
            },
        }
    }

    /// `hit_box` accepts the box of this node, and of every node below, over
    /// any range in which `hit` finds an object under that node.
    pub open spec fn box_sound<BH: Fn(Aabb, Interval) -> bool>(
        self,
        hit_box: BH,
        hit: spec_fn(usize, Interval) -> Option<int>,
    ) -> bool
        decreases self,
    {
        &&& forall|o: usize, iv: Interval, r: bool|
            self.leaves().contains(o) && #[trigger] hit(o, iv) is Some && #[trigger] call_ensures(
                hit_box,
                (self.bbox_spec(), iv),
                r,
            ) ==> r
        &&& match self {
            BvhNode::Leaf { .. } => true,
            BvhNode::Node { left, right, .. } => left.box_sound(hit_box, hit) && right.box_sound(
                hit_box,
                hit,
            ),
        }
    }

    /// Builds the hierarchy over objects whose boxes are `boxes`, in that order:
    /// the leaves hold each index `0..boxes.len()` exactly once, and the root's
    /// box is the smallest box holding them all.
    pub fn build<F: Fn(Aabb) -> Axis>(boxes: &Vec<Aabb>, longest_axis: F) -> (r: BvhNode)
        requires
            boxes.len() > 0,
            forall|b: Aabb| call_requires(longest_axis, (b,)),
        ensures
            r.wf(boxes@, longest_axis),
            r.leaves().to_multiset() == all_indices(boxes.len() as nat).to_multiset(),
            tight(r.bbox_spec(), boxes@, r.leaves()),
    {
        let mut idx: Vec<usize> = Vec::new();
        let mut i: usize = 0;
        while i < boxes.len()
            invariant
                i <= boxes.len(),
                idx@ == all_indices(i as nat),
            decreases boxes.len() - i,
        {
            idx.push(i);
            i = i + 1;
            assert(idx@ == all_indices(i as nat));
        }
        build_from_indices(boxes, &longest_axis, idx)
    }


    /// The box stored in the node.
    pub fn bbox(&self) -> (r: Aabb)
        ensures
            r == self.bbox_spec(),
    {
        match self {
            BvhNode::Leaf { bbox, .. } => *bbox,
            BvhNode::Node { bbox, .. } => *bbox,
        }
    }
}

/// The box of one object is tight over that object alone.
pub proof fn lemma_tight_single(boxes: Seq<Aabb>, i: usize)
    requires
        i < boxes.len(),
    ensures
        tight(boxes[i as int], boxes, seq![i]),
{
    let s = seq![i];
    let b = boxes[i as int];
    assert(s[0] == i);
    assert(b.min.x == boxes[s[0] as int].min.x && b.min.y == boxes[s[0] as int].min.y);
    assert(b.min.z == boxes[s[0] as int].min.z && b.max.x == boxes[s[0] as int].max.x);
    assert(b.max.y == boxes[s[0] as int].max.y && b.max.z == boxes[s[0] as int].max.z);
}

/// The union of a box tight over `s1` and a box tight over `s2` is tight over
/// `s1 + s2`.
pub proof fn lemma_tight_concat(a: Aabb, c: Aabb, boxes: Seq<Aabb>, s1: Seq<usize>, s2: Seq<usize>)
    requires
        tight(a, boxes, s1),
        tight(c, boxes, s2),
    ensures
        tight(a.union_spec(c), boxes, s1 + s2),
{
    let u = a.union_spec(c);
    let s = s1 + s2;
    assert forall|k: int| 0 <= k < s.len() implies u.contains_box(#[trigger] boxes[s[k] as int]) by {
        if k < s1.len() {
            assert(s[k] == s1[k]);
            assert(a.contains_box(boxes[s1[k] as int]));
        } else {
            assert(s[k] == s2[k - s1.len()]);
            assert(c.contains_box(boxes[s2[k - s1.len()] as int]));
        }
    }
    let k1 = choose|k: int| 0 <= k < s1.len() && a.min.x == #[trigger] boxes[s1[k] as int].min.x;
    let k2 = choose|k: int| 0 <= k < s2.len() && c.min.x == #[trigger] boxes[s2[k] as int].min.x;
    assert(s[k1] == s1[k1] && s[s1.len() + k2] == s2[k2]);
    let k1 = choose|k: int| 0 <= k < s1.len() && a.min.y == #[trigger] boxes[s1[k] as int].min.y;
    let k2 = choose|k: int| 0 <= k < s2.len() && c.min.y == #[trigger] boxes[s2[k] as int].min.y;
    assert(s[k1] == s1[k1] && s[s1.len() + k2] == s2[k2]);
    let k1 = choose|k: int| 0 <= k < s1.len() && a.min.z == #[trigger] boxes[s1[k] as int].min.z;
    let k2 = choose|k: int| 0 <= k < s2.len() && c.min.z == #[trigger] boxes[s2[k] as int].min.z;
    assert(s[k1] == s1[k1] && s[s1.len() + k2] == s2[k2]);
    let k1 = choose|k: int| 0 <= k < s1.len() && a.max.x == #[trigger] boxes[s1[k] as int].max.x;
    let k2 = choose|k: int| 0 <= k < s2.len() && c.max.x == #[trigger] boxes[s2[k] as int].max.x;
    assert(s[k1] == s1[k1] && s[s1.len() + k2] == s2[k2]);
    let k1 = choose|k: int| 0 <= k < s1.len() && a.max.y == #[trigger] boxes[s1[k] as int].max.y;
    let k2 = choose|k: int| 0 <= k < s2.len() && c.max.y == #[trigger] boxes[s2[k] as int].max.y;
    assert(s[k1] == s1[k1] && s[s1.len() + k2] == s2[k2]);
    let k1 = choose|k: int| 0 <= k < s1.len() && a.max.z == #[trigger] boxes[s1[k] as int].max.z;
    let k2 = choose|k: int| 0 <= k < s2.len() && c.max.z == #[trigger] boxes[s2[k] as int].max.z;
    assert(s[k1] == s1[k1] && s[s1.len() + k2] == s2[k2]);
}

/// Two boxes tight over the same objects, in any order, are the same box.
pub proof fn lemma_tight_unique(b1: Aabb, b2: Aabb, boxes: Seq<Aabb>, s1: Seq<usize>, s2: Seq<usize>)
    requires
        tight(b1, boxes, s1),
        tight(b2, boxes, s2),
        s1.to_multiset() == s2.to_multiset(),
    ensures
        b1 == b2,
{
    lemma_tight_le(b1, b2, boxes, s1, s2);
    lemma_tight_le(b2, b1, boxes, s2, s1);
}

/// Each face of `b1`, touching an object of `s1`, lies on the outer side of
/// the matching face of `b2`, which holds every object of `s2`.
proof fn lemma_tight_le(b1: Aabb, b2: Aabb, boxes: Seq<Aabb>, s1: Seq<usize>, s2: Seq<usize>)
    requires
        tight(b1, boxes, s1),
        tight(b2, boxes, s2),
        s1.to_multiset() == s2.to_multiset(),
    ensures
        b2.contains_box(b1),
{
    assert forall|k: int| 0 <= k < s1.len() implies b2.contains_box(#[trigger] boxes[s1[k] as int]) by {
        assert(s1.contains(s1[k]));
        assert(s1.to_multiset().count(s1[k]) > 0);
        assert(s2.to_multiset().count(s1[k]) > 0);
        assert(s2.contains(s1[k]));
        let j = choose|j: int| 0 <= j < s2.len() && s2[j] == s1[k];
        assert(b2.contains_box(boxes[s2[j] as int]));
    }
    let k = choose|k: int| 0 <= k < s1.len() && b1.min.x == #[trigger] boxes[s1[k] as int].min.x;
    assert(b2.contains_box(boxes[s1[k] as int]));
    let k = choose|k: int| 0 <= k < s1.len() && b1.min.y == #[trigger] boxes[s1[k] as int].min.y;
    assert(b2.contains_box(boxes[s1[k] as int]));
    let k = choose|k: int| 0 <= k < s1.len() && b1.min.z == #[trigger] boxes[s1[k] as int].min.z;
    assert(b2.contains_box(boxes[s1[k] as int]));
    let k = choose|k: int| 0 <= k < s1.len() && b1.max.x == #[trigger] boxes[s1[k] as int].max.x;
    assert(b2.contains_box(boxes[s1[k] as int]));
    let k = choose|k: int| 0 <= k < s1.len() && b1.max.y == #[trigger] boxes[s1[k] as int].max.y;
    assert(b2.contains_box(boxes[s1[k] as int]));
    let k = choose|k: int| 0 <= k < s1.len() && b1.max.z == #[trigger] boxes[s1[k] as int].max.z;
    assert(b2.contains_box(boxes[s1[k] as int]));
}

/// The entries of `s` are in order of their objects' minimum along `axis`.
pub open spec fn sorted_along(boxes: Seq<Aabb>, s: Seq<usize>, axis: Axis) -> bool {
    forall|a: int, b: int|
        0 <= a <= b < s.len() ==> min_key(boxes, #[trigger] s[a], axis) <= min_key(
            boxes,
            #[trigger] s[b],
            axis,
        )
}

/// Orders the object indices `idx` by the minimum of their boxes along
/// `axis`; objects that start at the same place keep their order.
fn sort_by_min(boxes: &Vec<Aabb>, idx: &Vec<usize>, axis: Axis) -> (r: Vec<usize>)
    requires
        indices_in(idx@, boxes.len() as int),
    ensures
        r@.to_multiset() == idx@.to_multiset(),
        r.len() == idx.len(),
        indices_in(r@, boxes.len() as int),
        sorted_along(boxes@, r@, axis),
{
    let mut out: Vec<usize> = Vec::new();
    let mut i: usize = 0;
    while i < idx.len()
        invariant
            i <= idx.len(),
            indices_in(idx@, boxes.len() as int),
            out@.to_multiset() == idx@.subrange(0, i as int).to_multiset(),
            out.len() == i,
            indices_in(out@, boxes.len() as int),
            sorted_along(boxes@, out@, axis),
        decreases idx.len() - i,
    {
        let x = idx[i];
        let kx = boxes[x].min.at(axis);
        let mut p: usize = 0;
        while p < out.len() && boxes[out[p]].min.at(axis) <= kx
            invariant
                p <= out.len(),
                indices_in(out@, boxes.len() as int),
                forall|q: int| 0 <= q < p ==> min_key(boxes@, #[trigger] out@[q], axis) <= kx,
            decreases out.len() - p,
        {
            p = p + 1;
        }
        let ghost old_out = out@;
        out.insert(p, x);
        proof {
            assert(idx@.subrange(0, i + 1) == idx@.subrange(0, i as int).push(x));
            assert forall|a: int, b: int| 0 <= a <= b < out@.len() implies min_key(
                boxes@,
                #[trigger] out@[a],
                axis,
            ) <= min_key(boxes@, #[trigger] out@[b], axis) by {
                if b < p {
                } else if a > p {
                    assert(out@[a] == old_out[a - 1] && out@[b] == old_out[b - 1]);
                } else if a == p && b == p {
                } else if a == p {
                    assert(out@[b] == old_out[b - 1]);
                    assert(min_key(boxes@, old_out[p as int], axis) > kx);
                } else {
                    assert(a < p);
                    if b == p {
                    } else {
                        assert(out@[b] == old_out[b - 1]);
                        assert(min_key(boxes@, old_out[a], axis) <= kx);
                        assert(min_key(boxes@, old_out[p as int], axis) > kx);
                    }
                }
            }
            assert forall|k: int| 0 <= k < out@.len() implies #[trigger] out@[k] < boxes.len() by {
                if k < p {
                } else if k > p {
                    assert(out@[k] == old_out[k - 1]);
                }
            }
        }
        i = i + 1;
    }
    assert(idx@.subrange(0, idx.len() as int) == idx@);
    out
}

/// Builds the subtree over the objects `idx`: one object is a leaf; more are
/// ordered along the axis that `longest_axis` picks for their union box and
/// split at the middle, the left half getting the smaller count.
fn build_from_indices<F: Fn(Aabb) -> Axis>(boxes: &Vec<Aabb>, longest_axis: &F, idx: Vec<usize>) -> (r: BvhNode)
    requires
        idx.len() > 0,
        indices_in(idx@, boxes.len() as int),
        forall|b: Aabb| call_requires(*longest_axis, (b,)),
    ensures
        r.wf(boxes@, *longest_axis),
        r.leaves().to_multiset() == idx@.to_multiset(),
        tight(r.bbox_spec(), boxes@, r.leaves()),
    decreases idx.len(),
{
    if idx.len() == 1 {
        let object = idx[0];
        proof {
            lemma_tight_single(boxes@, object);
            assert(idx@ == seq![object]);
        }
        return BvhNode::Leaf { object, bbox: boxes[object] };
    }
    let mut bbox = boxes[idx[0]];
    proof {
        lemma_tight_single(boxes@, idx[0]);
        assert(idx@.subrange(0, 1) == seq![idx[0]]);
    }
    let mut i: usize = 1;
    while i < idx.len()
        invariant
            1 <= i <= idx.len(),
            indices_in(idx@, boxes.len() as int),
            tight(bbox, boxes@, idx@.subrange(0, i as int)),
        decreases idx.len() - i,
    {
        let b = boxes[idx[i]];
        proof {
            lemma_tight_single(boxes@, idx[i as int]);
            lemma_tight_concat(bbox, b, boxes@, idx@.subrange(0, i as int), seq![idx[i as int]]);
            assert(idx@.subrange(0, i as int) + seq![idx[i as int]] == idx@.subrange(0, i + 1));
        }
        bbox = Aabb::surrounding_box(&bbox, &b);
        i = i + 1;
    }
    assert(idx@.subrange(0, idx.len() as int) == idx@);
    let axis = longest_axis(bbox);
    let mut sorted = sort_by_min(boxes, &idx, axis);
    let mid = sorted.len() / 2;
    let ghost whole = sorted@;
    let right_idx = sorted.split_off(mid);
    proof {
        assert(whole == sorted@ + right_idx@);
        vstd::seq_lib::lemma_multiset_commutative(sorted@, right_idx@);
        assert forall|k: int| 0 <= k < sorted@.len() implies #[trigger] sorted@[k] < boxes.len() by {
            assert(sorted@[k] == whole[k]);
        }
        assert forall|k: int| 0 <= k < right_idx@.len() implies #[trigger] right_idx@[k] < boxes.len() by {
            assert(right_idx@[k] == whole[mid + k]);
        }
    }
    let ghost left_idx = sorted@;
    let left = build_from_indices(boxes, longest_axis, sorted);
    let right = build_from_indices(boxes, longest_axis, right_idx);
    let node_box = Aabb::surrounding_box(&left.bbox(), &right.bbox());
    let r = BvhNode::Node { left: Box::new(left), right: Box::new(right), bbox: node_box };
    proof {
        let ll = left.leaves();
        let rl = right.leaves();
        lemma_tight_concat(left.bbox_spec(), right.bbox_spec(), boxes@, ll, rl);
        vstd::seq_lib::lemma_multiset_commutative(ll, rl);
        assert(r.leaves() == ll + rl);
        lemma_tight_unique(node_box, bbox, boxes@, ll + rl, idx@);
        assert(ll.to_multiset().len() == ll.len());
        assert(left_idx.to_multiset().len() == left_idx.len());
        assert(rl.to_multiset().len() == rl.len());
        assert(right_idx@.to_multiset().len() == right_idx@.len());
        assert forall|a: usize, b: usize|
            ll.contains(a) && rl.contains(b) implies #[trigger] min_key(boxes@, a, axis) <= #[trigger] min_key(
            boxes@,
            b,
            axis,
        ) by {
            assert(ll.to_multiset().count(a) > 0);
            assert(left_idx.to_multiset().count(a) > 0);
            assert(left_idx.contains(a));
            let ka = choose|ka: int| 0 <= ka < left_idx.len() && left_idx[ka] == a;
            assert(rl.to_multiset().count(b) > 0);
            assert(right_idx@.to_multiset().count(b) > 0);
            assert(right_idx@.contains(b));
            let kb = choose|kb: int| 0 <= kb < right_idx@.len() && right_idx@[kb] == b;
            assert(whole[ka] == a);
            assert(whole[mid + kb] == b);
        }
        assert(call_ensures(*longest_axis, (node_box,), axis));
    }
    r
}

/// Every hit that `hit_object` reports lies in the range it was asked about.
pub open spec fn hits_in_range<H, OH: Fn(usize, Interval) -> Option<(i32, H)>>(hit_object: OH) -> bool {
    forall|o: usize, iv: Interval, r: Option<(i32, H)>|
        #[trigger] call_ensures(hit_object, (o, iv), r) && r is Some ==> iv.min <= r.unwrap().0 <= iv.max
}

/// `r` is a hit that `hit_object` may report for one of the objects `objs`
/// over a range inside `ray_t`.
pub open spec fn hit_from<H, OH: Fn(usize, Interval) -> Option<(i32, H)>>(
    hit_object: OH,
    objs: Seq<usize>,
    ray_t: Interval,
    r: Option<(i32, H)>,
) -> bool {
    exists|o: usize, iv: Interval|
        #[trigger] objs.contains(o) && ray_t.min <= iv.min && iv.max <= ray_t.max && #[trigger] call_ensures(
            hit_object,
            (o, iv),
            r,
        )
}

impl BvhNode {
    /// The nearest hit over `ray_t` among the objects under this node, as a
    /// key of the ray parameter and what `hit_object` reports with it.
    /// `hit_box` tells whether a ray may meet a box over a range; a subtree
    /// whose box it rejects is skipped. The left subtree is searched first;
    /// when it hits at `t`, the right one is searched over `[ray_t.min, t]`
    /// only, and its hit, if any, is returned. When the hit test reports
    /// nearest hits the same way on every call and the box test never rejects
    /// a box around a hit, the result is the nearest hit among the leaves.
    pub fn intersect<H, BH: Fn(Aabb, Interval) -> bool, OH: Fn(usize, Interval) -> Option<(i32, H)>>(
        &self,
        hit_box: &BH,
        hit_object: &OH,
        ray_t: Interval,
    ) -> (r: Option<(i32, H)>)
        requires
            ray_t.wf(),
            forall|b: Aabb, iv: Interval| call_requires(*hit_box, (b, iv)),
            forall|o: usize, iv: Interval| call_requires(*hit_object, (o, iv)),
            hits_in_range(*hit_object),
        ensures
            r is Some ==> ray_t.contains_spec(r.unwrap().0 as int),
            r is Some ==> hit_from(*hit_object, self.leaves(), ray_t, r),
            (forall|b: bool| #[trigger] call_ensures(*hit_box, (self.bbox_spec(), ray_t), b) ==> !b) ==> r is None,
            hits_deterministic(*hit_object) && is_nearest_hit(hit_fn(*hit_object)) && self.box_sound(
                *hit_box,
                hit_fn(*hit_object),
            ) ==> t_of(r) == min_hit(self.leaves(), hit_fn(*hit_object), ray_t),
        decreases self,
    {
        match self {
            BvhNode::Leaf { object, bbox } => {
                let ghost hit = hit_fn(*hit_object);
                proof {
                    assert(self.leaves()[0] == *object);
                    assert(self.leaves().contains(*object));
                    assert(self.leaves().drop_last() == Seq::<usize>::empty());
                    assert(self.leaves().last() == *object);
                    assert(min_hit(Seq::<usize>::empty(), hit, ray_t) is None);
                    assert(min_hit(self.leaves(), hit, ray_t) == hit(*object, ray_t));
                }
                if !hit_box(*bbox, ray_t) {
                    return None;
                }
                let r = hit_object(*object, ray_t);
                r
            },
            BvhNode::Node { left, right, bbox } => {
                let ghost hit = hit_fn(*hit_object);
                let ghost good = hits_deterministic(*hit_object) && is_nearest_hit(hit) && self.box_sound(
                    *hit_box,
                    hit,
                );
                if !hit_box(*bbox, ray_t) {
                    proof {
                        if good {
                            let ls = self.leaves();
                            assert forall|k: int| 0 <= k < ls.len() implies #[trigger] hit(ls[k], ray_t) is None by {
                                assert(ls.contains(ls[k]));
                            }
                            lemma_min_hit_none(ls, hit, ray_t);
                        }
                    }
                    return None;
                }
                let hit_left = left.intersect(hit_box, hit_object, ray_t);
                let right_t = match &hit_left {
                    Some(h) => Interval::new(ray_t.min, h.0),
                    None => ray_t,
                };
                let hit_right = right.intersect(hit_box, hit_object, right_t);
                proof {
                    let all = left.leaves() + right.leaves();
                    assert(self.leaves() == all);
                    if good {
                        lemma_min_hit_concat(left.leaves(), right.leaves(), hit, ray_t);
                        if hit_left is Some {
                            lemma_min_hit_restrict(right.leaves(), hit, ray_t, hit_left.unwrap().0);
                        }
                    }
                    if hit_right is Some {
                        let (o, iv) = choose|o: usize, iv: Interval|
                            #[trigger] right.leaves().contains(o) && right_t.min <= iv.min && iv.max
                                <= right_t.max && #[trigger] call_ensures(*hit_object, (o, iv), hit_right);
                        let k = choose|k: int| 0 <= k < right.leaves().len() && right.leaves()[k] == o;
                        assert(all[left.leaves().len() + k] == o);
                        assert(all.contains(o));
                    } else if hit_left is Some {
                        let (o, iv) = choose|o: usize, iv: Interval|
                            #[trigger] left.leaves().contains(o) && ray_t.min <= iv.min && iv.max
                                <= ray_t.max && #[trigger] call_ensures(*hit_object, (o, iv), hit_left);
                        let k = choose|k: int| 0 <= k < left.leaves().len() && left.leaves()[k] == o;
                        assert(all[k] == o);
                        assert(all.contains(o));
                    }
                }
                match hit_right {
                    Some(h) => Some(h),
                    None => hit_left,
                }
            },
        }
    }
}

} // verus!

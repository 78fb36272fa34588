//! The scene: its list of objects and the hierarchy cached over it.
use vstd::prelude::*;
use crate::aabb::{Aabb, Axis};
use crate::bvh::{all_indices, hit_from, hits_in_range, lemma_tight_unique, tight, BvhNode};
use crate::interval::Interval;
use crate::nearest::{hit_fn, hits_deterministic, is_nearest_hit, lemma_min_hit_permutation, min_hit, t_of};

verus! {

broadcast use vstd::seq_lib::group_to_multiset_ensures;

/// A cached hierarchy matches a list of `n` objects when its leaves hold each
/// index `0..n` exactly once.
pub open spec fn cache_matches(bvh: Option<BvhNode>, n: nat) -> bool {
    bvh is Some ==> bvh->0.leaves().to_multiset() == all_indices(n).to_multiset()
}

/// `boxes` are boxes that `bbox_of` may give for `objects`, one each, in order.
pub open spec fn boxes_of<T, B: Fn(&T) -> Aabb>(objects: Seq<T>, bbox_of: B, boxes: Seq<Aabb>) -> bool {
    &&& boxes.len() == objects.len()
    &&& forall|k: int| 0 <= k < objects.len() ==> call_ensures(bbox_of, (&objects[k],), #[trigger] boxes[k])
}

/// `tree` is a hierarchy built over `objects`: for boxes that `bbox_of` may
/// give them, it has the shape `BvhNode::wf` describes, its root box is the
/// smallest box holding them all, and its leaves hold each index exactly once.
pub open spec fn built_over<T, B: Fn(&T) -> Aabb, F: Fn(Aabb) -> Axis>(
    objects: Seq<T>,
    bbox_of: B,
    longest_axis: F,
    tree: BvhNode,
) -> bool {
    &&& exists|boxes: Seq<Aabb>|
        {
            &&& #[trigger] boxes_of(objects, bbox_of, boxes)
            &&& tree.wf(boxes, longest_axis)
            &&& tight(tree.bbox_spec(), boxes, tree.leaves())
        }
    &&& tree.leaves().to_multiset() == all_indices(objects.len()).to_multiset()
}

/// Building the hierarchy twice over an unchanged object list, with boxes
/// that depend on the objects alone, gives the same leaves and the same root
/// box, even where the split axes differ.
pub proof fn lemma_build_bvh_twice<T, B: Fn(&T) -> Aabb, F: Fn(Aabb) -> Axis>(
    objects: Seq<T>,
    bbox_of: B,
    longest_axis: F,
    first: BvhNode,
    second: BvhNode,
)
    requires
        forall|o: &T, b1: Aabb, b2: Aabb|
            call_ensures(bbox_of, (o,), b1) && call_ensures(bbox_of, (o,), b2) ==> b1 == b2,
        built_over(objects, bbox_of, longest_axis, first),
        built_over(objects, bbox_of, longest_axis, second),
    ensures
        first.leaves().to_multiset() == second.leaves().to_multiset(),
        first.bbox_spec() == second.bbox_spec(),
{
    let boxes1 = choose|boxes: Seq<Aabb>|
        {
            &&& #[trigger] boxes_of(objects, bbox_of, boxes)
            &&& first.wf(boxes, longest_axis)
            &&& tight(first.bbox_spec(), boxes, first.leaves())
        };
    let boxes2 = choose|boxes: Seq<Aabb>|
        {
            &&& #[trigger] boxes_of(objects, bbox_of, boxes)
            &&& second.wf(boxes, longest_axis)
            &&& tight(second.bbox_spec(), boxes, second.leaves())
        };
    assert forall|k: int| 0 <= k < boxes1.len() implies boxes1[k] == boxes2[k] by {
        assert(call_ensures(bbox_of, (&objects[k],), boxes1[k]));
        assert(call_ensures(bbox_of, (&objects[k],), boxes2[k]));
    }
    assert(boxes1 =~= boxes2);
    lemma_tight_unique(first.bbox_spec(), second.bbox_spec(), boxes1, first.leaves(), second.leaves());
}

/// A search of a hierarchy built over `n` objects and a scan of the objects
/// `0..n` in order find the same nearest hit, whatever the hit test: the
/// first is the nearest hit among the leaves (`BvhNode::intersect`), the
/// second among all objects (`Scene::get_closest_intersect` without a
/// hierarchy), and the leaves hold each object exactly once.
pub proof fn lemma_bvh_matches_scan(
    tree: BvhNode,
    n: nat,
    hit: spec_fn(usize, Interval) -> Option<int>,
    iv: Interval,
)
    requires
        cache_matches(Some(tree), n),
    ensures
        min_hit(tree.leaves(), hit, iv) == min_hit(all_indices(n), hit, iv),
{
    lemma_min_hit_permutation(tree.leaves(), all_indices(n), hit, iv);
}

/// Objects of type `T`, and a hierarchy over them that is either absent or
/// built from exactly the current list.
pub struct Scene<T> {
    objects: Vec<T>,
    bvh: Option<BvhNode>,
}

impl<T> Scene<T> {
    /// The cached hierarchy, if any, was built from exactly the current list.
    pub closed spec fn wf(self) -> bool {
        cache_matches(self.bvh, self.objects.len() as nat)
    }

    /// The objects, in the order they were added.
    pub closed spec fn objects_spec(self) -> Seq<T> {
        self.objects@
    }

    /// The cached hierarchy, if one was built since the last change.
    pub closed spec fn bvh_spec(self) -> Option<BvhNode> {
        self.bvh
    }

    /// An empty scene.
    pub fn new() -> (r: Self)
        ensures
            r.objects_spec() == Seq::<T>::empty(),
            r.bvh_spec() is None,
            r.wf(),
    {
        Scene { objects: Vec::new(), bvh: None }
    }

    /// Appends an object; the cached hierarchy is dropped.
    pub fn add(&mut self, obj: T)
        requires
            old(self).wf(),
        ensures
            final(self).wf(),
            final(self).objects_spec() == old(self).objects_spec().push(obj),
            final(self).bvh_spec() is None,
    {
        self.bvh = None;
        self.objects.push(obj);
    }

    /// Appends a list of objects in order; the cached hierarchy is dropped.
    pub fn add_list(&mut self, obj_list: Vec<T>)
        requires
            old(self).wf(),
        ensures
            final(self).wf(),
            final(self).objects_spec() == old(self).objects_spec() + obj_list@,
            final(self).bvh_spec() is None,
    {
        let mut list = obj_list;
        self.bvh = None;
        self.objects.append(&mut list);
    }

    /// Builds the hierarchy over the current objects, with `bbox_of` giving
    /// each object's box and `longest_axis` choosing split axes, and caches it.
    pub fn build_bvh<B: Fn(&T) -> Aabb, F: Fn(Aabb) -> Axis>(&mut self, bbox_of: B, longest_axis: F)
        requires
            old(self).wf(),
            old(self).objects_spec().len() > 0,
            forall|o: &T| call_requires(bbox_of, (o,)),
            forall|b: Aabb| call_requires(longest_axis, (b,)),
        ensures
            final(self).wf(),
            final(self).objects_spec() == old(self).objects_spec(),
            final(self).bvh_spec() is Some,
            built_over(old(self).objects_spec(), bbox_of, longest_axis, final(self).bvh_spec()->0),
    {
        let mut boxes: Vec<Aabb> = Vec::new();
        let mut i: usize = 0;
        while i < self.objects.len()
            invariant
                i <= self.objects.len(),
                forall|o: &T| call_requires(bbox_of, (o,)),
                boxes_of(self.objects@.subrange(0, i as int), bbox_of, boxes@),
            decreases self.objects.len() - i,
        {
            let b = bbox_of(&self.objects[i]);
            boxes.push(b);
            i = i + 1;
            assert forall|k: int| 0 <= k < i implies call_ensures(
                bbox_of,
                (&self.objects@.subrange(0, i as int)[k],),
                #[trigger] boxes@[k],
            ) by {
                assert(self.objects@.subrange(0, i as int)[k] == self.objects@[k]);
                if k < i - 1 {
                    assert(self.objects@.subrange(0, i - 1)[k] == self.objects@[k]);
                }
            }
        }
        assert(self.objects@.subrange(0, self.objects.len() as int) == self.objects@);
        let tree = BvhNode::build(&boxes, longest_axis);
        self.bvh = Some(tree);
    }

    /// The objects, in the order they were added.
    pub fn objects(&self) -> (r: &Vec<T>)
        ensures
            r@ == self.objects_spec(),
    {
        &self.objects
    }

    /// The cached hierarchy; when present it covers every object exactly once.
    pub fn bvh(&self) -> (r: &Option<BvhNode>)
        requires
            self.wf(),
        ensures
            *r == self.bvh_spec(),
            cache_matches(*r, self.objects_spec().len()),
    {
        &self.bvh
    }
    /// The nearest hit over `ray_t` among the objects, as a key of the ray
    /// parameter and what `hit_object` reports with it. With a cached
    /// hierarchy the search descends it (see `BvhNode::intersect`); without
    /// one it scans the objects in order, narrowing the range's upper end to
    /// each hit found and keeping the last hit. Either way, when the hit test
    /// reports nearest hits the same way on every call and the box test never
    /// rejects a box around a hit, the result is the nearest hit among all
    /// objects.
    pub fn get_closest_intersect<H, BH: Fn(Aabb, Interval) -> bool, OH: Fn(usize, Interval) -> Option<(i32, H)>>(
        &self,
        hit_box: &BH,
        hit_object: &OH,
        ray_t: Interval,
    ) -> (r: Option<(i32, H)>)
        requires
            self.wf(),
            ray_t.wf(),
            forall|b: Aabb, iv: Interval| call_requires(*hit_box, (b, iv)),
            forall|o: usize, iv: Interval| call_requires(*hit_object, (o, iv)),
            hits_in_range(*hit_object),
        ensures
            r is Some ==> ray_t.contains_spec(r.unwrap().0 as int),
            r is Some ==> hit_from(*hit_object, all_indices(self.objects_spec().len()), ray_t, r),
            hits_deterministic(*hit_object) && is_nearest_hit(hit_fn(*hit_object)) && (self.bvh_spec() is Some
                ==> self.bvh_spec()->0.box_sound(*hit_box, hit_fn(*hit_object))) ==> t_of(r) == min_hit(
                all_indices(self.objects_spec().len()),
                hit_fn(*hit_object),
                ray_t,
            ),
    {
        let n = self.objects.len();
        let ghost every = all_indices(n as nat);
        let ghost hit = hit_fn(*hit_object);
        let ghost good = hits_deterministic(*hit_object) && is_nearest_hit(hit);
        if let Some(bvh) = &self.bvh {
            let r = bvh.intersect(hit_box, hit_object, ray_t);
            proof {
                if r is Some {
                    let (o, iv) = choose|o: usize, iv: Interval|
                        #[trigger] bvh.leaves().contains(o) && ray_t.min <= iv.min && iv.max <= ray_t.max
                            && #[trigger] call_ensures(*hit_object, (o, iv), r);
                    assert(bvh.leaves().to_multiset().count(o) > 0);
                    assert(every.to_multiset().count(o) > 0);
                    assert(every.contains(o));
                }
                lemma_min_hit_permutation(bvh.leaves(), every, hit, ray_t);
            }
            return r;
        }
        let mut closest: Option<(i32, H)> = None;
        let mut closest_so_far: i32 = ray_t.max;
        let mut i: usize = 0;
        while i < n
            invariant
                n == self.objects.len(),
                every == all_indices(n as nat),
                i <= n,
                ray_t.wf(),
                forall|o: usize, iv: Interval| call_requires(*hit_object, (o, iv)),
                hits_in_range(*hit_object),
                ray_t.min <= closest_so_far <= ray_t.max,
                closest is Some ==> closest.unwrap().0 == closest_so_far,
                closest is Some ==> hit_from(*hit_object, every, ray_t, closest),
                closest is None ==> closest_so_far == ray_t.max,
                hit == hit_fn(*hit_object),
                good == (hits_deterministic(*hit_object) && is_nearest_hit(hit)),
                good ==> t_of(closest) == min_hit(all_indices(i as nat), hit, ray_t),
            decreases n - i,
        {
            let iv = Interval::new(ray_t.min, closest_so_far);
            let found = hit_object(i, iv);
            proof {
                assert(all_indices((i + 1) as nat).drop_last() == all_indices(i as nat));
                assert(all_indices((i + 1) as nat).last() == i);
                if good {
                    assert(t_of(found) == hit(i, iv));
                    if closest is None {
                        assert(iv == ray_t);
                    } else {
                        assert(iv == Interval { min: ray_t.min, max: closest_so_far });
                        let _ = hit(i, ray_t);
                        assert(hit(i, iv) == crate::nearest::restrict(hit(i, ray_t), closest_so_far as int));
                    }
                }
            }
            match found {
                Some(h) => {
                    closest_so_far = h.0;
                    proof {
                        assert(every[i as int] == i);
                        assert(every.contains(i));
                        assert(call_ensures(*hit_object, (i, iv), Some(h)));
                    }
                    closest = Some(h);
                },
                None => {},
            }
            i = i + 1;
        }
        closest
    }
}

} // verus!

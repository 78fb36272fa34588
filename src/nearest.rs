//! The nearest hit among several objects, as a value to state searches
//! against. A hit test is modelled as a function from an object and a range
//! of ray parameters (keys) to the parameter of that object's nearest hit in
//! the range, if any.
use vstd::prelude::*;
use crate::interval::Interval;

verus! {

broadcast use vstd::seq_lib::group_to_multiset_ensures;

/// The hit `h`, kept only if it lies at or before `c`.
pub open spec fn restrict(h: Option<int>, c: int) -> Option<int> {
    match h {
        Some(t) => if t <= c {
            Some(t)
        } else {
            None
        },
        None => None,
    }
}

/// The nearer of two hits; a miss loses to any hit.
pub open spec fn omin(x: Option<int>, y: Option<int>) -> Option<int> {
    match (x, y) {
        (Some(a), Some(b)) => if b <= a {
            Some(b)
        } else {
            Some(a)
        },
        (Some(a), None) => Some(a),
        (None, _) => y,
    }
}

/// The nearest of the hits of the objects `objs` over `iv`.
pub open spec fn min_hit(objs: Seq<usize>, hit: spec_fn(usize, Interval) -> Option<int>, iv: Interval) -> Option<int>
    decreases objs.len(),
{
    if objs.len() == 0 {
        None
    } else {
        omin(min_hit(objs.drop_last(), hit, iv), hit(objs.last(), iv))
    }
}

/// `hit` reports nearest hits: a hit lies in the range asked about, and
/// lowering the range's upper end to `c` keeps a hit at or before `c` and
/// loses one after it.
pub open spec fn is_nearest_hit(hit: spec_fn(usize, Interval) -> Option<int>) -> bool {
    &&& forall|o: usize, iv: Interval|
        #[trigger] hit(o, iv) is Some ==> iv.min <= hit(o, iv).unwrap() <= iv.max
    &&& forall|o: usize, iv: Interval, c: i32|
        iv.min <= c <= iv.max ==> #[trigger] hit(o, Interval { min: iv.min, max: c }) == restrict(
            #[trigger] hit(o, iv),
            c as int,
        )
}

/// Lowering the range's upper end keeps the nearest hit if it lies at or
/// before the new end, and otherwise finds nothing.
pub proof fn lemma_min_hit_restrict(
    objs: Seq<usize>,
    hit: spec_fn(usize, Interval) -> Option<int>,
    iv: Interval,
    c: i32,
)
    requires
        is_nearest_hit(hit),
        iv.min <= c <= iv.max,
    ensures
        min_hit(objs, hit, Interval { min: iv.min, max: c }) == restrict(min_hit(objs, hit, iv), c as int),
    decreases objs.len(),
{
    if objs.len() > 0 {
        lemma_min_hit_restrict(objs.drop_last(), hit, iv, c);
        let _ = hit(objs.last(), Interval { min: iv.min, max: c });
    }
}

/// The nearest hit over `l + r` is the nearer of the nearest hits over each.
pub proof fn lemma_min_hit_concat(
    l: Seq<usize>,
    r: Seq<usize>,
    hit: spec_fn(usize, Interval) -> Option<int>,
    iv: Interval,
)
    ensures
        min_hit(l + r, hit, iv) == omin(min_hit(l, hit, iv), min_hit(r, hit, iv)),
    decreases r.len(),
{
    if r.len() == 0 {
        assert(l + r == l);
    } else {
        lemma_min_hit_concat(l, r.drop_last(), hit, iv);
        assert((l + r).drop_last() == l + r.drop_last());
        assert((l + r).last() == r.last());
    }
}

/// When no object of `objs` is hit, neither is the nearest.
pub proof fn lemma_min_hit_none(objs: Seq<usize>, hit: spec_fn(usize, Interval) -> Option<int>, iv: Interval)
    requires
        forall|k: int| 0 <= k < objs.len() ==> #[trigger] hit(objs[k], iv) is None,
    ensures
        min_hit(objs, hit, iv) is None,
    decreases objs.len(),
{
    if objs.len() > 0 {
        let d = objs.drop_last();
        assert forall|k: int| 0 <= k < d.len() implies #[trigger] hit(d[k], iv) is None by {
            assert(d[k] == objs[k]);
        }
        lemma_min_hit_none(d, hit, iv);
        assert(hit(objs[objs.len() - 1], iv) is None);
    }
}

/// The nearest hit is at or before the hit of every object, and it is the
/// hit of one of them.
pub proof fn lemma_min_hit_least(objs: Seq<usize>, hit: spec_fn(usize, Interval) -> Option<int>, iv: Interval)
    ensures
        forall|k: int|
            0 <= k < objs.len() && #[trigger] hit(objs[k], iv) is Some ==> min_hit(objs, hit, iv) is Some
                && min_hit(objs, hit, iv).unwrap() <= hit(objs[k], iv).unwrap(),
        min_hit(objs, hit, iv) is Some ==> exists|k: int|
            0 <= k < objs.len() && #[trigger] hit(objs[k], iv) == min_hit(objs, hit, iv),
    decreases objs.len(),
{
    if objs.len() > 0 {
        let d = objs.drop_last();
        lemma_min_hit_least(d, hit, iv);
        let n = objs.len() - 1;
        assert forall|k: int|
            0 <= k < objs.len() && #[trigger] hit(objs[k], iv) is Some implies min_hit(objs, hit, iv) is Some
                && min_hit(objs, hit, iv).unwrap() <= hit(objs[k], iv).unwrap() by {
            if k < n {
                assert(d[k] == objs[k]);
            }
        }
        if min_hit(objs, hit, iv) is Some {
            if min_hit(objs, hit, iv) == hit(objs[n], iv) {
            } else {
                let k = choose|k: int| 0 <= k < d.len() && #[trigger] hit(d[k], iv) == min_hit(d, hit, iv);
                assert(d[k] == objs[k]);
                assert(hit(objs[k], iv) == min_hit(objs, hit, iv));
            }
        }
    }
}

/// The nearest hit does not depend on the order of the objects.
pub proof fn lemma_min_hit_permutation(
    s1: Seq<usize>,
    s2: Seq<usize>,
    hit: spec_fn(usize, Interval) -> Option<int>,
    iv: Interval,
)
    requires
        s1.to_multiset() == s2.to_multiset(),
    ensures
        min_hit(s1, hit, iv) == min_hit(s2, hit, iv),
{
    lemma_min_hit_least(s1, hit, iv);
    lemma_min_hit_least(s2, hit, iv);
    if min_hit(s1, hit, iv) is Some {
        let k1 = choose|k: int| 0 <= k < s1.len() && #[trigger] hit(s1[k], iv) == min_hit(s1, hit, iv);
        lemma_index_moves(s1, s2, k1);
        let j1 = choose|j: int| 0 <= j < s2.len() && s2[j] == s1[k1];
        assert(hit(s2[j1], iv) is Some);
    }
    if min_hit(s2, hit, iv) is Some {
        let k2 = choose|k: int| 0 <= k < s2.len() && #[trigger] hit(s2[k], iv) == min_hit(s2, hit, iv);
        lemma_index_moves(s2, s1, k2);
        let j2 = choose|j: int| 0 <= j < s1.len() && s1[j] == s2[k2];
        assert(hit(s1[j2], iv) is Some);
    }
}

/// An entry of `s1` is an entry of any `s2` with the same multiset.
proof fn lemma_index_moves(s1: Seq<usize>, s2: Seq<usize>, k: int)
    requires
        s1.to_multiset() == s2.to_multiset(),
        0 <= k < s1.len(),
    ensures
        exists|j: int| 0 <= j < s2.len() && s2[j] == s1[k],
{
    assert(s1.contains(s1[k]));
    assert(s1.to_multiset().count(s1[k]) > 0);
    assert(s2.to_multiset().count(s1[k]) > 0);
    assert(s2.contains(s1[k]));
}

/// The parameter of a reported hit, if any.
pub open spec fn t_of<H>(r: Option<(i32, H)>) -> Option<int> {
    match r {
        Some(h) => Some(h.0 as int),
        None => None,
    }
}

/// The hit test that the closure `hit_object` carries out, as a function of
/// the object and the range.
pub open spec fn hit_fn<H, OH: Fn(usize, Interval) -> Option<(i32, H)>>(hit_object: OH) -> spec_fn(
    usize,
    Interval,
) -> Option<int> {
    |o: usize, iv: Interval| t_of(choose|r: Option<(i32, H)>| call_ensures(hit_object, (o, iv), r))
}

/// Every call of `hit_object` with the same object and range reports a hit
/// at the same parameter, or a miss every time.
pub open spec fn hits_deterministic<H, OH: Fn(usize, Interval) -> Option<(i32, H)>>(hit_object: OH) -> bool {
    forall|o: usize, iv: Interval, r: Option<(i32, H)>|
        #[trigger] call_ensures(hit_object, (o, iv), r) ==> t_of(r) == (hit_fn(hit_object))(o, iv)
}

} // verus!

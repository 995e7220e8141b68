use std::collections::HashSet;
use vstd::prelude::*;

verus! {

broadcast use vstd::std_specs::hash::group_hash_axioms;

/// The set of camera ids that occur in `cams`.
pub open spec fn camera_set(cams: Seq<u32>) -> Set<u32> {
    cams.to_set()
}

/// Number of distinct cameras among the given camera ids.
pub fn num_of_cameras(cams: &[u32]) -> (count: usize)
    ensures
        count == camera_set(cams@).len(),
{
    let mut seen: HashSet<u32> = HashSet::new();
    let mut i: usize = 0;
    while i < cams.len()
        invariant
            i <= cams.len(),
            seen@ == cams@.take(i as int).to_set(),
        decreases cams.len() - i,
    {
        seen.insert(cams[i]);
        proof {
            assert(cams@.take(i + 1) == cams@.take(i as int).push(cams@[i as int]));
            cams@.take(i as int).lemma_push_to_set_commute(cams@[i as int]);
        }
        i = i + 1;
    }
    assert(cams@.take(cams.len() as int) == cams@);
    seen.len()
}

/// A non-empty set of rays is seen by at least one and at most as many
/// cameras as there are rays; no rays, no cameras.
pub proof fn lemma_camera_count_range(cams: Seq<u32>)
    ensures
        camera_set(cams).len() <= cams.len(),
        camera_set(cams).len() == 0 <==> cams.len() == 0,
{
    cams.lemma_cardinality_of_set();
    cams.lemma_cardinality_of_empty_set_is_0();
}

/// The count of distinct cameras does not depend on the order of the rays.
pub proof fn lemma_camera_count_order_free(a: Seq<u32>, b: Seq<u32>)
    requires
        a.to_multiset() == b.to_multiset(),
    ensures
        camera_set(a).len() == camera_set(b).len(),
{
    broadcast use vstd::seq_lib::group_to_multiset_ensures;

    assert(camera_set(a) =~= camera_set(b)) by {
        assert forall|x: u32| a.contains(x) <==> b.contains(x) by {
            assert(a.contains(x) <==> a.to_multiset().count(x) > 0);
            assert(b.contains(x) <==> b.to_multiset().count(x) > 0);
        }
    }
}

/// A camera id is among the cameras of `cams` exactly when some entry of
/// `cams` is that id; the set is finite, so its size is a count.
pub proof fn lemma_camera_set_exact(cams: Seq<u32>)
    ensures
        camera_set(cams) == Set::new(|c: u32| exists|i: int| 0 <= i < cams.len() && cams[i] == c),
        camera_set(cams).finite(),
{
    broadcast use vstd::seq_lib::group_seq_properties;

    assert(camera_set(cams) =~= Set::new(|c: u32| exists|i: int| 0 <= i < cams.len() && cams[i] == c));
}

/// Two rays of different cameras count as two cameras, and a camera seen by
/// several rays counts once: adding a ray of a camera already seen keeps the
/// count, adding a ray of a new camera raises it by one.
pub proof fn lemma_camera_count_push(cams: Seq<u32>, c: u32)
    ensures
        cams.contains(c) ==> camera_set(cams.push(c)).len() == camera_set(cams).len(),
        !cams.contains(c) ==> camera_set(cams.push(c)).len() == camera_set(cams).len() + 1,
{
    broadcast use vstd::seq_lib::group_seq_properties;

    lemma_camera_set_exact(cams);
    lemma_camera_set_exact(cams.push(c));
    assert(camera_set(cams.push(c)) =~= camera_set(cams).insert(c)) by {
        assert forall|x: u32| camera_set(cams.push(c)).contains(x) <==> camera_set(cams).insert(
            c,
        ).contains(x) by {
            if x != c && camera_set(cams.push(c)).contains(x) {
                let i = choose|i: int| 0 <= i < cams.len() + 1 && cams.push(c)[i] == x;
                assert(cams[i] == x);
            }
            if camera_set(cams).contains(x) {
                let i = choose|i: int| 0 <= i < cams.len() && cams[i] == x;
                assert(cams.push(c)[i] == x);
            }
            if x == c {
                assert(cams.push(c)[cams.len() as int] == c);
            }
        }
    }
    if cams.contains(c) {
        let i = choose|i: int| 0 <= i < cams.len() && cams[i] == c;
        assert(camera_set(cams).contains(c));
    } else {
        assert(!camera_set(cams).contains(c));
    }
}

} // verus!

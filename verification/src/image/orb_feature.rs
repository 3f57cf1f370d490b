use vstd::prelude::*;

use crate::features::Feature;
use crate::features::geometry::Point;

verus! {

// ---------------------------------------------------------------------------
// Ranking by response
// ---------------------------------------------------------------------------

/// Entry `a` comes before entry `b` when its response is larger, or when the
/// responses are equal and `a` comes first in the input.
pub open spec fn ranked_before(keys: Seq<u64>, a: int, b: int) -> bool {
    keys[a] > keys[b] || (keys[a] == keys[b] && a < b)
}

/// `order` lists every index of `keys` once, by decreasing response and, among
/// equal responses, in input order.
pub open spec fn is_ranking(keys: Seq<u64>, order: Seq<usize>) -> bool {
    &&& order.len() == keys.len()
    &&& forall|i: int| 0 <= i < order.len() ==> #[trigger] order[i] < keys.len()
    &&& forall|i: int, j: int|
        0 <= i < j < order.len() ==> ranked_before(keys, #[trigger] order[i] as int, #[trigger] order[j] as int)
}

/// `order` lists the indices below `n` once each, ranked as above.
pub open spec fn ranks_prefix(keys: Seq<u64>, order: Seq<usize>, n: int) -> bool {
    &&& order.len() == n
    &&& forall|i: int| 0 <= i < order.len() ==> #[trigger] order[i] < n
    &&& forall|i: int, j: int|
        0 <= i < j < order.len() ==> ranked_before(keys, #[trigger] order[i] as int, #[trigger] order[j] as int)
}

/// A ranking lists every index of `keys` (and, by its order, none twice):
/// the ranked features are the input features, reordered.
pub proof fn lemma_ranking_covers(keys: Seq<u64>, order: Seq<usize>, a: int)
    requires
        is_ranking(keys, order),
        0 <= a < keys.len(),
    ensures
        exists|j: int| 0 <= j < order.len() && order[j] == a,
{
    let n = keys.len() as int;
    let as_int = order.map_values(|v: usize| v as int);
    assert(as_int.no_duplicates()) by {
        assert forall|i: int, j: int|
            0 <= i < as_int.len() && 0 <= j < as_int.len() && i != j implies as_int[i] != as_int[j] by {
            if i < j {
                assert(ranked_before(keys, order[i] as int, order[j] as int));
            } else {
                assert(ranked_before(keys, order[j] as int, order[i] as int));
            }
        }
    }
    as_int.unique_seq_to_set();
    vstd::set_lib::lemma_int_range(0, n);
    let range = vstd::set_lib::set_int_range(0, n);
    assert(as_int.to_set().subset_of(range)) by {
        assert forall|x: int| as_int.to_set().contains(x) implies range.contains(x) by {
            let i = choose|i: int| 0 <= i < as_int.len() && as_int[i] == x;
            assert(order[i] < n);
        }
    }
    vstd::set_lib::lemma_subset_equality(as_int.to_set(), range);
    assert(range.contains(a));
    assert(as_int.to_set().contains(a));
    let j = choose|j: int| 0 <= j < as_int.len() && as_int[j] == a;
    assert(order[j] == a);
}

/// Rankings agree up to index `i`.
proof fn lemma_rankings_agree_at(keys: Seq<u64>, first: Seq<usize>, second: Seq<usize>, i: int)
    requires
        is_ranking(keys, first),
        is_ranking(keys, second),
        0 <= i < first.len(),
    ensures
        first[i] == second[i],
    decreases i,
{
    assert forall|k: int| 0 <= k < i implies first[k] == second[k] by {
        lemma_rankings_agree_at(keys, first, second, k);
    }
    let a = first[i] as int;
    let b = second[i] as int;
    if a != b {
        lemma_ranking_covers(keys, first, b);
        lemma_ranking_covers(keys, second, a);
        let j = choose|j: int| 0 <= j < first.len() && first[j] == b;
        let k = choose|k: int| 0 <= k < second.len() && second[k] == a;
        if j < i {
            assert(first[j] == second[j]);
            assert(ranked_before(keys, second[j] as int, second[i] as int));
        }
        if k < i {
            assert(first[k] == second[k]);
            assert(ranked_before(keys, first[k] as int, first[i] as int));
        }
        assert(j > i && k > i);
        assert(ranked_before(keys, first[i] as int, first[j] as int));
        assert(ranked_before(keys, second[i] as int, second[k] as int));
    }
}

/// There is only one ranking of a sequence of responses: the order of the
/// ranked features is fully determined by the responses.
pub proof fn lemma_ranking_unique(keys: Seq<u64>, first: Seq<usize>, second: Seq<usize>)
    requires
        is_ranking(keys, first),
        is_ranking(keys, second),
    ensures
        first == second,
{
    assert forall|i: int| 0 <= i < first.len() implies first[i] == second[i] by {
        lemma_rankings_agree_at(keys, first, second, i);
    }
    assert(first =~= second);
}

/// The indices of `keys` by decreasing key; equal keys keep their input order.
pub fn rank_by_response(keys: &Vec<u64>) -> (order: Vec<usize>)
    ensures
        is_ranking(keys@, order@),
{
    let n = keys.len();
    let mut order = Vec::<usize>::new();
    let mut i: usize = 0;
    while i < n
        invariant
            n == keys.len(),
            i <= n,
            ranks_prefix(keys@, order@, i as int),
        decreases n - i,
    {
        let key = keys[i];
        let mut pos: usize = 0;
        while pos < order.len() && keys[order[pos]] >= key
            invariant
                n == keys.len(),
                i < n,
                key == keys@[i as int],
                ranks_prefix(keys@, order@, i as int),
                pos <= order.len(),
                forall|k: int| 0 <= k < pos ==> keys@[#[trigger] order@[k] as int] >= key,
            decreases order.len() - pos,
        {
            pos += 1;
        }
        proof {
            if pos < order.len() {
                assert(keys@[order@[pos as int] as int] < key);
                assert forall|k: int| pos <= k < order.len() implies keys@[#[trigger] order@[k] as int] < key by {
                    if k > pos {
                        assert(ranked_before(keys@, order@[pos as int] as int, order@[k] as int));
                    }
                }
            }
        }
        let ghost old_order = order@;
        order.insert(pos, i);
        proof {
            assert(order@ == old_order.insert(pos as int, i));
            assert forall|a: int, b: int| 0 <= a < b < order@.len() implies ranked_before(
                keys@,
                #[trigger] order@[a] as int,
                #[trigger] order@[b] as int,
            ) by {
                if b < pos {
                    assert(order@[a] == old_order[a] && order@[b] == old_order[b]);
                } else if b == pos {
                    assert(order@[a] == old_order[a]);
                } else if a < pos {
                    assert(order@[a] == old_order[a] && order@[b] == old_order[b - 1]);
                } else if a == pos {
                    assert(order@[b] == old_order[b - 1]);
                } else {
                    assert(order@[a] == old_order[a - 1] && order@[b] == old_order[b - 1]);
                    assert(ranked_before(keys@, old_order[a - 1] as int, old_order[b - 1] as int));
                }
            }
            assert forall|k: int| 0 <= k < order@.len() implies #[trigger] order@[k] < i + 1 by {
                if k < pos {
                    assert(order@[k] == old_order[k]);
                } else if k > pos {
                    assert(order@[k] == old_order[k - 1]);
                }
            }
        }
        i += 1;
    }
    order
}

// ---------------------------------------------------------------------------
// ORB features
// ---------------------------------------------------------------------------

/// A FAST corner of one pyramid level, with its orientation. The orientation
/// is a floating-point angle held by its IEEE-754 bit pattern; this library
/// only carries it.
#[derive(Debug, Clone, Copy)]
pub struct OrbFeature {
    pub location: Point<usize>,
    pub orientation_bits: u64,
    pub sigma_level: usize,
}

/// The feature at a location with an orientation, found on the given octave.
pub open spec fn orb_feature_of(location: Point<usize>, orientation_bits: u64, octave_idx: i32) -> OrbFeature {
    OrbFeature { location, orientation_bits, sigma_level: octave_idx as usize }
}

impl Feature for OrbFeature {
    fn get_x_image(&self) -> (x: usize)
        ensures
            x == self.location.x,
    {
        self.location.x
    }

    fn get_y_image(&self) -> (y: usize)
        ensures
            y == self.location.y,
    {
        self.location.y
    }

    fn get_closest_sigma_level(&self) -> (level: usize)
        ensures
            level == self.sigma_level,
    {
        self.sigma_level
    }
}

impl OrbFeature {
    /// ORB features carry no landmark.
    pub fn get_landmark_id(&self) -> (id: Option<usize>)
        ensures
            id is None,
    {
        None
    }

    /// A copy of the feature; ORB features carry no landmark, so the id is not kept.
    pub fn copy_with_landmark_id(&self, _landmark_id: Option<usize>) -> (copy: Self)
        ensures
            copy == *self,
    {
        *self
    }

    /// The ORB features of one pyramid level: the FAST corners at `locations`
    /// with the orientations `orientation_bits`, ordered by decreasing Harris
    /// response (`response_keys` holds order keys of the responses; equal
    /// responses keep their input order), all tagged with the octave index.
    pub fn new(
        locations: &Vec<Point<usize>>,
        orientation_bits: &Vec<u64>,
        response_keys: &Vec<u64>,
        octave_idx: i32,
    ) -> (features: Vec<OrbFeature>)
        requires
            locations.len() == response_keys.len(),
            orientation_bits.len() == response_keys.len(),
        ensures
            features.len() == response_keys.len(),
            exists|order: Seq<usize>|
                #![trigger is_ranking(response_keys@, order)]
                is_ranking(response_keys@, order) && forall|i: int|
                    0 <= i < features.len() ==> #[trigger] features[i] == orb_feature_of(
                        locations[order[i] as int],
                        orientation_bits[order[i] as int],
                        octave_idx,
                    ),
    {
        let order = rank_by_response(response_keys);
        let feature_size = response_keys.len();
        let mut orb_features = Vec::<OrbFeature>::with_capacity(feature_size);
        let mut i: usize = 0;
        while i < feature_size
            invariant
                feature_size == response_keys.len(),
                locations.len() == feature_size,
                orientation_bits.len() == feature_size,
                is_ranking(response_keys@, order@),
                i <= feature_size,
                orb_features.len() == i,
                forall|k: int|
                    0 <= k < i ==> #[trigger] orb_features[k] == orb_feature_of(
                        locations[order[k] as int],
                        orientation_bits[order[k] as int],
                        octave_idx,
                    ),
            decreases feature_size - i,
        {
            let idx = order[i];
            let location = locations[idx];
            let orb_feature = OrbFeature {
                location,
                orientation_bits: orientation_bits[idx],
                sigma_level: octave_idx as usize,
            };
            orb_features.push(orb_feature);
            i += 1;
        }
        assert(is_ranking(response_keys@, order@));
        orb_features
    }
}

} // verus!

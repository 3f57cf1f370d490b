use vstd::prelude::*;

verus! {

/// The method used to split an essential matrix into a rotation and a
/// translation direction.
#[derive(Clone, Copy)]
pub enum EssentialDecomposition {
    /// The decomposition of Förstner and Wrobel (Photogrammetric Computer Vision, p. 583).
    FORSNTER,
    /// The decomposition of Kanatani (Statistical Optimization for Geometric Computation, p. 338).
    KANATANI,
}

/// The sign of a determinant or of a projection.
#[derive(Clone, Copy, Debug, PartialEq, Eq, Structural)]
pub enum Sign {
    Negative,
    Zero,
    Positive,
}

impl Sign {
    /// The sign as a number: -1, 0 or 1.
    pub open spec fn value(self) -> int {
        match self {
            Sign::Negative => -1,
            Sign::Zero => 0,
            Sign::Positive => 1,
        }
    }
}

/// The number of positive signs minus the number of negative ones.
pub open spec fn balance(signs: Seq<Sign>) -> int
    decreases signs.len(),
{
    if signs.len() == 0 {
        0
    } else {
        balance(signs.drop_last()) + signs.last().value()
    }
}

/// For each correspondence, the sign of the triple product that places the
/// point in front of both cameras, and the sign of its projection on the
/// rotated ray: the balance of the first signs, and the balance of their
/// products with the second signs.
pub open spec fn votes_for(votes: Seq<(Sign, Sign)>) -> (int, int)
    decreases votes.len(),
{
    if votes.len() == 0 {
        (0, 0)
    } else {
        let (v, u) = votes_for(votes.drop_last());
        let (s_i, s_r) = votes.last();
        (v + s_i.value(), u + s_i.value() * s_r.value())
    }
}

/// A candidate motion is accepted when both balances of its votes are positive.
pub open spec fn accepted(votes: Seq<(Sign, Sign)>) -> bool {
    votes_for(votes).0 > 0 && votes_for(votes).1 > 0
}

/// The candidates as sequences of votes.
pub open spec fn candidates_view(candidates: Seq<Vec<(Sign, Sign)>>) -> Seq<Seq<(Sign, Sign)>> {
    candidates.map_values(|v: Vec<(Sign, Sign)>| v@)
}

/// `chosen` is the first accepted candidate, or none when no candidate is accepted.
pub open spec fn selects(candidates: Seq<Seq<(Sign, Sign)>>, chosen: Option<usize>) -> bool {
    match chosen {
        Some(i) => i < candidates.len() && accepted(candidates[i as int])
            && forall|j: int| 0 <= j < i ==> !accepted(#[trigger] candidates[j]),
        None => forall|j: int| 0 <= j < candidates.len() ==> !accepted(#[trigger] candidates[j]),
    }
}

/// The choice is the first accepted candidate: a candidate is chosen exactly
/// when some candidate is accepted, the chosen one is accepted, and every
/// candidate before it is refused.
pub proof fn lemma_selection_is_first_accepted(candidates: Seq<Seq<(Sign, Sign)>>, chosen: Option<usize>)
    requires
        selects(candidates, chosen),
    ensures
        (exists|j: int| 0 <= j < candidates.len() && #[trigger] accepted(candidates[j])) <==> chosen is Some,
        chosen matches Some(i) ==> {
            &&& i < candidates.len()
            &&& accepted(candidates[i as int])
            &&& forall|j: int| 0 <= j < i ==> !#[trigger] accepted(candidates[j])
        },
{
    if let Some(i) = chosen {
        assert(accepted(candidates[i as int]));
    }
}

/// The votes, all of them, `k` times over.
pub open spec fn repeated(votes: Seq<(Sign, Sign)>, k: nat) -> Seq<(Sign, Sign)>
    decreases k,
{
    if k == 0 {
        seq![]
    } else {
        repeated(votes, (k - 1) as nat) + votes
    }
}

/// `other` holds the votes of `votes`, each repeated the same number of
/// times `k >= 1`, in any order.
pub open spec fn same_votes_repeated(votes: Seq<(Sign, Sign)>, other: Seq<(Sign, Sign)>, k: nat) -> bool {
    k >= 1 && other.to_multiset() == repeated(votes, k).to_multiset()
}

/// Removing one vote takes its share out of both balances.
proof fn lemma_votes_without(votes: Seq<(Sign, Sign)>, i: int)
    requires
        0 <= i < votes.len(),
    ensures
        votes_for(votes).0 == votes_for(votes.remove(i)).0 + votes[i].0.value(),
        votes_for(votes).1 == votes_for(votes.remove(i)).1 + votes[i].0.value() * votes[i].1.value(),
    decreases votes.len(),
{
    if i == votes.len() - 1 {
        assert(votes.remove(i) =~= votes.drop_last());
    } else {
        lemma_votes_without(votes.drop_last(), i);
        assert(votes.remove(i).drop_last() =~= votes.drop_last().remove(i));
        assert(votes.remove(i).last() == votes.last());
    }
}

/// The balances do not depend on the order of the votes.
proof fn lemma_votes_reordered(votes: Seq<(Sign, Sign)>, other: Seq<(Sign, Sign)>)
    requires
        votes.to_multiset() == other.to_multiset(),
    ensures
        votes_for(votes) == votes_for(other),
    decreases votes.len(),
{
    broadcast use vstd::seq_lib::group_to_multiset_ensures;

    if votes.len() == 0 {
        assert(votes.to_multiset().len() == votes.len());
        assert(other.to_multiset().len() == other.len());
        assert(other =~= votes);
    } else {
        let x = votes.last();
        assert(votes.drop_last().push(x) =~= votes);
        assert(votes.to_multiset().count(x) > 0);
        assert(other.contains(x));
        let i = choose|i: int| 0 <= i < other.len() && other[i] == x;
        assert(other.remove(i).to_multiset() =~= other.to_multiset().remove(x));
        assert(votes.drop_last().to_multiset() =~= votes.to_multiset().remove(x));
        lemma_votes_reordered(votes.drop_last(), other.remove(i));
        lemma_votes_without(other, i);
    }
}

/// The balances of two runs of votes, one after the other, add up.
proof fn lemma_votes_concat(first: Seq<(Sign, Sign)>, second: Seq<(Sign, Sign)>)
    ensures
        votes_for(first + second).0 == votes_for(first).0 + votes_for(second).0,
        votes_for(first + second).1 == votes_for(first).1 + votes_for(second).1,
    decreases second.len(),
{
    if second.len() == 0 {
        assert(first + second =~= first);
    } else {
        lemma_votes_concat(first, second.drop_last());
        assert((first + second).drop_last() =~= first + second.drop_last());
    }
}

/// Repeating every vote `k` times multiplies both balances by `k`.
proof fn lemma_votes_repeated(votes: Seq<(Sign, Sign)>, k: nat)
    ensures
        votes_for(repeated(votes, k)).0 == k * votes_for(votes).0,
        votes_for(repeated(votes, k)).1 == k * votes_for(votes).1,
    decreases k,
{
    if k > 0 {
        let m = (k - 1) as nat;
        let before = repeated(votes, m);
        assert(repeated(votes, k) == before + votes);
        lemma_votes_repeated(votes, m);
        lemma_votes_concat(before, votes);
        let (v, u) = votes_for(votes);
        assert(k * v == m * v + v) by (nonlinear_arith)
            requires
                k == m + 1,
        ;
        assert(k * u == m * u + u) by (nonlinear_arith)
            requires
                k == m + 1,
        ;
    } else {
        assert(repeated(votes, k).len() == 0);
    }
}

/// A candidate is accepted or refused alike when its votes are reordered, or
/// when every vote is repeated the same number of times.
pub proof fn lemma_accepted_ignores_order_and_repetition(votes: Seq<(Sign, Sign)>, other: Seq<(Sign, Sign)>, k: nat)
    requires
        same_votes_repeated(votes, other, k),
    ensures
        accepted(other) == accepted(votes),
{
    lemma_votes_reordered(repeated(votes, k), other);
    lemma_votes_repeated(votes, k);
    let (v, u) = votes_for(votes);
    assert(k * v > 0 <==> v > 0) by (nonlinear_arith)
        requires
            k >= 1,
    ;
    assert(k * u > 0 <==> u > 0) by (nonlinear_arith)
        requires
            k >= 1,
    ;
}

/// The decomposition chosen does not change when the votes inside each
/// candidate are reordered, or when every vote of a candidate is repeated the
/// same number of times (`counts[j]` for candidate `j`).
pub proof fn lemma_selection_ignores_order_and_repetition(
    candidates: Seq<Seq<(Sign, Sign)>>,
    others: Seq<Seq<(Sign, Sign)>>,
    counts: Seq<nat>,
    chosen: Option<usize>,
)
    requires
        others.len() == candidates.len(),
        counts.len() == candidates.len(),
        forall|j: int| 0 <= j < candidates.len() ==> same_votes_repeated(#[trigger] candidates[j], others[j], counts[j]),
    ensures
        selects(others, chosen) == selects(candidates, chosen),
{
    assert forall|j: int| 0 <= j < candidates.len() implies #[trigger] accepted(others[j]) == accepted(candidates[j]) by {
        assert(same_votes_repeated(candidates[j], others[j], counts[j]));
        lemma_accepted_ignores_order_and_repetition(candidates[j], others[j], counts[j]);
    }
}

/// The balance of the signs never exceeds their number.
proof fn lemma_balance_bounded(signs: Seq<Sign>)
    ensures
        -signs.len() <= balance(signs) <= signs.len(),
    decreases signs.len(),
{
    if signs.len() > 0 {
        lemma_balance_bounded(signs.drop_last());
    }
}

/// The balances of the votes never exceed their number.
proof fn lemma_votes_bounded(votes: Seq<(Sign, Sign)>)
    ensures
        -votes.len() <= votes_for(votes).0 <= votes.len(),
        -votes.len() <= votes_for(votes).1 <= votes.len(),
    decreases votes.len(),
{
    if votes.len() > 0 {
        lemma_votes_bounded(votes.drop_last());
    }
}

/// The number of positive signs minus the number of negative ones.
pub fn sign_balance(signs: &Vec<Sign>) -> (b: i128)
    ensures
        b == balance(signs@),
{
    let mut b: i128 = 0;
    let mut i: usize = 0;
    assert(signs@.subrange(0, 0) =~= Seq::<Sign>::empty());
    while i < signs.len()
        invariant
            i <= signs.len(),
            b == balance(signs@.subrange(0, i as int)),
        decreases signs.len() - i,
    {
        proof {
            assert(signs@.subrange(0, i as int + 1).drop_last() =~= signs@.subrange(0, i as int));
            lemma_balance_bounded(signs@.subrange(0, i as int));
        }
        b = match signs[i] {
            Sign::Negative => b - 1,
            Sign::Zero => b,
            Sign::Positive => b + 1,
        };
        i += 1;
    }
    assert(signs@.subrange(0, signs.len() as int) =~= signs@);
    b
}

/// The two balances of the votes for one candidate motion.
fn tally_votes(votes: &Vec<(Sign, Sign)>) -> (balances: (i128, i128))
    ensures
        balances.0 == votes_for(votes@).0,
        balances.1 == votes_for(votes@).1,
{
    let mut v_sign: i128 = 0;
    let mut u_sign: i128 = 0;
    let mut i: usize = 0;
    assert(votes@.subrange(0, 0) =~= Seq::<(Sign, Sign)>::empty());
    while i < votes.len()
        invariant
            i <= votes.len(),
            v_sign == votes_for(votes@.subrange(0, i as int)).0,
            u_sign == votes_for(votes@.subrange(0, i as int)).1,
        decreases votes.len() - i,
    {
        proof {
            assert(votes@.subrange(0, i as int + 1).drop_last() =~= votes@.subrange(0, i as int));
            lemma_votes_bounded(votes@.subrange(0, i as int));
        }
        let (s_i, s_r) = votes[i];
        let s_i_value: i128 = match s_i {
            Sign::Negative => -1,
            Sign::Zero => 0,
            Sign::Positive => 1,
        };
        let s_r_value: i128 = match s_r {
            Sign::Negative => -1,
            Sign::Zero => 0,
            Sign::Positive => 1,
        };
        v_sign = v_sign + s_i_value;
        u_sign = u_sign + s_i_value * s_r_value;
        i += 1;
    }
    assert(votes@.subrange(0, votes.len() as int) =~= votes@);
    (v_sign, u_sign)
}

/// The first candidate motion, in the given order, whose votes are
/// accepted; none when no candidate is accepted.
pub fn select_decomposition(candidates: &Vec<Vec<(Sign, Sign)>>) -> (chosen: Option<usize>)
    ensures
        selects(candidates_view(candidates@), chosen),
{
    let mut i: usize = 0;
    while i < candidates.len()
        invariant
            i <= candidates.len(),
            forall|j: int| 0 <= j < i ==> !accepted(#[trigger] candidates_view(candidates@)[j]),
        decreases candidates.len() - i,
    {
        let (v_sign, u_sign) = tally_votes(&candidates[i]);
        assert(candidates[i as int]@ == candidates_view(candidates@)[i as int]);
        if u_sign > 0 && v_sign > 0 {
            return Some(i);
        }
        i += 1;
    }
    None
}

// ---------------------------------------------------------------------------
// Bookkeeping of the initial camera motions
// ---------------------------------------------------------------------------

/// The fewest matches from which a relative motion is estimated.
pub const MIN_MATCHES: usize = 8;

/// The indices of the match sets with at least `MIN_MATCHES` matches, in order.
pub open spec fn sets_with_enough_matches(counts: Seq<usize>) -> Seq<usize>
    decreases counts.len(),
{
    if counts.len() == 0 {
        seq![]
    } else {
        let kept = sets_with_enough_matches(counts.drop_last());
        if counts.last() >= MIN_MATCHES {
            kept.push((counts.len() - 1) as usize)
        } else {
            kept
        }
    }
}

/// The positions among the first `n` camera pairs whose first view is the
/// first view of the first pair (the root), in order.
pub open spec fn pairs_from_root(camera_ids: Seq<(usize, usize)>, n: int) -> Seq<usize>
    decreases n,
{
    if n <= 0 {
        seq![]
    } else {
        let kept = pairs_from_root(camera_ids, n - 1);
        if camera_ids[n - 1].0 == camera_ids[0].0 {
            kept.push((n - 1) as usize)
        } else {
            kept
        }
    }
}

/// One relative motion to estimate: the view it leads to, the essential
/// matrix to decompose (by position), the accepted matches to decompose it
/// with (by position), and whether there are enough of them; when there are
/// not, the motion is the identity with no translation.
#[derive(Clone, Copy, Debug, PartialEq, Eq, Structural)]
pub struct MotionTask {
    pub view: u64,
    pub essential_index: usize,
    pub matches_index: usize,
    pub decompose: bool,
}

/// The task for the `j`-th pair from the root, which sits at position `i`.
pub open spec fn motion_task(camera_ids: Seq<(usize, usize)>, accepted_counts: Seq<usize>, i: usize, j: int) -> MotionTask {
    MotionTask {
        view: camera_ids[i as int].1 as u64,
        essential_index: i,
        matches_index: j as usize,
        decompose: accepted_counts[j] >= MIN_MATCHES,
    }
}

/// The positions from the root are increasing positions below `n`.
proof fn lemma_pairs_from_root(camera_ids: Seq<(usize, usize)>, n: int)
    requires
        0 <= n <= camera_ids.len(),
    ensures
        pairs_from_root(camera_ids, n).len() <= n,
        forall|j: int|
            0 <= j < pairs_from_root(camera_ids, n).len() ==> #[trigger] pairs_from_root(camera_ids, n)[j] < n,
    decreases n,
{
    if n > 0 {
        lemma_pairs_from_root(camera_ids, n - 1);
    }
}

/// The motions planned from the root are exactly the camera pairs, among the
/// first `n`, whose first view is the root view (the first view of the first
/// pair), each once and in increasing position.
pub proof fn lemma_motions_start_at_root(camera_ids: Seq<(usize, usize)>, n: int)
    requires
        0 <= n <= camera_ids.len(),
        camera_ids.len() <= usize::MAX,
    ensures
        forall|j: int|
            0 <= j < pairs_from_root(camera_ids, n).len() ==> {
                &&& #[trigger] pairs_from_root(camera_ids, n)[j] < n
                &&& camera_ids[pairs_from_root(camera_ids, n)[j] as int].0 == camera_ids[0].0
            },
        forall|j: int, k: int|
            0 <= j < k < pairs_from_root(camera_ids, n).len() ==> #[trigger] pairs_from_root(camera_ids, n)[j]
                < #[trigger] pairs_from_root(camera_ids, n)[k],
        forall|m: int|
            0 <= m < n && (#[trigger] camera_ids[m]).0 == camera_ids[0].0 ==> exists|j: int|
                0 <= j < pairs_from_root(camera_ids, n).len() && #[trigger] pairs_from_root(camera_ids, n)[j] == m,
    decreases n,
{
    if n > 0 {
        lemma_motions_start_at_root(camera_ids, n - 1);
        let kept = pairs_from_root(camera_ids, n - 1);
        let all = pairs_from_root(camera_ids, n);
        assert forall|m: int| 0 <= m < n && (#[trigger] camera_ids[m]).0 == camera_ids[0].0 implies exists|j: int|
            0 <= j < all.len() && #[trigger] all[j] == m by {
            if m < n - 1 {
                let j = choose|j: int| 0 <= j < kept.len() && #[trigger] kept[j] == m;
                assert(all[j] == kept[j]);
            } else {
                assert(all[kept.len() as int] == m);
            }
        }
    }
}

/// Every planned motion leads from the root view: its camera pair starts at
/// the root view, and it is decomposed with the accepted matches of its own
/// position among the planned motions.
pub proof fn lemma_planned_tasks_from_root(camera_ids: Seq<(usize, usize)>, accepted_counts: Seq<usize>, j: int)
    requires
        accepted_counts.len() <= camera_ids.len(),
        camera_ids.len() <= usize::MAX,
        0 <= j < pairs_from_root(camera_ids, accepted_counts.len() as int).len(),
    ensures
        ({
            let t = motion_task(camera_ids, accepted_counts, pairs_from_root(camera_ids, accepted_counts.len() as int)[j], j);
            &&& t.essential_index < accepted_counts.len()
            &&& camera_ids[t.essential_index as int].0 == camera_ids[0].0
            &&& t.view == camera_ids[t.essential_index as int].1
            &&& t.matches_index == j
            &&& t.decompose == (accepted_counts[j] >= MIN_MATCHES)
        }),
{
    lemma_motions_start_at_root(camera_ids, accepted_counts.len() as int);
    lemma_pairs_from_root(camera_ids, accepted_counts.len() as int);
    let i = pairs_from_root(camera_ids, accepted_counts.len() as int)[j];
    assert(camera_ids[i as int].0 == camera_ids[0].0);
    assert(pairs_from_root(camera_ids, accepted_counts.len() as int)[j] < accepted_counts.len());
}

/// The match sets kept for estimation are exactly those with at least
/// `MIN_MATCHES` matches, each once and in order.
pub proof fn lemma_kept_sets_have_enough_matches(counts: Seq<usize>)
    requires
        counts.len() <= usize::MAX,
    ensures
        forall|j: int|
            0 <= j < sets_with_enough_matches(counts).len() ==> {
                &&& #[trigger] sets_with_enough_matches(counts)[j] < counts.len()
                &&& counts[sets_with_enough_matches(counts)[j] as int] >= MIN_MATCHES
            },
        forall|j: int, k: int|
            0 <= j < k < sets_with_enough_matches(counts).len() ==> #[trigger] sets_with_enough_matches(counts)[j]
                < #[trigger] sets_with_enough_matches(counts)[k],
        forall|m: int|
            0 <= m < counts.len() && #[trigger] counts[m] >= MIN_MATCHES ==> exists|j: int|
                0 <= j < sets_with_enough_matches(counts).len() && #[trigger] sets_with_enough_matches(counts)[j] == m,
    decreases counts.len(),
{
    if counts.len() > 0 {
        let init = counts.drop_last();
        lemma_kept_sets_have_enough_matches(init);
        let kept = sets_with_enough_matches(init);
        let all = sets_with_enough_matches(counts);
        assert forall|j: int| 0 <= j < kept.len() implies counts[#[trigger] kept[j] as int] == init[kept[j] as int] by {}
        assert forall|m: int| 0 <= m < counts.len() && #[trigger] counts[m] >= MIN_MATCHES implies exists|j: int|
            0 <= j < all.len() && #[trigger] all[j] == m by {
            if m < counts.len() - 1 {
                assert(init[m] == counts[m]);
                let j = choose|j: int| 0 <= j < kept.len() && #[trigger] kept[j] == m;
                assert(all[j] == kept[j]);
            } else {
                assert(all[kept.len() as int] == m);
            }
        }
    }
}

/// The match sets that are large enough to estimate a motion from.
pub fn sets_to_estimate(match_counts: &Vec<usize>) -> (kept: Vec<usize>)
    ensures
        kept@ == sets_with_enough_matches(match_counts@),
{
    let mut kept = Vec::<usize>::new();
    let mut i: usize = 0;
    assert(match_counts@.subrange(0, 0) =~= Seq::<usize>::empty());
    while i < match_counts.len()
        invariant
            i <= match_counts.len(),
            kept@ == sets_with_enough_matches(match_counts@.subrange(0, i as int)),
        decreases match_counts.len() - i,
    {
        assert(match_counts@.subrange(0, i as int + 1).drop_last() =~= match_counts@.subrange(0, i as int));
        if match_counts[i] >= MIN_MATCHES {
            kept.push(i);
        }
        i += 1;
    }
    assert(match_counts@.subrange(0, match_counts.len() as int) =~= match_counts@);
    kept
}

/// The relative motions to estimate from the root: the `n` kept match sets
/// are paired by position with the first `n` camera pairs; the pairs that
/// start at the root view are taken in order, and the `j`-th of them is
/// decomposed with the `j`-th set of accepted matches, when it holds at least
/// `MIN_MATCHES` matches.
pub fn plan_initial_motions(camera_ids: &Vec<(usize, usize)>, accepted_counts: &Vec<usize>) -> (tasks: Vec<MotionTask>)
    requires
        accepted_counts.len() <= camera_ids.len(),
    ensures
        tasks.len() == pairs_from_root(camera_ids@, accepted_counts.len() as int).len(),
        forall|j: int|
            0 <= j < tasks.len() ==> #[trigger] tasks@[j] == motion_task(
                camera_ids@,
                accepted_counts@,
                pairs_from_root(camera_ids@, accepted_counts.len() as int)[j],
                j,
            ),
{
    let n = accepted_counts.len();
    let mut tasks = Vec::<MotionTask>::new();
    let mut i: usize = 0;
    while i < n
        invariant
            n == accepted_counts.len(),
            n <= camera_ids.len(),
            i <= n,
            tasks.len() == pairs_from_root(camera_ids@, i as int).len(),
            forall|j: int|
                0 <= j < tasks.len() ==> #[trigger] tasks@[j] == motion_task(
                    camera_ids@,
                    accepted_counts@,
                    pairs_from_root(camera_ids@, i as int)[j],
                    j,
                ),
        decreases n - i,
    {
        proof {
            lemma_pairs_from_root(camera_ids@, i as int);
        }
        let (id1, id2) = camera_ids[i];
        if id1 == camera_ids[0].0 {
            let j = tasks.len();
            tasks.push(MotionTask {
                view: id2 as u64,
                essential_index: i,
                matches_index: j,
                decompose: accepted_counts[j] >= MIN_MATCHES,
            });
        }
        proof {
            assert forall|j: int| 0 <= j < tasks.len() implies #[trigger] tasks@[j] == motion_task(
                camera_ids@,
                accepted_counts@,
                pairs_from_root(camera_ids@, i as int + 1)[j],
                j,
            ) by {
                if j < pairs_from_root(camera_ids@, i as int).len() {
                    assert(pairs_from_root(camera_ids@, i as int + 1)[j] == pairs_from_root(camera_ids@, i as int)[j]);
                }
            }
        }
        i += 1;
    }
    tasks
}

} // verus!

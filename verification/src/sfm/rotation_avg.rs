use vstd::prelude::*;

use std::collections::HashMap;

verus! {

broadcast use vstd::std_specs::hash::group_hash_axioms;

/// The view ids of a path of relative rotations, two per rotation (start, then finish).
pub open spec fn pair_ids(pairs: Seq<(usize, usize)>) -> Seq<usize>
    decreases pairs.len(),
{
    if pairs.len() == 0 {
        seq![]
    } else {
        pair_ids(pairs.drop_last()) + seq![pairs.last().0, pairs.last().1]
    }
}

/// The view ids of all paths, path after path.
pub open spec fn paths_ids(paths: Seq<Seq<(usize, usize)>>) -> Seq<usize>
    decreases paths.len(),
{
    if paths.len() == 0 {
        seq![]
    } else {
        paths_ids(paths.drop_last()) + pair_ids(paths.last())
    }
}

/// The distinct elements of `ids`, in the order of their first occurrence.
pub open spec fn first_occurrences(ids: Seq<usize>) -> Seq<usize>
    decreases ids.len(),
{
    if ids.len() == 0 {
        seq![]
    } else {
        let seen = first_occurrences(ids.drop_last());
        if seen.contains(ids.last()) {
            seen
        } else {
            seen.push(ids.last())
        }
    }
}

/// The paths as sequences of id pairs.
pub open spec fn paths_view(paths: Seq<Vec<(usize, usize)>>) -> Seq<Seq<(usize, usize)>> {
    paths.map_values(|v: Vec<(usize, usize)>| v@)
}

/// `m` numbers the elements of `order` by their position in it.
pub open spec fn numbers_in_order(m: Map<usize, usize>, order: Seq<usize>) -> bool {
    &&& m.dom() == order.to_set()
    &&& forall|k: int| 0 <= k < order.len() ==> m[#[trigger] order[k]] == k
}

/// No element occurs twice in `s`.
pub open spec fn no_duplicates(s: Seq<usize>) -> bool {
    forall|i: int, j: int| 0 <= i < j < s.len() ==> #[trigger] s[i] != #[trigger] s[j]
}

/// The first occurrences hold each id once, and exactly the ids that occur.
pub proof fn lemma_first_occurrences(ids: Seq<usize>)
    ensures
        no_duplicates(first_occurrences(ids)),
        first_occurrences(ids).to_set() == ids.to_set(),
        first_occurrences(ids).len() <= ids.len(),
    decreases ids.len(),
{
    if ids.len() > 0 {
        let init = ids.drop_last();
        lemma_first_occurrences(init);
        assert(ids =~= init.push(ids.last()));
        assert(ids.to_set() =~= init.to_set().insert(ids.last()));
        let seen = first_occurrences(init);
        if !seen.contains(ids.last()) {
            seen.lemma_push_to_set_commute(ids.last());
        } else {
            assert(seen.to_set().contains(ids.last()));
            assert(seen.to_set() =~= seen.to_set().insert(ids.last()));
        }
    }
}

/// The numbering of the views in the order of their first occurrence covers
/// every view that occurs, and numbers them `0, 1, ...` without gaps or
/// repeats: distinct views get distinct numbers, all below the number of views.
pub proof fn lemma_view_numbering(m: Map<usize, usize>, ids: Seq<usize>)
    requires
        numbers_in_order(m, first_occurrences(ids)),
    ensures
        m.dom() == ids.to_set(),
        m.dom().len() == first_occurrences(ids).len(),
        forall|a: usize| #[trigger] m.dom().contains(a) ==> m[a] < m.dom().len(),
        forall|a: usize, b: usize|
            m.dom().contains(a) && m.dom().contains(b) && a != b ==> #[trigger] m[a] != #[trigger] m[b],
{
    let order = first_occurrences(ids);
    lemma_first_occurrences(ids);
    assert(order.no_duplicates()) by {
        assert forall|i: int, j: int|
            0 <= i < order.len() && 0 <= j < order.len() && i != j implies order[i] != order[j] by {
            if i < j {
                assert(order[i] != order[j]);
            } else {
                assert(order[j] != order[i]);
            }
        }
    }
    order.unique_seq_to_set();
    assert forall|a: usize| #[trigger] m.dom().contains(a) implies m[a] < m.dom().len() by {
        let k = choose|k: int| 0 <= k < order.len() && order[k] == a;
        assert(m[order[k]] == k);
    }
    assert forall|a: usize, b: usize|
        m.dom().contains(a) && m.dom().contains(b) && a != b implies #[trigger] m[a] != #[trigger] m[b] by {
        let i = choose|i: int| 0 <= i < order.len() && order[i] == a;
        let j = choose|j: int| 0 <= j < order.len() && order[j] == b;
        assert(m[order[i]] == i);
        assert(m[order[j]] == j);
    }
}

/// All steps of all paths, path after path.
pub open spec fn all_steps(paths: Seq<Seq<(usize, usize)>>) -> Seq<(usize, usize)>
    decreases paths.len(),
{
    if paths.len() == 0 {
        seq![]
    } else {
        all_steps(paths.drop_last()) + paths.last()
    }
}

/// The views that the steps finish at, in order.
pub open spec fn finishes(steps: Seq<(usize, usize)>) -> Seq<usize>
    decreases steps.len(),
{
    if steps.len() == 0 {
        seq![]
    } else {
        finishes(steps.drop_last()).push(steps.last().1)
    }
}

/// Every step starts at the root or at a view that an earlier step finished at,
/// as in paths that lead away from the root.
pub open spec fn starts_at_known_views(steps: Seq<(usize, usize)>, root: usize) -> bool {
    forall|k: int|
        0 <= k < steps.len() ==> (#[trigger] steps[k]).0 == root || exists|j: int|
            0 <= j < k && steps[j].1 == steps[k].0
}

/// The ids of concatenated steps are the ids of the parts, concatenated.
proof fn lemma_pair_ids_append(a: Seq<(usize, usize)>, b: Seq<(usize, usize)>)
    ensures
        pair_ids(a + b) == pair_ids(a) + pair_ids(b),
    decreases b.len(),
{
    if b.len() > 0 {
        lemma_pair_ids_append(a, b.drop_last());
        assert((a + b).drop_last() =~= a + b.drop_last());
        assert((a + b).last() == b.last());
    } else {
        assert(a + b =~= a);
    }
}

/// The ids of the paths are the ids of all their steps.
proof fn lemma_paths_ids_steps(paths: Seq<Seq<(usize, usize)>>)
    ensures
        paths_ids(paths) == pair_ids(all_steps(paths)),
    decreases paths.len(),
{
    if paths.len() > 0 {
        lemma_paths_ids_steps(paths.drop_last());
        lemma_pair_ids_append(all_steps(paths.drop_last()), paths.last());
    }
}

/// When every step starts at the root or at an earlier finish, and the
/// finishes are distinct and differ from the root, the views in order of first
/// occurrence are the root followed by the finishes.
proof fn lemma_first_occurrences_of_steps(steps: Seq<(usize, usize)>, root: usize)
    requires
        steps.len() > 0,
        starts_at_known_views(steps, root),
        no_duplicates(finishes(steps)),
        !finishes(steps).contains(root),
    ensures
        first_occurrences(pair_ids(steps)) == seq![root] + finishes(steps),
    decreases steps.len(),
{
    let init = steps.drop_last();
    let (start, finish) = steps.last();
    let ids = pair_ids(init);
    assert(pair_ids(steps) == ids.push(start).push(finish));
    assert(ids.push(start).push(finish).drop_last() =~= ids.push(start));
    assert(ids.push(start).drop_last() =~= ids);
    assert(finishes(steps) == finishes(init).push(finish));
    assert forall|i: int| 0 <= i < finishes(init).len() implies finishes(init)[i] == #[trigger] finishes(
        steps,
    )[i] by {}
    if init.len() == 0 {
        assert(steps[0] == (start, finish));
        assert(start == root);
        assert(ids =~= Seq::<usize>::empty());
        assert(first_occurrences(ids) =~= Seq::<usize>::empty());
        assert(finishes(steps)[0] == finish);
        assert(finish != root);
        assert(first_occurrences(ids.push(start)) =~= seq![root]);
        assert(!seq![root].contains(finish));
        assert(first_occurrences(pair_ids(steps)) =~= seq![root] + finishes(steps));
    } else {
        assert(starts_at_known_views(init, root)) by {
            assert forall|k: int| 0 <= k < init.len() implies (#[trigger] init[k]).0 == root
                || exists|j: int| 0 <= j < k && init[j].1 == init[k].0 by {
                assert(init[k] == steps[k]);
                if steps[k].0 != root {
                    let j = choose|j: int| 0 <= j < k && steps[j].1 == steps[k].0;
                    assert(init[j] == steps[j]);
                }
            }
        }
        assert(!finishes(init).contains(root)) by {
            if finishes(init).contains(root) {
                let i = choose|i: int| 0 <= i < finishes(init).len() && finishes(init)[i] == root;
                assert(finishes(steps)[i] == root);
            }
        }
        lemma_finishes_len(init);
        lemma_finishes_len(steps);
        assert(no_duplicates(finishes(init))) by {
            assert forall|a: int, b: int| 0 <= a < b < finishes(init).len() implies #[trigger] finishes(init)[a] != #[trigger] finishes(init)[b] by {
                assert(finishes(steps)[a] != finishes(steps)[b]);
            }
        }
        lemma_first_occurrences_of_steps(init, root);
        let seen = seq![root] + finishes(init);
        assert(seen.contains(start)) by {
            let k = steps.len() - 1;
            assert(steps[k] == (start, finish));
            if start == root {
                assert(seen[0] == root);
            } else {
                let j = choose|j: int| 0 <= j < k && steps[j].1 == steps[k].0;
                lemma_finish_at(init, j);
                assert(init[j] == steps[j]);
                assert(seen[j + 1] == finishes(init)[j]);
            }
        }
        assert(!seen.contains(finish)) by {
            if seen.contains(finish) {
                let i = choose|i: int| 0 <= i < seen.len() && seen[i] == finish;
                let last = finishes(steps).len() - 1;
                assert(finishes(steps)[last] == finish);
                if i == 0 {
                    assert(finishes(steps).contains(root));
                } else {
                    assert(finishes(steps)[i - 1] == finish);
                }
            }
        }
        assert(first_occurrences(ids.push(start)) == seen);
        assert(first_occurrences(pair_ids(steps)) =~= seq![root] + finishes(steps));
    }
}

/// One finish per step.
proof fn lemma_finishes_len(steps: Seq<(usize, usize)>)
    ensures
        finishes(steps).len() == steps.len(),
    decreases steps.len(),
{
    if steps.len() > 0 {
        lemma_finishes_len(steps.drop_last());
    }
}

/// The `j`-th finish is the finish of the `j`-th step.
proof fn lemma_finish_at(steps: Seq<(usize, usize)>, j: int)
    requires
        0 <= j < steps.len(),
    ensures
        finishes(steps).len() == steps.len(),
        finishes(steps)[j] == steps[j].1,
    decreases steps.len(),
{
    lemma_finishes_len(steps);
    if j < steps.len() - 1 {
        lemma_finish_at(steps.drop_last(), j);
        assert(steps.drop_last()[j] == steps[j]);
    }
}

/// For paths that lead away from the root, where every step starts at the
/// root or at a view reached by an earlier step and no view is reached twice
/// or leads back to the root, the views get the numbers root first and then
/// the reached views in order: there are exactly one more views than steps.
pub proof fn lemma_views_of_rooted_paths(paths: Seq<Seq<(usize, usize)>>, root: usize)
    requires
        all_steps(paths).len() > 0,
        starts_at_known_views(all_steps(paths), root),
        no_duplicates(finishes(all_steps(paths))),
        !finishes(all_steps(paths)).contains(root),
    ensures
        first_occurrences(paths_ids(paths)) == seq![root] + finishes(all_steps(paths)),
        first_occurrences(paths_ids(paths)).len() == all_steps(paths).len() + 1,
{
    lemma_paths_ids_steps(paths);
    lemma_first_occurrences_of_steps(all_steps(paths), root);
    lemma_finishes_len(all_steps(paths));
}

/// The ids of the paths up to `p`, then the first `j` pairs of path `p`.
pub open spec fn ids_before(paths: Seq<Seq<(usize, usize)>>, p: int, j: int) -> Seq<usize> {
    paths_ids(paths.subrange(0, p)) + pair_ids(paths[p].subrange(0, j))
}

/// Two ids per pair.
proof fn lemma_pair_ids_len(pairs: Seq<(usize, usize)>)
    ensures
        pair_ids(pairs).len() == 2 * pairs.len(),
    decreases pairs.len(),
{
    if pairs.len() > 0 {
        lemma_pair_ids_len(pairs.drop_last());
    }
}

/// The ids of a prefix of the paths are no more than the ids of all of them.
proof fn lemma_paths_ids_prefix_len(paths: Seq<Seq<(usize, usize)>>, p: int)
    requires
        0 <= p <= paths.len(),
    ensures
        paths_ids(paths.subrange(0, p)).len() <= paths_ids(paths).len(),
    decreases paths.len() - p,
{
    if p < paths.len() {
        lemma_paths_ids_prefix_len(paths, p + 1);
        assert(paths.subrange(0, p + 1).drop_last() =~= paths.subrange(0, p));
    } else {
        assert(paths.subrange(0, p) =~= paths);
    }
}

/// Numbers `id` if it has no number yet.
fn number_view(
    index_map: &mut HashMap<usize, usize>,
    index_counter: &mut usize,
    id: usize,
    Ghost(seen): Ghost<Seq<usize>>,
)
    requires
        numbers_in_order(old(index_map)@, first_occurrences(seen)),
        *old(index_counter) == first_occurrences(seen).len(),
        seen.len() + 1 <= usize::MAX,
    ensures
        numbers_in_order(final(index_map)@, first_occurrences(seen.push(id))),
        *final(index_counter) == first_occurrences(seen.push(id)).len(),
{
    proof {
        lemma_first_occurrences(seen);
        assert(seen.push(id).drop_last() =~= seen);
    }
    let ghost order = first_occurrences(seen);
    if !index_map.contains_key(&id) {
        assert(!order.to_set().contains(id));
        assert(!order.contains(id));
        index_map.insert(id, *index_counter);
        *index_counter += 1;
        proof {
            let new_order = order.push(id);
            assert(first_occurrences(seen.push(id)) == new_order);
            assert(index_map@.dom() =~= new_order.to_set()) by {
                order.lemma_push_to_set_commute(id);
            }
            assert forall|k: int| 0 <= k < new_order.len() implies index_map@[#[trigger] new_order[k]] == k by {
                if k < order.len() {
                    assert(new_order[k] == order[k]);
                    assert(order[k] != id);
                }
            }
        }
    } else {
        assert(order.to_set().contains(id));
        assert(order.contains(id));
    }
}

/// Numbers the views that occur in the paths of relative rotations: each
/// view id, in the order of its first occurrence (start before finish, path
/// after path), is mapped to the next free index, starting at 0.
pub fn generate_path_indices_to_matrix_map(path_indices: &Vec<Vec<(usize, usize)>>) -> (index_map:
    HashMap<usize, usize>)
    requires
        paths_ids(paths_view(path_indices@)).len() <= usize::MAX,
    ensures
        numbers_in_order(index_map@, first_occurrences(paths_ids(paths_view(path_indices@)))),
{
    let mut index_map = HashMap::<usize, usize>::new();
    let mut index_counter: usize = 0;
    let ghost all = paths_view(path_indices@);
    let mut p: usize = 0;
    proof {
        assert(all.subrange(0, 0) =~= Seq::<Seq<(usize, usize)>>::empty());
        assert(index_map@.dom() =~= Seq::<usize>::empty().to_set());
    }
    while p < path_indices.len()
        invariant
            all == paths_view(path_indices@),
            paths_ids(all).len() <= usize::MAX,
            p <= path_indices.len(),
            numbers_in_order(index_map@, first_occurrences(paths_ids(all.subrange(0, p as int)))),
            index_counter == first_occurrences(paths_ids(all.subrange(0, p as int))).len(),
        decreases path_indices.len() - p,
    {
        let v = &path_indices[p];
        proof {
            assert(all.subrange(0, p as int + 1).drop_last() =~= all.subrange(0, p as int));
            assert(all[p as int] == v@);
            assert(v@.subrange(0, 0) =~= Seq::<(usize, usize)>::empty());
            assert(ids_before(all, p as int, 0) =~= paths_ids(all.subrange(0, p as int)));
            lemma_paths_ids_prefix_len(all, p as int + 1);
            lemma_pair_ids_len(v@);
        }
        let mut j: usize = 0;
        while j < v.len()
            invariant
                all == paths_view(path_indices@),
                paths_ids(all).len() <= usize::MAX,
                p < path_indices.len(),
                v@ == all[p as int],
                paths_ids(all.subrange(0, p as int + 1)) == paths_ids(all.subrange(0, p as int))
                    + pair_ids(v@),
                paths_ids(all.subrange(0, p as int + 1)).len() <= paths_ids(all).len(),
                pair_ids(v@).len() == 2 * v.len(),
                j <= v.len(),
                numbers_in_order(index_map@, first_occurrences(ids_before(all, p as int, j as int))),
                index_counter == first_occurrences(ids_before(all, p as int, j as int)).len(),
            decreases v.len() - j,
        {
            let (i_s, i_f) = v[j];
            let ghost seen = ids_before(all, p as int, j as int);
            proof {
                assert(v@.subrange(0, j as int + 1).drop_last() =~= v@.subrange(0, j as int));
                lemma_pair_ids_len(v@.subrange(0, j as int));
                assert(ids_before(all, p as int, j as int + 1) =~= seen.push(i_s).push(i_f));
            }
            number_view(&mut index_map, &mut index_counter, i_s, Ghost(seen));
            number_view(&mut index_map, &mut index_counter, i_f, Ghost(seen.push(i_s)));
            j += 1;
        }
        proof {
            assert(v@.subrange(0, v@.len() as int) =~= v@);
            assert(ids_before(all, p as int, v@.len() as int) =~= paths_ids(all.subrange(0, p as int + 1)));
        }
        p += 1;
    }
    proof {
        assert(all.subrange(0, all.len() as int) =~= all);
    }
    index_map
}

} // verus!

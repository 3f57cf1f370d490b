use vstd::prelude::*;

use std::collections::HashMap;

use crate::features::Match;

pub mod rotation_avg;

verus! {

broadcast use vstd::std_specs::hash::group_hash_axioms;

/// The ids of all paths, path after path.
pub open spec fn joined(paths: Seq<Seq<usize>>) -> Seq<usize>
    decreases paths.len(),
{
    if paths.len() == 0 {
        seq![]
    } else {
        joined(paths.drop_last()) + paths.last()
    }
}

/// `s` with every run of equal neighbours cut down to its first element.
pub open spec fn dedup(s: Seq<usize>) -> Seq<usize>
    decreases s.len(),
{
    if s.len() <= 1 {
        s
    } else if s.last() == s[s.len() - 2] {
        dedup(s.drop_last())
    } else {
        dedup(s.drop_last()).push(s.last())
    }
}

/// The paths as sequences of view ids.
pub open spec fn paths_view(paths: Seq<Vec<usize>>) -> Seq<Seq<usize>> {
    paths.map_values(|v: Vec<usize>| v@)
}

/// The pair of views that the `i`-th step of a path connects: the root and
/// the first view for the first step, and consecutive views after that.
pub open spec fn path_step(root: usize, path: Seq<usize>, i: int) -> (usize, usize) {
    if i == 0 {
        (root, path[0])
    } else {
        (path[i - 1], path[i])
    }
}

/// Every element of the deduplicated sequence occurs in the input.
proof fn lemma_dedup_members(s: Seq<usize>)
    ensures
        forall|i: int| 0 <= i < dedup(s).len() ==> s.contains(#[trigger] dedup(s)[i]),
    decreases s.len(),
{
    if s.len() > 1 {
        let init = s.drop_last();
        lemma_dedup_members(init);
        assert forall|i: int| 0 <= i < dedup(s).len() implies s.contains(#[trigger] dedup(s)[i]) by {
            if i < dedup(init).len() {
                assert(dedup(s)[i] == dedup(init)[i]);
                assert(init.contains(dedup(init)[i]));
                let w = choose|w: int| 0 <= w < init.len() && init[w] == dedup(init)[i];
                assert(s[w] == init[w]);
            } else {
                assert(dedup(s)[i] == s[s.len() - 1]);
            }
        }
    } else {
        assert forall|i: int| 0 <= i < dedup(s).len() implies s.contains(#[trigger] dedup(s)[i]) by {
            assert(s[i] == dedup(s)[i]);
        }
    }
}

/// Deduplication keeps the first element.
proof fn lemma_dedup_first(s: Seq<usize>)
    requires
        s.len() >= 1,
    ensures
        dedup(s).len() >= 1,
        dedup(s)[0] == s[0],
    decreases s.len(),
{
    if s.len() > 1 {
        lemma_dedup_first(s.drop_last());
    }
}

/// After deduplication no element equals its neighbour, and the last element is kept.
pub proof fn lemma_dedup_no_equal_neighbours(s: Seq<usize>)
    ensures
        forall|i: int| 0 <= i < dedup(s).len() - 1 ==> #[trigger] dedup(s)[i] != dedup(s)[i + 1],
        s.len() >= 1 ==> dedup(s).len() >= 1 && dedup(s).last() == s.last(),
    decreases s.len(),
{
    if s.len() > 1 {
        let init = s.drop_last();
        lemma_dedup_no_equal_neighbours(init);
        if s.last() != s[s.len() - 2] {
            assert(init.last() == s[s.len() - 2]);
            assert forall|i: int| 0 <= i < dedup(s).len() - 1 implies #[trigger] dedup(s)[i] != dedup(s)[i + 1] by {
                if i + 1 < dedup(init).len() {
                    assert(dedup(s)[i] == dedup(init)[i]);
                    assert(dedup(s)[i + 1] == dedup(init)[i + 1]);
                }
            }
        }
    }
}

/// Deduplication loses no value: every element of the input is still there.
proof fn lemma_dedup_keeps_values(s: Seq<usize>)
    ensures
        forall|k: int| 0 <= k < s.len() ==> dedup(s).contains(#[trigger] s[k]),
    decreases s.len(),
{
    if s.len() > 1 {
        let init = s.drop_last();
        lemma_dedup_keeps_values(init);
        lemma_dedup_no_equal_neighbours(init);
        assert forall|k: int| 0 <= k < s.len() implies dedup(s).contains(#[trigger] s[k]) by {
            if k < s.len() - 1 {
                assert(init[k] == s[k]);
                let w = choose|w: int| 0 <= w < dedup(init).len() && dedup(init)[w] == init[k];
                assert(dedup(s)[w] == dedup(init)[w]);
            } else if s.last() == s[s.len() - 2] {
                assert(init[s.len() - 2] == s[s.len() - 2]);
                let w = choose|w: int| 0 <= w < dedup(init).len() && dedup(init)[w] == init[s.len() - 2];
                assert(dedup(s)[w] == dedup(init)[w]);
            } else {
                assert(dedup(s)[dedup(s).len() - 1] == s.last());
            }
        }
    } else {
        assert forall|k: int| 0 <= k < s.len() implies dedup(s).contains(#[trigger] s[k]) by {
            assert(dedup(s)[k] == s[k]);
        }
    }
}

/// Every view of every path is among the joined views.
proof fn lemma_joined_holds_views(paths: Seq<Seq<usize>>, p: int, i: int)
    requires
        0 <= p < paths.len(),
        0 <= i < paths[p].len(),
    ensures
        joined(paths).contains(paths[p][i]),
    decreases paths.len(),
{
    let init = paths.drop_last();
    if p == paths.len() - 1 {
        assert(joined(paths)[joined(init).len() + i] == paths[p][i]);
    } else {
        lemma_joined_holds_views(init, p, i);
        let w = choose|w: int| 0 <= w < joined(init).len() && joined(init)[w] == init[p][i];
        assert(joined(paths)[w] == joined(init)[w]);
    }
}

/// Every joined view is a view of some path.
proof fn lemma_joined_views_come_from_paths(paths: Seq<Seq<usize>>, k: int)
    requires
        0 <= k < joined(paths).len(),
    ensures
        exists|p: int, i: int| 0 <= p < paths.len() && 0 <= i < paths[p].len() && #[trigger] paths[p][i] == joined(paths)[k],
    decreases paths.len(),
{
    let init = paths.drop_last();
    if k < joined(init).len() {
        lemma_joined_views_come_from_paths(init, k);
        let (p, i) = choose|p: int, i: int| 0 <= p < init.len() && 0 <= i < init[p].len() && #[trigger] init[p][i] == joined(init)[k];
        assert(paths[p] == init[p]);
    } else {
        let i = k - joined(init).len();
        assert(paths[paths.len() - 1][i] == joined(paths)[k]);
    }
}

/// The ids of a problem, root first and with repeats of the previous view left
/// out, are exactly the root and the views of the paths: every view of every
/// path is among them, and each of them is the root or a view of a path.
pub proof fn lemma_ids_are_all_views(root: usize, paths: Seq<Seq<usize>>)
    ensures
        dedup(seq![root] + joined(paths)).contains(root),
        forall|p: int, i: int|
            0 <= p < paths.len() && 0 <= i < paths[p].len() ==> dedup(seq![root] + joined(paths)).contains(
                #[trigger] paths[p][i],
            ),
        forall|k: int|
            0 <= k < dedup(seq![root] + joined(paths)).len() ==> #[trigger] dedup(seq![root] + joined(paths))[k]
                == root || exists|p: int, i: int|
                0 <= p < paths.len() && 0 <= i < paths[p].len() && #[trigger] paths[p][i] == dedup(
                    seq![root] + joined(paths),
                )[k],
{
    let all = seq![root] + joined(paths);
    lemma_dedup_keeps_values(all);
    lemma_dedup_members(all);
    assert(all[0] == root);
    assert forall|p: int, i: int| 0 <= p < paths.len() && 0 <= i < paths[p].len() implies dedup(all).contains(
        #[trigger] paths[p][i],
    ) by {
        lemma_joined_holds_views(paths, p, i);
        let w = choose|w: int| 0 <= w < joined(paths).len() && joined(paths)[w] == paths[p][i];
        assert(all[w + 1] == paths[p][i]);
    }
    assert forall|k: int| 0 <= k < dedup(all).len() implies #[trigger] dedup(all)[k] == root || exists|p: int, i: int|
        0 <= p < paths.len() && 0 <= i < paths[p].len() && #[trigger] paths[p][i] == dedup(all)[k] by {
        assert(all.contains(dedup(all)[k]));
        let w = choose|w: int| 0 <= w < all.len() && all[w] == dedup(all)[k];
        if w > 0 {
            assert(all[w] == joined(paths)[w - 1]);
            lemma_joined_views_come_from_paths(paths, w - 1);
        }
    }
}

/// The steps of a path form a chain from the root: the first step starts at
/// the root, every step ends at the view of its position, and every later
/// step starts where the step before it ended.
pub proof fn lemma_path_steps_chain(root: usize, path: Seq<usize>)
    ensures
        path.len() > 0 ==> path_step(root, path, 0).0 == root,
        forall|i: int| 0 <= i < path.len() ==> (#[trigger] path_step(root, path, i)).1 == path[i],
        forall|i: int|
            1 <= i < path.len() ==> (#[trigger] path_step(root, path, i)).0 == path_step(root, path, i - 1).1,
{
}

/// A view that occurs more than once occurs only in one run of neighbours.
pub open spec fn repeats_only_in_runs(s: Seq<usize>) -> bool {
    forall|i: int, j: int, k: int|
        0 <= i <= k <= j < s.len() && #[trigger] s[i] == #[trigger] s[j] ==> #[trigger] s[k] == s[i]
}

/// When every view occurs in a single run of neighbours, deduplication
/// leaves each view exactly once.
pub proof fn lemma_dedup_unique(s: Seq<usize>)
    requires
        repeats_only_in_runs(s),
    ensures
        forall|i: int, j: int| 0 <= i < j < dedup(s).len() ==> #[trigger] dedup(s)[i] != #[trigger] dedup(s)[j],
    decreases s.len(),
{
    if s.len() > 1 {
        let init = s.drop_last();
        assert(repeats_only_in_runs(init)) by {
            assert forall|i: int, j: int, k: int|
                0 <= i <= k <= j < init.len() && #[trigger] init[i] == #[trigger] init[j] implies #[trigger] init[k] == init[i] by {
                assert(s[i] == init[i] && s[j] == init[j] && s[k] == init[k]);
            }
        }
        lemma_dedup_unique(init);
        lemma_dedup_members(init);
        if s.last() != s[s.len() - 2] {
            assert forall|i: int, j: int| 0 <= i < j < dedup(s).len() implies #[trigger] dedup(s)[i] != #[trigger] dedup(s)[j] by {
                if j == dedup(s).len() - 1 {
                    assert(dedup(s)[j] == s.last());
                    assert(dedup(s)[i] == dedup(init)[i]);
                    assert(init.contains(dedup(init)[i]));
                    let w = choose|w: int| 0 <= w < init.len() && init[w] == dedup(init)[i];
                    if dedup(s)[i] == s.last() {
                        assert(s[w] == s[s.len() - 1]);
                        assert(s[s.len() - 2] == s[w]);
                    }
                } else {
                    assert(dedup(s)[i] == dedup(init)[i]);
                    assert(dedup(s)[j] == dedup(init)[j]);
                }
            }
        }
    }
}

/// The sequence with runs of equal neighbours cut down to their first element.
fn dedup_vec(v: &Vec<usize>) -> (d: Vec<usize>)
    ensures
        d@ == dedup(v@),
{
    let mut d = Vec::<usize>::new();
    let mut i: usize = 0;
    assert(v@.subrange(0, 0) =~= Seq::<usize>::empty());
    while i < v.len()
        invariant
            i <= v.len(),
            d@ == dedup(v@.subrange(0, i as int)),
        decreases v.len() - i,
    {
        let ghost prefix = v@.subrange(0, i as int + 1);
        assert(prefix.drop_last() =~= v@.subrange(0, i as int));
        if i == 0 || v[i] != v[i - 1] {
            d.push(v[i]);
            if i == 0 {
                assert(d@ =~= prefix);
            }
        }
        i += 1;
    }
    assert(v@.subrange(0, v.len() as int) =~= v@);
    d
}

/// The setup of a structure-from-motion problem: a root view, paths of views
/// leading away from it, the camera of each view, and the feature matches
/// along the paths. The indices of paths and matches are assumed to agree.
pub struct SFMConfig<C, Feat> {
    root: usize,
    paths: Vec<Vec<usize>>,
    camera_map: HashMap<usize, C>,
    matches: Vec<Vec<Vec<Match<Feat>>>>,
}

impl<C, Feat> SFMConfig<C, Feat> {
    /// The root view.
    pub closed spec fn root_view(&self) -> usize {
        self.root
    }

    /// The paths of views.
    pub closed spec fn path_views(&self) -> Seq<Seq<usize>> {
        paths_view(self.paths@)
    }

    /// The camera of each view.
    pub closed spec fn cameras(&self) -> Map<usize, C> {
        self.camera_map@
    }

    /// The feature matches.
    pub closed spec fn match_sets(&self) -> Seq<Vec<Vec<Match<Feat>>>> {
        self.matches@
    }

    /// A configuration from its parts.
    pub fn new(
        root: usize,
        paths: Vec<Vec<usize>>,
        camera_map: HashMap<usize, C>,
        matches: Vec<Vec<Vec<Match<Feat>>>>,
    ) -> (config: SFMConfig<C, Feat>)
        ensures
            config.root_view() == root,
            config.path_views() == paths_view(paths@),
            config.cameras() == camera_map@,
            config.match_sets() == matches@,
    {
        SFMConfig { root, paths, camera_map, matches }
    }

    /// The root view.
    pub fn root(&self) -> (root: usize)
        ensures
            root == self.root_view(),
    {
        self.root
    }

    /// The paths of views.
    pub fn paths(&self) -> (paths: &Vec<Vec<usize>>)
        ensures
            paths_view(paths@) == self.path_views(),
    {
        &self.paths
    }

    /// The camera of each view.
    pub fn camera_map(&self) -> (camera_map: &HashMap<usize, C>)
        ensures
            camera_map@ == self.cameras(),
    {
        &self.camera_map
    }

    /// The feature matches, as given (not filtered).
    pub fn matches(&self) -> (matches: &Vec<Vec<Vec<Match<Feat>>>>)
        ensures
            matches@ == self.match_sets(),
    {
        &self.matches
    }

    /// The pairs of views that each step of each path connects.
    pub fn compute_path_id_pairs(&self) -> (pairs: Vec<Vec<(usize, usize)>>)
        ensures
            pairs.len() == self.path_views().len(),
            forall|p: int|
                #![trigger pairs@[p]]
                0 <= p < pairs.len() ==> {
                    &&& pairs@[p].len() == self.path_views()[p].len()
                    &&& forall|i: int|
                        0 <= i < pairs@[p].len() ==> #[trigger] pairs@[p]@[i] == path_step(
                            self.root_view(),
                            self.path_views()[p],
                            i,
                        )
                },
    {
        let mut path_id_pairs = Vec::<Vec<(usize, usize)>>::with_capacity(self.paths.len());
        let mut p: usize = 0;
        while p < self.paths.len()
            invariant
                p <= self.paths.len(),
                path_id_pairs.len() == p,
                forall|q: int|
                    #![trigger path_id_pairs@[q]]
                    0 <= q < p ==> {
                        &&& path_id_pairs@[q].len() == self.path_views()[q].len()
                        &&& forall|i: int|
                            0 <= i < path_id_pairs@[q].len() ==> #[trigger] path_id_pairs@[q]@[i]
                                == path_step(self.root_view(), self.path_views()[q], i)
                    },
            decreases self.paths.len() - p,
        {
            let sub_path = &self.paths[p];
            assert(sub_path@ == self.path_views()[p as int]);
            let mut pairs = Vec::<(usize, usize)>::new();
            let mut i: usize = 0;
            while i < sub_path.len()
                invariant
                    sub_path@ == self.path_views()[p as int],
                    i <= sub_path.len(),
                    pairs.len() == i,
                    forall|k: int|
                        0 <= k < i ==> #[trigger] pairs@[k] == path_step(
                            self.root_view(),
                            sub_path@,
                            k,
                        ),
                decreases sub_path.len() - i,
            {
                let id = sub_path[i];
                if i == 0 {
                    pairs.push((self.root, id));
                } else {
                    pairs.push((sub_path[i - 1], id));
                }
                i += 1;
            }
            path_id_pairs.push(pairs);
            p += 1;
        }
        path_id_pairs
    }

    /// The views of the problem, the root first and then the views of the
    /// paths in order, with repeats of the previous view left out, together
    /// with the camera of each.
    pub fn compute_unqiue_ids_cameras_root_first(&self) -> (ids_cameras: (Vec<usize>, Vec<&C>))
        requires
            self.cameras().contains_key(self.root_view()),
            forall|i: int|
                0 <= i < joined(self.path_views()).len() ==> self.cameras().contains_key(
                    #[trigger] joined(self.path_views())[i],
                ),
        ensures
            ids_cameras.0@ == dedup(seq![self.root_view()] + joined(self.path_views())),
            ids_cameras.0@.len() >= 1,
            ids_cameras.0@[0] == self.root_view(),
            ids_cameras.1.len() == ids_cameras.0.len(),
            forall|i: int|
                0 <= i < ids_cameras.1.len() ==> *#[trigger] ids_cameras.1@[i] == self.cameras()[ids_cameras.0@[i]],
    {
        let number_of_keys = self.camera_map.len();
        let mut all_ids = Vec::<usize>::with_capacity(number_of_keys);
        // root has to be first by design
        all_ids.push(self.root);
        let ghost paths = self.path_views();
        let mut p: usize = 0;
        proof {
            assert(paths.subrange(0, 0) =~= Seq::<Seq<usize>>::empty());
            assert(all_ids@ =~= seq![self.root_view()] + joined(paths.subrange(0, 0)));
        }
        while p < self.paths.len()
            invariant
                paths == self.path_views(),
                p <= self.paths.len(),
                all_ids@ == seq![self.root_view()] + joined(paths.subrange(0, p as int)),
            decreases self.paths.len() - p,
        {
            let path = &self.paths[p];
            assert(path@ == paths[p as int]);
            assert(paths.subrange(0, p as int + 1).drop_last() =~= paths.subrange(0, p as int));
            let ghost before = all_ids@;
            let mut j: usize = 0;
            assert(path@.subrange(0, 0) =~= Seq::<usize>::empty());
            assert(before + path@.subrange(0, 0) =~= before);
            while j < path.len()
                invariant
                    j <= path.len(),
                    all_ids@ == before + path@.subrange(0, j as int),
                decreases path.len() - j,
            {
                all_ids.push(path[j]);
                j += 1;
                assert(all_ids@ =~= before + path@.subrange(0, j as int));
            }
            assert(path@.subrange(0, path.len() as int) =~= path@);
            assert(all_ids@ =~= seq![self.root_view()] + joined(paths.subrange(0, p as int + 1)));
            p += 1;
        }
        assert(paths.subrange(0, paths.len() as int) =~= paths);
        let keys_sorted = dedup_vec(&all_ids);
        proof {
            lemma_dedup_members(all_ids@);
            lemma_dedup_first(all_ids@);
        }
        let mut cameras_sorted = Vec::<&C>::with_capacity(keys_sorted.len());
        let mut k: usize = 0;
        while k < keys_sorted.len()
            invariant
                k <= keys_sorted.len(),
                keys_sorted@ == dedup(all_ids@),
                all_ids@ == seq![self.root_view()] + joined(self.path_views()),
                forall|i: int| 0 <= i < keys_sorted.len() ==> all_ids@.contains(#[trigger] keys_sorted@[i]),
                self.cameras().contains_key(self.root_view()),
                forall|i: int|
                    0 <= i < joined(self.path_views()).len() ==> self.cameras().contains_key(
                        #[trigger] joined(self.path_views())[i],
                    ),
                cameras_sorted.len() == k,
                forall|i: int|
                    0 <= i < k ==> *#[trigger] cameras_sorted@[i] == self.cameras()[keys_sorted@[i]],
            decreases keys_sorted.len() - k,
        {
            let id = keys_sorted[k];
            proof {
                assert(all_ids@.contains(id));
                let w = choose|w: int| 0 <= w < all_ids@.len() && all_ids@[w] == id;
                if w > 0 {
                    assert(all_ids@[w] == joined(self.path_views())[w - 1]);
                }
                assert(self.camera_map@.contains_key(id));
            }
            let camera = self.camera_map.get(&id).unwrap();
            cameras_sorted.push(camera);
            k += 1;
        }
        (keys_sorted, cameras_sorted)
    }
}

} // verus!

use std::collections::HashMap;
use vision::features::Match;
use vision::sfm::rotation_avg::generate_path_indices_to_matrix_map;
use vision::sfm::SFMConfig;

#[test]
fn numbers_views_by_first_occurrence() {
    let map = generate_path_indices_to_matrix_map(&vec![vec![(0, 1), (1, 2)], vec![(0, 3)]]);
    let expected: HashMap<usize, usize> = [(0, 0), (1, 1), (2, 2), (3, 3)].into_iter().collect();
    assert_eq!(map, expected);

    let map = generate_path_indices_to_matrix_map(&vec![vec![(5, 3), (3, 5)], vec![], vec![(9, 5)]]);
    let expected: HashMap<usize, usize> = [(5, 0), (3, 1), (9, 2)].into_iter().collect();
    assert_eq!(map, expected);

    assert!(generate_path_indices_to_matrix_map(&vec![]).is_empty());
}

fn config() -> SFMConfig<&'static str, u8> {
    let cameras: HashMap<usize, &'static str> =
        [(0, "c0"), (1, "c1"), (2, "c2"), (3, "c3")].into_iter().collect();
    let matches = vec![vec![vec![Match { feature_one: 1u8, feature_two: 2u8 }]]];
    SFMConfig::new(0, vec![vec![1, 2], vec![3], vec![3, 3, 1]], cameras, matches)
}

#[test]
fn path_pairs_start_at_the_root() {
    let c = config();
    assert_eq!(c.root(), 0);
    assert_eq!(c.paths(), &vec![vec![1, 2], vec![3], vec![3, 3, 1]]);
    assert_eq!(c.camera_map().len(), 4);
    assert_eq!(c.matches().len(), 1);
    assert_eq!(
        c.compute_path_id_pairs(),
        vec![vec![(0, 1), (1, 2)], vec![(0, 3)], vec![(0, 3), (3, 3), (3, 1)]]
    );
}

#[test]
fn unique_ids_put_the_root_first() {
    let c = config();
    let (ids, cameras) = c.compute_unqiue_ids_cameras_root_first();
    assert_eq!(ids, vec![0, 1, 2, 3, 1]);
    assert_eq!(cameras, vec![&"c0", &"c1", &"c2", &"c3", &"c1"]);
}

#[test]
fn unique_ids_are_distinct_when_views_repeat_only_as_neighbours() {
    let cameras: HashMap<usize, u8> = [(0, 0u8), (1, 1), (2, 2), (3, 3)].into_iter().collect();
    let c: SFMConfig<u8, u8> = SFMConfig::new(0, vec![vec![1, 1, 2], vec![2, 3]], cameras, vec![]);
    let (ids, cameras) = c.compute_unqiue_ids_cameras_root_first();
    assert_eq!(ids, vec![0, 1, 2, 3]);
    assert_eq!(cameras, vec![&0, &1, &2, &3]);
    for w in ids.windows(2) {
        assert_ne!(w[0], w[1]);
    }
}

#[test]
fn rooted_paths_have_one_more_view_than_steps() {
    let paths = vec![vec![(0, 1), (1, 2)], vec![(0, 3), (3, 4), (2, 5)]];
    let steps: usize = paths.iter().map(|p| p.len()).sum();
    let map = generate_path_indices_to_matrix_map(&paths);
    assert_eq!(map.len(), steps + 1);
    let expected: HashMap<usize, usize> = [(0, 0), (1, 1), (2, 2), (3, 3), (4, 4), (5, 5)].into_iter().collect();
    assert_eq!(map, expected);
}

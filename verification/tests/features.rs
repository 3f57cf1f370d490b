use vision::features::geometry::Point;
use vision::features::Feature;
use vision::image::epipolar::{plan_initial_motions, sets_to_estimate, EssentialDecomposition, MotionTask, MIN_MATCHES};
use vision::image::orb_feature::{rank_by_response, OrbFeature};

#[test]
fn ranks_by_decreasing_response_stably() {
    assert_eq!(rank_by_response(&vec![5, 7, 5, 1]), vec![1, 0, 2, 3]);
    assert_eq!(rank_by_response(&vec![]), Vec::<usize>::new());
    assert_eq!(rank_by_response(&vec![1, 2, 3]), vec![2, 1, 0]);
}

#[test]
fn orb_features_are_ordered_by_response() {
    let locations = vec![Point { x: 1, y: 2 }, Point { x: 3, y: 4 }, Point { x: 5, y: 6 }];
    let orientations = vec![0.5f64.to_bits(), 1.5f64.to_bits(), 2.5f64.to_bits()];
    let responses = vec![10, 30, 20];
    let features = OrbFeature::new(&locations, &orientations, &responses, 2);
    assert_eq!(features.len(), 3);
    assert_eq!(features[0].location, Point { x: 3, y: 4 });
    assert_eq!(f64::from_bits(features[0].orientation_bits), 1.5);
    assert_eq!(features[1].location, Point { x: 5, y: 6 });
    assert_eq!(features[2].location, Point { x: 1, y: 2 });
    for f in &features {
        assert_eq!(f.sigma_level, 2);
    }
}

#[test]
fn negative_octave_index_wraps() {
    let features = OrbFeature::new(&vec![Point { x: 0, y: 0 }], &vec![0], &vec![0], -1);
    assert_eq!(features[0].sigma_level, usize::MAX);
}

#[test]
fn orb_feature_accessors() {
    let f = OrbFeature { location: Point { x: 7, y: 9 }, orientation_bits: 0, sigma_level: 3 };
    assert_eq!(f.get_x_image(), 7);
    assert_eq!(f.get_y_image(), 9);
    assert_eq!(f.get_closest_sigma_level(), 3);
    assert_eq!(f.get_landmark_id(), None);
    let g = f.copy_with_landmark_id(Some(4));
    assert_eq!(g.location, f.location);
    assert_eq!(g.get_landmark_id(), None);
}

#[test]
fn decomposition_methods() {
    let d = EssentialDecomposition::KANATANI;
    let e = d;
    assert!(matches!(e, EssentialDecomposition::KANATANI));
    assert!(!matches!(EssentialDecomposition::FORSNTER, EssentialDecomposition::KANATANI));
}

use vision::image::epipolar::{select_decomposition, sign_balance, Sign};

#[test]
fn sign_balance_counts_positive_minus_negative() {
    assert_eq!(sign_balance(&vec![]), 0);
    assert_eq!(sign_balance(&vec![Sign::Positive, Sign::Negative, Sign::Zero, Sign::Positive]), 1);
    assert_eq!(sign_balance(&vec![Sign::Negative, Sign::Negative, Sign::Zero]), -2);
}

#[test]
fn selects_first_candidate_with_positive_votes() {
    // first candidate: points behind the camera
    let behind = vec![(Sign::Negative, Sign::Positive), (Sign::Negative, Sign::Negative)];
    // second candidate: in front, but the projections disagree
    let disagree = vec![(Sign::Positive, Sign::Negative), (Sign::Positive, Sign::Zero)];
    // third candidate: accepted
    let good = vec![(Sign::Positive, Sign::Positive), (Sign::Positive, Sign::Negative), (Sign::Positive, Sign::Positive)];
    assert_eq!(select_decomposition(&vec![behind.clone(), disagree.clone(), good.clone(), good.clone()]), Some(2));
    assert_eq!(select_decomposition(&vec![behind.clone(), disagree.clone()]), None);
    assert_eq!(select_decomposition(&vec![]), None);
    // a tie in the first balance is not accepted
    let tie = vec![(Sign::Positive, Sign::Positive), (Sign::Negative, Sign::Negative)];
    assert_eq!(select_decomposition(&vec![tie]), None);
}

#[test]
fn only_match_sets_with_enough_matches_are_estimated() {
    assert_eq!(MIN_MATCHES, 8);
    assert_eq!(sets_to_estimate(&vec![10, 3, 8, 7, 0]), vec![0, 2]);
    assert_eq!(sets_to_estimate(&vec![]), Vec::<usize>::new());
}

#[test]
fn initial_motions_start_at_the_root_view() {
    let camera_ids = vec![(0, 1), (2, 3), (0, 4)];
    let tasks = plan_initial_motions(&camera_ids, &vec![9, 5]);
    assert_eq!(tasks, vec![MotionTask { view: 1, essential_index: 0, matches_index: 0, decompose: true }]);
}

#[test]
fn initial_motions_fall_back_below_enough_accepted_matches() {
    let camera_ids = vec![(0, 1), (3, 4), (0, 2)];
    let tasks = plan_initial_motions(&camera_ids, &vec![9, 5, 20]);
    assert_eq!(
        tasks,
        vec![
            MotionTask { view: 1, essential_index: 0, matches_index: 0, decompose: true },
            MotionTask { view: 2, essential_index: 2, matches_index: 1, decompose: false },
        ]
    );
}

#[test]
fn selection_ignores_vote_order_and_uniform_repetition() {
    let behind = vec![(Sign::Negative, Sign::Positive), (Sign::Positive, Sign::Negative), (Sign::Negative, Sign::Zero)];
    let good = vec![(Sign::Positive, Sign::Positive), (Sign::Zero, Sign::Negative), (Sign::Positive, Sign::Positive)];
    let chosen = select_decomposition(&vec![behind.clone(), good.clone()]);
    assert_eq!(chosen, Some(1));
    let mut behind_reordered = behind.clone();
    behind_reordered.reverse();
    let good_twice: Vec<(Sign, Sign)> = good.iter().chain(good.iter()).rev().cloned().collect();
    assert_eq!(select_decomposition(&vec![behind_reordered, good_twice]), chosen);
    let behind_thrice: Vec<(Sign, Sign)> = behind.iter().flat_map(|v| vec![*v, *v, *v]).collect();
    assert_eq!(select_decomposition(&vec![behind_thrice, good.clone()]), chosen);
}

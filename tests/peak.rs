use microdsp::peak::{
    closest_to_double_period, first_at_or_above, interpolation_neighbours,
    largest_key_max_index, pick_key_maxima,
};

#[test]
fn silence_has_no_key_maxima() {
    let nsdf = vec![0_i32; 512];
    let mut lag_indices = vec![0_usize; 64];
    assert_eq!(pick_key_maxima(&nsdf, &mut lag_indices), 0);
}

#[test]
fn single_peak_between_crossings() {
    // The key maximum example: [0, 0, 3, 0] has its key maximum at index 2.
    let nsdf = vec![0, 0, 3, 0];
    let mut lag_indices = vec![0_usize; 8];
    assert_eq!(pick_key_maxima(&nsdf, &mut lag_indices), 1);
    assert_eq!(lag_indices[0], 2);
}

#[test]
fn peaks_are_found_between_crossings_and_at_the_end() {
    let nsdf = vec![10, 5, -1, 2, 7, 7, 3, -4, -2, 1, 6, 9];
    let mut lag_indices = vec![usize::MAX; 8];
    assert_eq!(pick_key_maxima(&nsdf, &mut lag_indices), 2);
    // The first largest of a run wins; at the last sample the scan commits.
    assert_eq!(&lag_indices[..2], &[4, 11]);
    assert_eq!(lag_indices[2], usize::MAX);
}

#[test]
fn key_maxima_beyond_capacity_are_dropped() {
    let nsdf = vec![-1, 1, -1, 2, -1, 3, -1, 4, -1];
    let mut lag_indices = vec![0_usize; 2];
    assert_eq!(pick_key_maxima(&nsdf, &mut lag_indices), 2);
    assert_eq!(lag_indices, vec![1, 3]);
    let mut roomy = vec![0_usize; 10];
    assert_eq!(pick_key_maxima(&nsdf, &mut roomy), 4);
    assert_eq!(&roomy[..4], &[1, 3, 5, 7]);
}

#[test]
fn empty_nsdf_has_no_key_maxima() {
    let mut lag_indices = vec![0_usize; 4];
    assert_eq!(pick_key_maxima(&[], &mut lag_indices), 0);
}

#[test]
fn largest_takes_the_first_of_equals() {
    assert_eq!(largest_key_max_index(&[]), None);
    assert_eq!(largest_key_max_index(&[3, 9, 2, 9]), Some(1));
    assert_eq!(largest_key_max_index(&[-3, -9]), Some(0));
}

#[test]
fn selection_takes_the_first_above_threshold() {
    assert_eq!(first_at_or_above(&[5, 8, 9, 10], 8), Some(1));
    assert_eq!(first_at_or_above(&[5, 7], 8), None);
    assert_eq!(first_at_or_above(&[], 0), None);
}

#[test]
fn double_period_candidate_is_closest_after_selected() {
    let lags = [20, 41, 60, 80, 99];
    let distances = [0, 5, 2, 40, 60];
    assert_eq!(closest_to_double_period(&lags, &distances, 0, 99), Some(2));
    // Equal distances: the first wins.
    assert_eq!(closest_to_double_period(&lags, &[0, 2, 2, 2, 0], 0, 99), Some(1));
    // The key maximum on the last lag ends the candidates.
    assert_eq!(closest_to_double_period(&lags, &distances, 0, 60), Some(1));
    assert_eq!(closest_to_double_period(&lags, &distances, 0, 41), None);
    assert_eq!(closest_to_double_period(&lags, &distances, 4, 1000), None);
    assert_eq!(closest_to_double_period(&lags, &distances, 9, 1000), None);
}

#[test]
fn neighbours_are_clamped() {
    assert_eq!(interpolation_neighbours(2, 4), (1, 3));
    assert_eq!(interpolation_neighbours(0, 4), (0, 1));
    assert_eq!(interpolation_neighbours(3, 4), (2, 3));
    assert_eq!(interpolation_neighbours(0, 1), (0, 0));
}

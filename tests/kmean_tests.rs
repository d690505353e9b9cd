use ditherum::kmean::{find_centroids, find_centroids_from, CentroidsFindError};

fn distance(a: &f32, b: &f32) -> u64 {
    ((a - b).abs() * 1000.0).round() as u64
}

fn mean(arr: &[f32]) -> f32 {
    arr.iter().sum::<f32>() / arr.len() as f32
}

#[test]
fn kmean_test_centroid_float() {
    let input_data: Vec<f32> = vec![1.0, 2.0, 9.0, 7.0, 8.0, 22.0, 24.0, 3.0];
    let centroids_count = 3;
    let distance_measure = |a: &f32, b: &f32| ((a - b).abs() * 1000.0).round() as u64;
    let calculate_mean = |arr: &[f32]| arr.iter().sum::<f32>() / arr.len() as f32;

    let centroids = find_centroids(&input_data, centroids_count, distance_measure, calculate_mean);

    assert!(matches!(centroids, Ok(_)));
    let centroids = centroids.unwrap();
    assert_eq!(centroids.len(), 3);
}

#[test]
fn utils_test_centroid_float() {
    let input_data: Vec<f32> = vec![1.0, 2.0, 9.0, 7.0, 8.0, 22.0, 24.0, 3.0];
    let centroids_count = 3;

    let centroids = find_centroids(&input_data, centroids_count, distance, mean);

    assert!(matches!(centroids, Ok(_)));
    let centroids = centroids.unwrap();
    assert_eq!(centroids.len(), centroids_count);
}

#[test]
fn test_centroid_float_multithreaded() {
    let input_data: Vec<f32> = (-100..100).map(|v| v as f32).collect::<Vec<_>>();
    assert!(input_data.len() > 50);

    let centroids_count = 5;
    let centroids = find_centroids(&input_data, centroids_count, distance, mean);

    assert!(matches!(centroids, Ok(_)));
    let centroids = centroids.unwrap();
    assert_eq!(centroids.len(), centroids_count);
}

#[test]
fn empty_input_is_refused() {
    let input: Vec<f32> = vec![];
    assert_eq!(find_centroids(&input, 1, distance, mean), Err(CentroidsFindError::InputEmpty));
}

#[test]
fn more_centroids_than_items_is_refused() {
    let input = vec![1.0f32, 2.0];
    assert_eq!(
        find_centroids(&input, 3, distance, mean),
        Err(CentroidsFindError::TooManyCentroids { expected: 3, actual: 2 })
    );
}

#[test]
fn as_many_centroids_as_items_returns_the_items() {
    let input = vec![5.0f32, 1.0, 3.0];
    assert_eq!(find_centroids(&input, 3, distance, mean), Ok(vec![5.0, 1.0, 3.0]));
}

#[test]
fn zero_centroids_is_an_empty_result() {
    let input = vec![5.0f32, 1.0];
    assert_eq!(find_centroids(&input, 0, distance, mean), Ok(vec![]));
}

#[test]
fn two_separated_groups_give_their_means() {
    let input = vec![1.0f32, 2.0, 3.0, 101.0, 102.0, 103.0];
    let mut centroids = find_centroids(&input, 2, distance, mean).unwrap();
    centroids.sort_by(|a, b| a.partial_cmp(b).unwrap());
    assert_eq!(centroids, vec![2.0, 102.0]);
}

#[test]
fn from_given_start_converges_to_group_means() {
    let input = vec![1.0f32, 2.0, 3.0, 101.0, 102.0, 103.0];
    let centroids = find_centroids_from(&input, vec![1.0, 103.0], distance, mean).unwrap();
    assert_eq!(centroids, vec![2.0, 102.0]);
}

#[test]
fn a_centroid_with_no_members_stays_where_it_was() {
    let input = vec![1.0f32, 2.0, 3.0];
    let centroids = find_centroids_from(&input, vec![2.0, 500.0], distance, mean).unwrap();
    assert_eq!(centroids, vec![2.0, 500.0]);
}

#[test]
fn ties_go_to_the_first_centroid() {
    let input = vec![5.0f32];
    let centroids = find_centroids_from(&input, vec![0.0, 10.0], distance, mean).unwrap();
    assert_eq!(centroids, vec![5.0, 10.0]);
}

#[test]
fn a_run_that_never_settles_fails_with_too_many_iterations() {
    let input = vec![0i64, 1000];
    let far = |a: &i64, b: &i64| (a - b).unsigned_abs();
    let calls = std::cell::Cell::new(0i64);
    let shifting_mean = |arr: &[i64]| {
        calls.set(calls.get() + 1);
        arr.iter().sum::<i64>() / arr.len() as i64 + 1000 * calls.get()
    };
    assert_eq!(
        find_centroids_from(&input, vec![0], far, shifting_mean),
        Err(CentroidsFindError::TooManyIterations)
    );
}

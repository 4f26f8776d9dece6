use hsnw::distance::total_order_rank;
use hsnw::error::BuildError;
use hsnw::{has_full_rows, Hsnw, HsnwBuildError};

/// The rank of a distance.
fn rank(distance: f32) -> i32 {
    total_order_rank(distance.to_bits())
}

fn dot(a: &[f32], b: &[f32]) -> f32 {
    a.iter().zip(b.iter()).map(|(a, b)| a * b).sum()
}

/// Data points from vectors: each gets the row of its distances to all.
fn points_from_vectors<T: Clone>(vectors: &[(Vec<f32>, T)]) -> Vec<(Vec<i32>, T)> {
    vectors
        .iter()
        .map(|(vector, payload)| {
            let row = vectors.iter().map(|(other, _)| rank(dot(vector, other))).collect();
            (row, payload.clone())
        })
        .collect()
}

/// Data points whose payload is their position, from a table of distances.
fn points_from_table(table: &[Vec<i32>]) -> Vec<(Vec<i32>, u64)> {
    table.iter().enumerate().map(|(position, row)| (row.clone(), position as u64)).collect()
}

fn failure<K, T, const L0: usize, const L1: usize, const L2: usize, const L3: usize>(
    built: Result<Hsnw<K, T, L0, L1, L2, L3>, BuildError>,
) -> (usize, &'static str, usize) {
    match built {
        Ok(_) => panic!("the build succeeded"),
        Err(HsnwBuildError::NotEnoughDataPoints { expected, cause, found }) => (expected, cause, found),
    }
}

fn all(index: &Hsnw<u64, u64, 3, 1, 1, 1>, key: u64) -> Vec<u64> {
    index
        .closest_neighbors_from_key(&key, 3, None::<fn(&u64) -> bool>)
        .unwrap()
        .into_iter()
        .copied()
        .collect()
}

fn six_points() -> Vec<(Vec<i32>, u64)> {
    points_from_table(&[
        vec![0, 9, 4, 4, 1, 7],
        vec![5, 0, 5, 5, 5, 5],
        vec![6, 5, 0, 3, 2, 1],
        vec![-1, -2, -3, 0, -4, -5],
        vec![8, 7, 6, 5, 0, 4],
        vec![1, 1, 2, 2, 3, 0],
    ])
}

#[test]
fn rank_orders_as_the_total_order_does() {
    let values = [f32::NEG_INFINITY, -2.5, -0.0, 0.0, f32::MIN_POSITIVE, 1.0, f32::INFINITY, f32::NAN];
    for pair in values.windows(2) {
        assert!(rank(pair[0]) < rank(pair[1]));
        assert_eq!(pair[0].total_cmp(&pair[1]), std::cmp::Ordering::Less);
    }
}

#[test]
fn rank_of_given_bits() {
    assert_eq!(total_order_rank(0), 0);
    assert_eq!(total_order_rank(0x8000_0000), -1);
    assert_eq!(total_order_rank(0x7fff_ffff), i32::MAX);
    assert_eq!(total_order_rank(0xffff_ffff), i32::MIN);
    assert_eq!(total_order_rank(1.0f32.to_bits()), 0x3f80_0000);
    assert_eq!(total_order_rank((-1.0f32).to_bits()), -0x3f80_0001);
}

#[test]
fn rank_agrees_with_the_total_order_on_all_pairs() {
    let values = [
        f32::NAN,
        -f32::NAN,
        f32::INFINITY,
        f32::NEG_INFINITY,
        f32::MAX,
        f32::MIN,
        f32::MIN_POSITIVE,
        -f32::MIN_POSITIVE,
        f32::EPSILON,
        1.0e-45,
        -1.0e-45,
        0.0,
        -0.0,
        1.0,
        -1.0,
        25.0,
        -317.5,
    ];
    for a in values {
        for b in values {
            assert_eq!(rank(a).cmp(&rank(b)), a.total_cmp(&b));
        }
    }
}

#[test]
fn message_of_a_build_error() {
    let error = BuildError::not_enough_data_points(4, "L0", 3);
    assert_eq!(error.message(), "Expected at least 4 data points to build L0, found 3");
    let error = BuildError::not_enough_data_points(1, "entry point", 0);
    assert_eq!(error.message(), "Expected at least 1 data points to build entry point, found 0");
    let error = BuildError::not_enough_data_points(1234567890, "L3", 907);
    assert_eq!(error.message(), "Expected at least 1234567890 data points to build L3, found 907");
    let points = points_from_table(&[vec![0, 1], vec![1, 0]]);
    match Hsnw::<u64, u64, 1, 10, 1, 1>::new(&points, |payload: &u64| *payload) {
        Ok(_) => panic!("the build succeeded"),
        Err(error) => assert_eq!(error.message(), "Expected at least 11 data points to build L1, found 2"),
    }
}

#[test]
fn rows_that_miss_a_distance() {
    assert!(has_full_rows(&points_from_table(&[vec![0, 1], vec![1, 0]])));
    assert!(!has_full_rows(&points_from_table(&[vec![0, 1], vec![1]])));
    assert!(!has_full_rows(&points_from_table(&[vec![0, 1, 2], vec![1, 0]])));
    assert!(has_full_rows(&points_from_table(&[])));
}

#[test]
fn three_points_in_the_plane() {
    let points = points_from_vectors(&[
        (vec![0.0, 0.0], "a"),
        (vec![1.0, 0.0], "b"),
        (vec![5.0, 5.0], "c"),
    ]);
    let index = Hsnw::<String, &str, 1, 1, 1, 1>::new(&points, |name: &&str| name.to_string()).unwrap();
    let found = index.closest_neighbors_from_key(&String::from("a"), 1, None::<fn(&&str) -> bool>).unwrap();
    assert_eq!(found, vec![&"b"]);
    /* From "b" the products are 0 with "a" and 5 with "c" */
    let found = index.closest_neighbors_from_key(&String::from("b"), 1, None::<fn(&&str) -> bool>).unwrap();
    assert_eq!(found, vec![&"a"]);
    /* From "c" they are 0 with "a" and 5 with "b" */
    let found = index.closest_neighbors_from_key(&String::from("c"), 1, None::<fn(&&str) -> bool>).unwrap();
    assert_eq!(found, vec![&"a"]);
    assert!(index.closest_neighbors_from_key(&String::from("d"), 1, None::<fn(&&str) -> bool>).is_none());
}

#[test]
fn negative_products_come_first() {
    let points = points_from_vectors(&[
        (vec![1.0, 0.0], 0u64),
        (vec![-1.0, 0.0], 1),
        (vec![2.0, 0.0], 2),
        (vec![0.0, 1.0], 3),
        (vec![-0.5, -3.0], 4),
    ]);
    let index = Hsnw::<u64, u64, 3, 1, 1, 1>::new(&points, |payload: &u64| *payload).unwrap();
    /* From (1, 0) the products are -1, 2, 0 and -0.5 */
    assert_eq!(all(&index, 0), vec![1, 4, 3]);
    /* From (0, 1) they are 0, 0, 0 and -3: the equal ones stay in positional order */
    assert_eq!(all(&index, 3), vec![4, 0, 1]);
}

#[test]
fn no_point_at_all() {
    let points: Vec<(Vec<i32>, u64)> = Vec::new();
    let built = Hsnw::<u64, u64, 2, 3, 4, 5>::new(&points, |payload: &u64| *payload);
    assert_eq!(failure(built), (1, "entry point", 0));
}

#[test]
fn too_few_points_for_the_base_tier() {
    for n in 1..=3usize {
        let table: Vec<Vec<i32>> = (0..n).map(|_| vec![0; n]).collect();
        let built = Hsnw::<u64, u64, 3, 0, 0, 0>::new(&points_from_table(&table), |payload: &u64| *payload);
        assert_eq!(failure(built), (4, "L0", n));
    }
}

#[test]
fn too_few_points_for_a_higher_tier() {
    let table: Vec<Vec<i32>> = (0..3).map(|_| vec![0; 3]).collect();
    let points = points_from_table(&table);
    let built = Hsnw::<u64, u64, 1, 3, 0, 0>::new(&points, |payload: &u64| *payload);
    assert_eq!(failure(built), (4, "L1", 3));
    let built = Hsnw::<u64, u64, 1, 2, 5, 9>::new(&points, |payload: &u64| *payload);
    assert_eq!(failure(built), (6, "L2", 3));
    let built = Hsnw::<u64, u64, 1, 2, 2, 7>::new(&points, |payload: &u64| *payload);
    assert_eq!(failure(built), (8, "L3", 3));
    /* The base tier is named first when several tiers are short */
    let built = Hsnw::<u64, u64, 4, 9, 9, 9>::new(&points, |payload: &u64| *payload);
    assert_eq!(failure(built), (5, "L0", 3));
    assert!(Hsnw::<u64, u64, 2, 2, 2, 2>::new(&points, |payload: &u64| *payload).is_ok());
}

#[test]
fn one_point_more_than_the_list_holds() {
    let points = points_from_table(&[
        vec![0, 30, 10, 20],
        vec![7, 0, 7, 7],
        vec![3, 2, 0, 1],
        vec![-5, 4, -6, 0],
    ]);
    let index = Hsnw::<u64, u64, 3, 1, 1, 1>::new(&points, |payload: &u64| *payload).unwrap();
    assert_eq!(all(&index, 0), vec![2, 3, 1]);
    assert_eq!(all(&index, 1), vec![0, 2, 3]);
    assert_eq!(all(&index, 2), vec![3, 1, 0]);
    assert_eq!(all(&index, 3), vec![2, 0, 1]);
}

#[test]
fn nearest_three_of_six() {
    let index = Hsnw::<u64, u64, 3, 1, 1, 1>::new(&six_points(), |payload: &u64| *payload).unwrap();
    assert_eq!(all(&index, 0), vec![4, 2, 3]);
    assert_eq!(all(&index, 1), vec![0, 2, 3]);
    assert_eq!(all(&index, 2), vec![5, 4, 3]);
    assert_eq!(all(&index, 3), vec![5, 4, 2]);
    assert_eq!(all(&index, 4), vec![5, 3, 2]);
    assert_eq!(all(&index, 5), vec![0, 1, 2]);
}

#[test]
fn lists_are_full_sorted_and_without_self_or_repeats() {
    let points = six_points();
    let index = Hsnw::<u64, u64, 3, 1, 1, 1>::new(&points, |payload: &u64| *payload).unwrap();
    for owner in 0..6u64 {
        let list = all(&index, owner);
        assert_eq!(list.len(), 3);
        assert!(!list.contains(&owner));
        let row = &points[owner as usize].0;
        for pair in list.windows(2) {
            assert_ne!(pair[0], pair[1]);
            assert!(row[pair[0] as usize] <= row[pair[1] as usize]);
        }
        for other in 0..6u64 {
            if other != owner && !list.contains(&other) {
                assert!(list.iter().all(|kept| row[*kept as usize] <= row[other as usize]));
            }
        }
    }
}

#[test]
fn absent_key_finds_nothing() {
    let index = Hsnw::<u64, u64, 3, 1, 1, 1>::new(&six_points(), |payload: &u64| *payload + 100).unwrap();
    assert!(index.closest_neighbors_from_key(&0, 3, None::<fn(&u64) -> bool>).is_none());
    assert!(index.closest_neighbors_from_key(&106, 3, None::<fn(&u64) -> bool>).is_none());
    assert!(index.closest_neighbors_from_key(&105, 3, None::<fn(&u64) -> bool>).is_some());
}

#[test]
fn no_result_asked_for() {
    let index = Hsnw::<u64, u64, 3, 1, 1, 1>::new(&six_points(), |payload: &u64| *payload).unwrap();
    let found = index.closest_neighbors_from_key(&2, 0, None::<fn(&u64) -> bool>);
    assert_eq!(found, Some(Vec::new()));
}

#[test]
fn filter_that_rejects_everything() {
    let index = Hsnw::<u64, u64, 3, 1, 1, 1>::new(&six_points(), |payload: &u64| *payload).unwrap();
    let found = index.closest_neighbors_from_key(&2, 3, Some(|_: &u64| false));
    assert_eq!(found, Some(Vec::new()));
}

#[test]
fn never_more_than_asked_for() {
    let index = Hsnw::<u64, u64, 3, 1, 1, 1>::new(&six_points(), |payload: &u64| *payload).unwrap();
    let found = index.closest_neighbors_from_key(&2, 2, None::<fn(&u64) -> bool>).unwrap();
    assert_eq!(found, vec![&5, &4]);
    let found = index.closest_neighbors_from_key(&2, 1, Some(|payload: &u64| *payload != 5)).unwrap();
    assert_eq!(found, vec![&4]);
    let found = index.closest_neighbors_from_key(&2, 10, None::<fn(&u64) -> bool>).unwrap();
    assert_eq!(found, vec![&5, &4, &3]);
}

#[test]
fn filter_keeps_the_order_and_does_not_look_further() {
    let index = Hsnw::<u64, u64, 3, 1, 1, 1>::new(&six_points(), |payload: &u64| *payload).unwrap();
    let found = index.closest_neighbors_from_key(&0, 3, Some(|payload: &u64| *payload != 2)).unwrap();
    assert_eq!(found, vec![&4, &3]);
    /* Position 1 is no neighbor of position 0, so the filter never sees it */
    let found = index.closest_neighbors_from_key(&0, 3, Some(|payload: &u64| *payload == 1)).unwrap();
    assert!(found.is_empty());
}

#[test]
fn equal_distances_keep_positional_order() {
    let table: Vec<Vec<i32>> = (0..5).map(|_| vec![7; 5]).collect();
    let index = Hsnw::<u64, u64, 2, 1, 1, 1>::new(&points_from_table(&table), |payload: &u64| *payload).unwrap();
    let list = |key: u64| -> Vec<u64> {
        index
            .closest_neighbors_from_key(&key, 2, None::<fn(&u64) -> bool>)
            .unwrap()
            .into_iter()
            .copied()
            .collect()
    };
    assert_eq!(list(0), vec![1, 2]);
    assert_eq!(list(1), vec![0, 2]);
    assert_eq!(list(2), vec![0, 1]);
    assert_eq!(list(4), vec![0, 1]);
}

#[test]
fn later_point_takes_a_repeated_key() {
    let points = points_from_table(&[vec![0, 1, 2], vec![1, 0, 2], vec![2, 1, 0]]);
    let index = Hsnw::<u64, u64, 1, 1, 1, 1>::new(&points, |payload: &u64| if *payload == 2 { 0 } else { *payload })
        .unwrap();
    /* Key 0 leads to position 2, whose nearest is position 1 */
    let found = index.closest_neighbors_from_key(&0, 1, None::<fn(&u64) -> bool>).unwrap();
    assert_eq!(found, vec![&1]);
    let found = index.closest_neighbors_from_key(&1, 1, None::<fn(&u64) -> bool>).unwrap();
    assert_eq!(found, vec![&0]);
    assert!(index.closest_neighbors_from_key(&2, 1, None::<fn(&u64) -> bool>).is_none());
}

#[test]
fn empty_lists() {
    let points = points_from_table(&[vec![0]]);
    let index = Hsnw::<u64, u64, 0, 0, 0, 0>::new(&points, |payload: &u64| *payload).unwrap();
    let found = index.closest_neighbors_from_key(&0, 5, None::<fn(&u64) -> bool>);
    assert_eq!(found, Some(Vec::new()));
}

#[test]
fn payloads_are_copies_of_the_input() {
    let points = vec![
        (vec![0, 1], String::from("first")),
        (vec![1, 0], String::from("second")),
    ];
    let index = Hsnw::<u64, String, 1, 0, 0, 0>::new(&points, |payload: &String| payload.len() as u64).unwrap();
    let found = index.closest_neighbors_from_key(&5, 1, None::<fn(&String) -> bool>).unwrap();
    assert_eq!(found, vec![&String::from("second")]);
}

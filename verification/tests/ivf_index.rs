use lib::dataset::Dataset;
use lib::ivf::{
    assign_rows, centroid_seeds, check_config, nearest_centroid, refine, same_lists, seeded_order,
    train_round, IvfFlatConfig, IvfFlatIndex, UNREACHED,
};
use lib::order::Neighbor;
use lib::types::{Metric, VectorError};

fn points() -> Vec<i64> {
    vec![0, 1, 2, 10, 11, 12]
}

fn dataset() -> Dataset<i64> {
    match Dataset::try_new(points().into_iter().map(|x| vec![x]).collect()) {
        Ok(ds) => ds,
        Err(e) => panic!("unexpected error {:?}", e),
    }
}

fn keys_to(centroids: &[i64]) -> Vec<Vec<u32>> {
    points()
        .iter()
        .map(|a| centroids.iter().map(|c| (a - c).unsigned_abs() as u32).collect())
        .collect()
}

#[test]
fn ivf_default_config_values() {
    let c = IvfFlatConfig::default();
    assert_eq!((c.partitions, c.probes, c.iterations, c.seed), (16, 4, 12, 0x5eed));
}

#[test]
fn ivf_config_errors_in_order() {
    let msg = |s: &'static str| Err(VectorError::InvalidConfig(s));
    let c = IvfFlatConfig { partitions: 7, probes: 1, iterations: 1, seed: 1 };
    assert_eq!(
        check_config(&c, 6),
        msg("partitions must be greater than 0 and less than or equal to dataset length")
    );
    let c = IvfFlatConfig { partitions: 0, probes: 1, iterations: 1, seed: 1 };
    assert_eq!(
        check_config(&c, 6),
        msg("partitions must be greater than 0 and less than or equal to dataset length")
    );
    let c = IvfFlatConfig { partitions: 2, probes: 3, iterations: 1, seed: 1 };
    assert_eq!(
        check_config(&c, 6),
        msg("probes must be greater than 0 and less than or equal to partitions")
    );
    let c = IvfFlatConfig { partitions: 2, probes: 2, iterations: 0, seed: 1 };
    assert_eq!(check_config(&c, 6), msg("iterations must be greater than 0"));
    let c = IvfFlatConfig { partitions: 2, probes: 2, iterations: 1, seed: 0 };
    assert_eq!(check_config(&c, 6), msg("seed must be greater than 0"));
    let c = IvfFlatConfig { partitions: 6, probes: 6, iterations: 1, seed: 1 };
    assert_eq!(check_config(&c, 6), Ok(()));
}

#[test]
fn seeded_order_is_a_seeded_permutation() {
    assert_eq!(seeded_order(6, 3), vec![5, 0, 2, 4, 1, 3]);
    assert_eq!(seeded_order(4, 1), vec![2, 0, 3, 1]);
    assert_eq!(seeded_order(1, 9), vec![0]);
    assert!(seeded_order(0, 9).is_empty());
    let mut v = seeded_order(100, 0x5eed);
    v.sort();
    assert_eq!(v, (0..100).collect::<Vec<_>>());
}

#[test]
fn centroid_seeds_take_the_first_shuffled_rows() {
    let c = IvfFlatConfig { partitions: 2, probes: 1, iterations: 5, seed: 3 };
    assert_eq!(centroid_seeds(6, &c), vec![5, 0]);
}

#[test]
fn nearest_centroid_takes_first_smallest_key() {
    assert_eq!(nearest_centroid(&vec![4, 2, 2, 3]), 1);
    assert_eq!(nearest_centroid(&vec![7]), 0);
    assert_eq!(nearest_centroid(&vec![UNREACHED, u32::MAX, 5]), 2);
    assert_eq!(nearest_centroid(&vec![u32::MAX, UNREACHED]), 0);
}

#[test]
fn rows_split_by_nearest_centroid() {
    let lists = assign_rows(&keys_to(&[12, 0]), 2);
    assert_eq!(lists, vec![vec![3, 4, 5], vec![0, 1, 2]]);
    let ties = assign_rows(&vec![vec![3, 3], vec![1, 0], vec![2, 2]], 3);
    assert_eq!(ties, vec![vec![0, 2], vec![1], vec![]]);
}

#[test]
fn refine_stops_when_assignment_repeats() {
    let first = match refine(&vec![vec![], vec![]], &keys_to(&[12, 0]), 2) {
        Some(l) => l,
        None => panic!("the first round changes the lists"),
    };
    assert_eq!(first, vec![vec![3, 4, 5], vec![0, 1, 2]]);
    assert!(refine(&first, &keys_to(&[11, 1]), 2).is_none());
    assert!(same_lists(&first, &vec![vec![3, 4, 5], vec![0, 1, 2]]));
    assert!(!same_lists(&first, &vec![vec![3, 4, 5], vec![0, 1]]));
    assert!(!same_lists(&first, &vec![vec![3, 4, 5]]));
}

fn index(probes: usize) -> IvfFlatIndex<i64> {
    let config = IvfFlatConfig { partitions: 2, probes, iterations: 5, seed: 3 };
    IvfFlatIndex::from_parts(
        dataset(),
        Metric::Euclidean,
        config,
        vec![vec![11], vec![1]],
        vec![vec![3, 4, 5], vec![0, 1, 2]],
    )
}

#[test]
fn search_scans_nearest_lists() {
    let ix = index(1);
    assert_eq!(ix.list_sizes(), vec![3, 3]);
    assert_eq!(ix.centroids().to_vec(), vec![vec![11], vec![1]]);
    assert_eq!(ix.kind(), "ivf_flat");
    // query at 2
    let cd = vec![9, 1];
    let rd = vec![2, 1, 0, 8, 9, 10];
    assert_eq!(
        ix.search_with_probes(&cd, &rd, 2, 1).unwrap(),
        vec![Neighbor { row: 2, distance: 0 }, Neighbor { row: 1, distance: 1 }]
    );
    assert_eq!(ix.search(&cd, &rd, 10).unwrap().len(), 3);
}

#[test]
fn search_scans_as_many_lists_as_probes_asks() {
    let ix = index(2);
    let cd = vec![9, 1];
    let rd = vec![2, 1, 0, 8, 9, 10];
    // one probe: only the list of centroid 1 (rows 0, 1, 2) is scanned
    assert_eq!(
        ix.search_with_probes(&cd, &rd, 10, 1).unwrap(),
        vec![
            Neighbor { row: 2, distance: 0 },
            Neighbor { row: 1, distance: 1 },
            Neighbor { row: 0, distance: 2 }
        ]
    );
    // a query nearer centroid 0 scans rows 3, 4, 5 instead
    let cd = vec![1, 9];
    let rd = vec![10, 9, 8, 0, 1, 2];
    let r = ix.search_with_probes(&cd, &rd, 2, 1).unwrap();
    assert_eq!(r, vec![Neighbor { row: 3, distance: 0 }, Neighbor { row: 4, distance: 1 }]);
    // the configured value fails the check
    assert_eq!(
        ix.search(&cd, &rd, 3),
        Err(VectorError::InvalidConfig("probes must be greater than 0 and less than partitions"))
    );
}

#[test]
fn every_row_sits_in_exactly_one_list() {
    let lists = assign_rows(&keys_to(&[12, 0]), 2);
    let mut seen = vec![0; 6];
    for l in &lists {
        for &r in l {
            seen[r] += 1;
        }
    }
    assert_eq!(seen, vec![1; 6]);
}

#[test]
fn search_rejects_bad_probes() {
    let ix = index(1);
    let cd = vec![9, 1];
    let rd = vec![2, 1, 0, 8, 9, 10];
    let err = Err(VectorError::InvalidConfig("probes must be greater than 0 and less than partitions"));
    assert_eq!(ix.search_with_probes(&cd, &rd, 2, 0), err);
    assert_eq!(ix.search_with_probes(&cd, &rd, 2, 2), err);
}

#[test]
fn ivf_clone_keeps_lists_and_centroids() {
    let ix = index(1);
    let copy = ix.clone();
    assert_eq!(copy.list_sizes(), ix.list_sizes());
    assert_eq!(copy.centroids().to_vec(), ix.centroids().to_vec());
    let cd = vec![9, 1];
    let rd = vec![2, 1, 0, 8, 9, 10];
    assert_eq!(copy.search(&cd, &rd, 3).unwrap(), ix.search(&cd, &rd, 3).unwrap());
}

fn three_lists() -> IvfFlatIndex<i64> {
    let points: Vec<i64> = vec![0, 1, 2, 10, 11, 12, 20, 21];
    let ds = match Dataset::try_new(points.iter().map(|&x| vec![x]).collect()) {
        Ok(ds) => ds,
        Err(e) => panic!("unexpected error {:?}", e),
    };
    let config = IvfFlatConfig { partitions: 3, probes: 1, iterations: 5, seed: 3 };
    IvfFlatIndex::from_parts(
        ds,
        Metric::Euclidean,
        config,
        vec![vec![1], vec![11], vec![21]],
        vec![vec![0, 1, 2], vec![3, 4, 5], vec![6, 7]],
    )
}

#[test]
fn more_probes_never_give_worse_rows() {
    let ix = three_lists();
    let points: Vec<i64> = vec![0, 1, 2, 10, 11, 12, 20, 21];
    for q in [-4i64, 3, 6, 9, 16, 25] {
        let cd: Vec<u32> = [1i64, 11, 21].iter().map(|c| (c - q).unsigned_abs() as u32).collect();
        let rd: Vec<u32> = points.iter().map(|p| (p - q).unsigned_abs() as u32).collect();
        for k in [1, 2, 4, 8] {
            let one = ix.search_with_probes(&cd, &rd, k, 1).unwrap();
            let two = ix.search_with_probes(&cd, &rd, k, 2).unwrap();
            assert!(two.len() >= one.len());
            for i in 0..one.len() {
                assert!(two[i].distance <= one[i].distance);
            }
            let mut rows: Vec<usize> = two.iter().map(|n| n.row).collect();
            rows.sort();
            rows.dedup();
            assert_eq!(rows.len(), two.len());
        }
    }
    // a query at 9 with one probe scans rows 3, 4, 5; with two, rows 0, 1, 2 as well
    let cd = vec![8, 2, 12];
    let rd: Vec<u32> = points.iter().map(|p| (p - 9).unsigned_abs() as u32).collect();
    assert_eq!(
        ix.search_with_probes(&cd, &rd, 4, 1).unwrap(),
        vec![
            Neighbor { row: 3, distance: 1 },
            Neighbor { row: 4, distance: 2 },
            Neighbor { row: 5, distance: 3 }
        ]
    );
    assert_eq!(
        ix.search_with_probes(&cd, &rd, 4, 2).unwrap(),
        vec![
            Neighbor { row: 3, distance: 1 },
            Neighbor { row: 4, distance: 2 },
            Neighbor { row: 5, distance: 3 },
            Neighbor { row: 2, distance: 7 }
        ]
    );
}

#[test]
fn training_stops_when_the_budget_is_spent_or_the_lists_repeat() {
    let empty: Vec<Vec<usize>> = vec![vec![], vec![]];
    assert!(train_round(&empty, &keys_to(&[12, 0]), 2, 3, 3).is_none());
    let first = train_round(&empty, &keys_to(&[12, 0]), 2, 0, 3).unwrap();
    assert_eq!(first, vec![vec![3, 4, 5], vec![0, 1, 2]]);
    assert!(train_round(&first, &keys_to(&[11, 1]), 2, 1, 3).is_none());
}

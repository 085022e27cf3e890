use lib::dataset::Dataset;
use lib::hnsw::{sample_level, validate_config, HnswConfig, HnswIndex};
use lib::order::Neighbor;
use lib::rng::DeterministicRng;
use lib::types::{Metric, VectorError};

fn points() -> Vec<i64> {
    vec![0, 1, 3, 6]
}

fn dataset() -> Dataset<i64> {
    match Dataset::try_new(points().into_iter().map(|x| vec![x]).collect()) {
        Ok(ds) => ds,
        Err(e) => panic!("unexpected error {:?}", e),
    }
}

fn table() -> Vec<Vec<u32>> {
    let p = points();
    p.iter().map(|a| p.iter().map(|b| (a - b).unsigned_abs() as u32).collect()).collect()
}

fn config(seed: u64) -> HnswConfig {
    HnswConfig { max_connections: 2, ef_construction: 2, ef_search: 1, max_level: 16, seed }
}

fn build(seed: u64) -> HnswIndex<i64> {
    match HnswIndex::try_new(dataset(), Metric::Euclidean, config(seed), &table()) {
        Ok(ix) => ix,
        Err(e) => panic!("unexpected error {:?}", e),
    }
}

#[test]
fn hnsw_default_config_values() {
    let c = HnswConfig::default();
    assert_eq!(
        (c.max_connections, c.ef_construction, c.ef_search, c.max_level, c.seed),
        (12, 64, 40, 16, 0x5eed)
    );
    assert_eq!(validate_config(&c), Ok(()));
}

#[test]
fn hnsw_config_errors_in_order() {
    let mut c = HnswConfig { max_connections: 0, ef_construction: 0, ef_search: 0, max_level: 0, seed: 1 };
    assert_eq!(
        validate_config(&c),
        Err(VectorError::InvalidConfig("HNSW max_connections must be greater than zero"))
    );
    c.max_connections = 1;
    assert_eq!(
        validate_config(&c),
        Err(VectorError::InvalidConfig("HNSW ef_construction must be greater than zero"))
    );
    c.ef_construction = 1;
    assert_eq!(
        validate_config(&c),
        Err(VectorError::InvalidConfig("HNSW ef_search must be greater than zero"))
    );
    c.ef_search = 1;
    assert_eq!(
        validate_config(&c),
        Err(VectorError::InvalidConfig("HNSW max_level must be greater than zero"))
    );
    c.max_level = 1;
    assert_eq!(validate_config(&c), Ok(()));
    let r = HnswIndex::try_new(dataset(), Metric::Euclidean, HnswConfig { max_level: 0, ..config(1) }, &table());
    assert!(matches!(
        r,
        Err(VectorError::InvalidConfig("HNSW max_level must be greater than zero"))
    ));
}

#[test]
fn sample_level_counts_heads_until_tail_or_cap() {
    for seed in 0..50u64 {
        let mut rng = DeterministicRng::new(seed);
        let mut coins = DeterministicRng::new(seed);
        let level = sample_level(&mut rng, 3);
        let mut expected = 0;
        while expected < 3 {
            if coins.next_u64() & 1 == 1 {
                expected += 1;
            } else {
                break;
            }
        }
        assert_eq!(level, expected);
        assert_eq!(rng.next_u64(), coins.next_u64());
    }
    let mut rng = DeterministicRng::new(5);
    assert_eq!(sample_level(&mut rng, 0), 0);
    assert_eq!(rng.next_u64(), DeterministicRng::new(5).next_u64());
}

#[test]
fn levels_follow_the_seed() {
    assert_eq!(build(9).levels().to_vec(), vec![0, 0, 0, 0]);
    assert_eq!(build(26).levels().to_vec(), vec![0, 1, 0, 0]);
    assert_eq!(build(1).levels().to_vec(), vec![2, 2, 2, 0]);
}

#[test]
fn all_rows_on_level_zero_give_one_layer() {
    let ix = build(9);
    assert_eq!(ix.top_level(), 0);
    let expected: Vec<Vec<usize>> = vec![vec![1, 2], vec![0, 2, 3], vec![1, 0, 3], vec![2, 1]];
    assert_eq!(ix.layer(0).unwrap().to_vec(), expected);
    assert!(ix.layer(1).is_none());
    assert_eq!(ix.kind(), "hnsw");
    assert_eq!(ix.metric(), Metric::Euclidean);
    assert_eq!(ix.dataset().dimension(), 1);
}

fn full_layer() -> Vec<Vec<usize>> {
    vec![vec![1, 2], vec![0, 2, 3], vec![1, 0, 3], vec![2, 1]]
}

#[test]
fn row_raising_the_top_level_is_linked_in_layer_zero() {
    let ix = build(26);
    assert_eq!(ix.top_level(), 1);
    assert_eq!(ix.layer(0).unwrap().to_vec(), full_layer());
    // row 1 is the only row of level 1, so layer 1 has no edges
    let upper = ix.layer(1).unwrap();
    assert_eq!(upper.len(), 4);
    assert!(upper.iter().all(|l| l.is_empty()));
    assert!(ix.layer(2).is_none());
}

#[test]
fn upper_layers_link_the_rows_of_their_level() {
    let ix = build(1);
    assert_eq!(ix.top_level(), 2);
    assert_eq!(ix.layer(0).unwrap().to_vec(), full_layer());
    let expected: Vec<Vec<usize>> = vec![vec![1, 2], vec![0, 2], vec![1, 0], vec![]];
    for level in 1..=2 {
        let layer = ix.layer(level).unwrap();
        assert_eq!(layer.to_vec(), expected);
        for (u, list) in layer.iter().enumerate() {
            if ix.levels()[u] < level {
                assert!(list.is_empty());
            }
            for &v in list {
                assert!(ix.levels()[v] >= level);
                assert!(layer[v].contains(&u));
            }
        }
    }
    let levels = ix.levels();
    assert!(levels.iter().all(|&l| l <= ix.top_level()));
}

#[test]
fn search_descends_from_entry_point() {
    let dist = vec![5, 4, 2, 1];
    let expected = vec![Neighbor { row: 3, distance: 1 }, Neighbor { row: 2, distance: 2 }];
    for seed in [9, 26, 1] {
        let ix = build(seed);
        assert_eq!(ix.search_with_ef(&dist, 2, 1).unwrap(), expected);
        assert_eq!(ix.search(&dist, 2).unwrap(), expected);
    }
    // a query at 0 from the top of seed 1's layers
    let ix = build(1);
    assert_eq!(
        ix.search(&vec![0, 1, 3, 6], 3).unwrap(),
        vec![
            Neighbor { row: 0, distance: 0 },
            Neighbor { row: 1, distance: 1 },
            Neighbor { row: 2, distance: 3 }
        ]
    );
}

#[test]
fn hnsw_clone_keeps_levels_and_layers() {
    let ix = build(1);
    let copy = ix.clone();
    assert_eq!(copy.levels().to_vec(), ix.levels().to_vec());
    assert_eq!(copy.top_level(), ix.top_level());
    for level in 0..=ix.top_level() {
        assert_eq!(copy.layer(level).unwrap().to_vec(), ix.layer(level).unwrap().to_vec());
    }
    let dist = vec![5, 4, 2, 1];
    assert_eq!(copy.search(&dist, 2).unwrap(), ix.search(&dist, 2).unwrap());
}

fn line_points() -> Vec<i64> {
    vec![13, 2, 29, 7, 21, 0, 17, 9, 25, 4, 11, 30, 6, 19, 1]
}

fn build_line(seed: u64) -> HnswIndex<i64> {
    let p = line_points();
    let ds = match Dataset::try_new(p.iter().map(|&x| vec![x]).collect()) {
        Ok(ds) => ds,
        Err(e) => panic!("unexpected error {:?}", e),
    };
    let table: Vec<Vec<u32>> =
        p.iter().map(|a| p.iter().map(|b| (a - b).unsigned_abs() as u32).collect()).collect();
    let config = HnswConfig { max_connections: 2, ef_construction: 2, ef_search: 1, max_level: 4, seed };
    match HnswIndex::try_new(ds, Metric::Euclidean, config, &table) {
        Ok(ix) => ix,
        Err(e) => panic!("unexpected error {:?}", e),
    }
}

#[test]
fn layer_zero_links_each_row_both_ways_with_an_earlier_row() {
    for seed in [1, 2, 3, 9, 26, 77] {
        let ix = build_line(seed);
        let layer = ix.layer(0).unwrap();
        for u in 1..layer.len() {
            assert!(layer[u].iter().any(|&p| p < u && layer[p].contains(&u)));
        }
    }
}

#[test]
fn search_with_ef_at_least_the_row_count_is_exact() {
    let p = line_points();
    for seed in [1, 2, 3, 9, 26, 77] {
        let ix = build_line(seed);
        for q in [-3i64, 0, 5, 12, 18, 26, 40] {
            let dist: Vec<u32> = p.iter().map(|x| (x - q).unsigned_abs() as u32).collect();
            let mut all: Vec<Neighbor> =
                dist.iter().enumerate().map(|(row, &distance)| Neighbor { row, distance }).collect();
            all.sort_by_key(|n| (n.distance, n.row));
            for k in [1, 3, 15] {
                let found = ix.search_with_ef(&dist, k, p.len()).unwrap();
                assert_eq!(found, all[..k].to_vec());
            }
        }
    }
}

#[test]
fn upper_layer_rows_after_the_first_are_linked_with_an_earlier_one() {
    for seed in [1, 2, 3, 9, 26, 77] {
        let ix = build_line(seed);
        let levels = ix.levels();
        for level in 1..=ix.top_level() {
            let layer = ix.layer(level).unwrap();
            let members: Vec<usize> = (0..levels.len()).filter(|&u| levels[u] >= level).collect();
            for (i, &u) in members.iter().enumerate() {
                if i > 0 {
                    assert!(layer[u].iter().any(|&p| p < u && layer[p].contains(&u)));
                }
                if members.len() >= 2 {
                    assert!(!layer[u].is_empty());
                }
            }
        }
    }
}

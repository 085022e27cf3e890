use lib::dataset::Dataset;
use lib::nsw::{validate_config, NswConfig, NswIndex};
use lib::order::Neighbor;
use lib::types::{Metric, VectorError};

fn points() -> Vec<i64> {
    vec![0, 1, 3, 6]
}

fn dataset() -> Dataset<i64> {
    match Dataset::try_new(points().into_iter().map(|x| vec![x]).collect()) {
        Ok(ds) => ds,
        Err(e) => panic!("unexpected error {:?}", e),
    }
}

fn table() -> Vec<Vec<u32>> {
    let p = points();
    p.iter().map(|a| p.iter().map(|b| (a - b).unsigned_abs() as u32).collect()).collect()
}

fn config() -> NswConfig {
    NswConfig { max_connections: 2, ef_construction: 2, ef_search: 1 }
}

fn build() -> NswIndex<i64> {
    match NswIndex::try_new(dataset(), Metric::Euclidean, config(), &table()) {
        Ok(ix) => ix,
        Err(e) => panic!("unexpected error {:?}", e),
    }
}

#[test]
fn nsw_default_config_values() {
    let c = NswConfig::default();
    assert_eq!((c.max_connections, c.ef_construction, c.ef_search), (12, 48, 32));
    assert_eq!(validate_config(&c), Ok(()));
}

#[test]
fn nsw_config_errors_in_order() {
    let c = NswConfig { max_connections: 0, ef_construction: 0, ef_search: 0 };
    assert_eq!(
        validate_config(&c),
        Err(VectorError::InvalidConfig("max_connections must be greater than 0"))
    );
    let c = NswConfig { max_connections: 3, ef_construction: 2, ef_search: 0 };
    assert_eq!(
        validate_config(&c),
        Err(VectorError::InvalidConfig("ef_construction must be greater than max_connections"))
    );
    let c = NswConfig { max_connections: 3, ef_construction: 3, ef_search: 0 };
    assert_eq!(
        validate_config(&c),
        Err(VectorError::InvalidConfig("ef_search must be greater than 0"))
    );
}

#[test]
fn try_new_rejects_bad_config() {
    let bad = NswConfig { max_connections: 2, ef_construction: 1, ef_search: 1 };
    let r = NswIndex::try_new(dataset(), Metric::Cosine, bad, &table());
    assert!(matches!(
        r,
        Err(VectorError::InvalidConfig("ef_construction must be greater than max_connections"))
    ));
}

fn build_with(max_connections: usize) -> NswIndex<i64> {
    let c = NswConfig { max_connections, ef_construction: max_connections, ef_search: 1 };
    match NswIndex::try_new(dataset(), Metric::Euclidean, c, &table()) {
        Ok(ix) => ix,
        Err(e) => panic!("unexpected error {:?}", e),
    }
}

#[test]
fn graph_of_four_points() {
    let ix = build();
    // row 2 is full when row 3 arrives: row 3 goes on the edge between row 2
    // and row 0, its neighbour farthest from it
    let expected: Vec<Vec<usize>> = vec![vec![1, 3], vec![0, 2], vec![1, 3], vec![2, 0]];
    assert_eq!(ix.adjacency().to_vec(), expected);
    assert_eq!(ix.kind(), "nsw");
    assert_eq!(ix.metric(), Metric::Euclidean);
    assert_eq!(ix.dataset().len(), 4);
}

#[test]
fn roomier_lists_link_every_row() {
    let ix = build_with(3);
    let expected: Vec<Vec<usize>> = vec![vec![1, 2, 3], vec![0, 2, 3], vec![1, 0, 3], vec![2, 1, 0]];
    assert_eq!(ix.adjacency().to_vec(), expected);
    let dist = vec![5, 4, 2, 1];
    assert_eq!(
        ix.search_with_ef(&dist, 2, 1).unwrap(),
        vec![Neighbor { row: 3, distance: 1 }, Neighbor { row: 2, distance: 2 }]
    );
}

#[test]
fn graph_is_bounded_and_reciprocal() {
    for m in 1..=4 {
        let ix = build_with(m);
        let adj = ix.adjacency();
        assert_eq!(adj.len(), 4);
        for (u, list) in adj.iter().enumerate() {
            assert!(list.len() <= m);
            for (j, &v) in list.iter().enumerate() {
                assert!(v < adj.len());
                assert_ne!(v, u);
                assert!(!list[..j].contains(&v));
                assert!(adj[v].contains(&u));
            }
        }
    }
}

#[test]
fn search_gives_k_closest_found() {
    let ix = build();
    // a query at 5: keys are distances to 0, 1, 3, 6
    let dist = vec![5, 4, 2, 1];
    let r = ix.search_with_ef(&dist, 2, 1).unwrap();
    assert_eq!(r, vec![Neighbor { row: 3, distance: 1 }, Neighbor { row: 2, distance: 2 }]);
    assert_eq!(ix.search(&dist, 1).unwrap(), vec![Neighbor { row: 3, distance: 1 }]);
    assert!(ix.search(&dist, 0).unwrap().is_empty());
}

#[test]
fn single_row_graph_has_no_edges() {
    let ds = match Dataset::try_new(vec![vec![7i64]]) {
        Ok(ds) => ds,
        Err(e) => panic!("unexpected error {:?}", e),
    };
    let ix = match NswIndex::try_new(ds, Metric::DotProduct, config(), &vec![vec![0]]) {
        Ok(ix) => ix,
        Err(e) => panic!("unexpected error {:?}", e),
    };
    assert_eq!(ix.adjacency().to_vec(), vec![Vec::<usize>::new()]);
    assert_eq!(ix.search(&vec![3], 5).unwrap(), vec![Neighbor { row: 0, distance: 3 }]);
}

#[test]
fn nsw_clone_keeps_the_graph() {
    let ix = build_with(3);
    let copy = ix.clone();
    assert_eq!(copy.adjacency().to_vec(), ix.adjacency().to_vec());
    assert_eq!(copy.metric(), ix.metric());
    assert_eq!(copy.dataset().vectors().to_vec(), ix.dataset().vectors().to_vec());
}

fn line_points() -> Vec<i64> {
    vec![13, 2, 29, 7, 21, 0, 17, 9, 25, 4, 11, 30, 6, 19, 1]
}

fn build_line(max_connections: usize) -> NswIndex<i64> {
    let p = line_points();
    let ds = match Dataset::try_new(p.iter().map(|&x| vec![x]).collect()) {
        Ok(ds) => ds,
        Err(e) => panic!("unexpected error {:?}", e),
    };
    let table: Vec<Vec<u32>> =
        p.iter().map(|a| p.iter().map(|b| (a - b).unsigned_abs() as u32).collect()).collect();
    let c = NswConfig { max_connections, ef_construction: max_connections, ef_search: 1 };
    match NswIndex::try_new(ds, Metric::Euclidean, c, &table) {
        Ok(ix) => ix,
        Err(e) => panic!("unexpected error {:?}", e),
    }
}

fn reached_from_zero(adj: &[Vec<usize>]) -> Vec<bool> {
    let mut seen = vec![false; adj.len()];
    let mut stack = vec![0];
    seen[0] = true;
    while let Some(u) = stack.pop() {
        for &v in &adj[u] {
            if !seen[v] {
                seen[v] = true;
                stack.push(v);
            }
        }
    }
    seen
}

#[test]
fn line_graph_of_fifteen_points() {
    let expected: Vec<Vec<usize>> = vec![
        vec![6, 10],
        vec![5, 3],
        vec![4, 3],
        vec![1, 2],
        vec![12, 2],
        vec![1, 11],
        vec![0, 13],
        vec![10, 14],
        vec![13, 11],
        vec![14, 12],
        vec![0, 7],
        vec![8, 5],
        vec![9, 4],
        vec![6, 8],
        vec![9, 7],
    ];
    assert_eq!(build_line(2).adjacency().to_vec(), expected);
}

#[test]
fn every_row_is_reached_from_row_zero_when_lists_hold_two() {
    for m in 2..=5 {
        let ix = build_line(m);
        let adj = ix.adjacency();
        assert!(reached_from_zero(adj).iter().all(|&r| r));
        for (u, list) in adj.iter().enumerate() {
            assert!(list.len() <= m);
            for &v in list {
                assert!(adj[v].contains(&u));
            }
        }
    }
}

#[test]
fn lists_of_one_leave_rows_unlinked() {
    // a reciprocal graph whose lists hold one row is a set of pairs
    let ix = build_with(1);
    assert_eq!(ix.adjacency().to_vec(), vec![vec![1], vec![0], vec![], vec![]]);
}

#[test]
fn nsw_search_with_ef_at_least_the_row_count_is_exact() {
    let p = line_points();
    for m in 2..=4 {
        let ix = build_line(m);
        for q in [-3i64, 0, 5, 12, 18, 26, 40] {
            let dist: Vec<u32> = p.iter().map(|x| (x - q).unsigned_abs() as u32).collect();
            let mut all: Vec<Neighbor> =
                dist.iter().enumerate().map(|(row, &distance)| Neighbor { row, distance }).collect();
            all.sort_by_key(|n| (n.distance, n.row));
            for k in [1, 3, 15] {
                assert_eq!(ix.search_with_ef(&dist, k, p.len()).unwrap(), all[..k].to_vec());
            }
        }
    }
}

use lib::graph::{greedy_search, prune_neighbors, search_layer};
use lib::order::Neighbor;

fn sample_graph() -> (Vec<u32>, Vec<Vec<usize>>) {
    let dist = vec![5, 3, 8, 1, 9];
    let adjacency = vec![vec![1, 2], vec![0, 3], vec![0, 4], vec![1], vec![2]];
    (dist, adjacency)
}

fn rows(v: &[Neighbor]) -> Vec<usize> {
    v.iter().map(|n| n.row).collect()
}

#[test]
fn search_layer_finds_closest_rows() {
    let (dist, adjacency) = sample_graph();
    let found = search_layer(&dist, &adjacency, &vec![0], 2, 5);
    assert_eq!(
        found,
        vec![Neighbor { row: 3, distance: 1 }, Neighbor { row: 1, distance: 3 }]
    );
}

#[test]
fn search_layer_ignores_rows_at_or_above_allowed() {
    let (dist, adjacency) = sample_graph();
    let found = search_layer(&dist, &adjacency, &vec![0], 2, 3);
    assert_eq!(rows(&found), vec![1, 0]);
    assert!(found.iter().all(|n| n.row < 3));
}

#[test]
fn search_layer_skips_entry_outside_allowed_rows() {
    let (dist, adjacency) = sample_graph();
    assert!(search_layer(&dist, &adjacency, &vec![4], 3, 4).is_empty());
    assert!(search_layer(&dist, &adjacency, &vec![], 3, 5).is_empty());
}

#[test]
fn search_layer_keeps_every_entry_point() {
    let (dist, adjacency) = sample_graph();
    // both entry points stay although only one result is asked for
    let found = search_layer(&dist, &adjacency, &vec![0, 4], 1, 5);
    assert_eq!(
        found,
        vec![Neighbor { row: 0, distance: 5 }, Neighbor { row: 4, distance: 9 }]
    );
}

#[test]
fn search_layer_with_large_ef_reaches_whole_component() {
    let (dist, adjacency) = sample_graph();
    let found = search_layer(&dist, &adjacency, &vec![4], 10, 5);
    assert_eq!(rows(&found), vec![3, 1, 0, 2, 4]);
    for w in found.windows(2) {
        assert!(w[0].distance <= w[1].distance);
    }
}

#[test]
fn search_layer_stops_when_frontier_is_farther_than_results() {
    // row 1 enters the frontier, then row 2 pushes it out of the results;
    // once row 1 is farther than every result it is not expanded, so row 3
    // behind it is never reached
    let dist = vec![5, 6, 1, 0];
    let adjacency = vec![vec![1, 2], vec![3], vec![], vec![]];
    let found = search_layer(&dist, &adjacency, &vec![0], 2, 4);
    assert_eq!(rows(&found), vec![2, 0]);
}

#[test]
fn search_layer_without_room_only_marks_rows_reached() {
    let dist = vec![1, 10, 0];
    let adjacency = vec![vec![1], vec![2], vec![]];
    let found = search_layer(&dist, &adjacency, &vec![0], 1, 3);
    assert_eq!(rows(&found), vec![0]);
}

#[test]
fn search_layer_equal_distance_joins_frontier_only() {
    // rows 1 and 2 are as far as the kept row 0; row 3 is close behind row 1
    let dist = vec![4, 4, 7, 1];
    let adjacency = vec![vec![1, 2], vec![3], vec![], vec![]];
    let found = search_layer(&dist, &adjacency, &vec![0], 1, 4);
    assert_eq!(found, vec![Neighbor { row: 3, distance: 1 }]);
}

#[test]
fn greedy_search_descends_to_local_minimum() {
    let (dist, adjacency) = sample_graph();
    assert_eq!(greedy_search(&dist, &adjacency, 4, 5), 3);
    assert_eq!(greedy_search(&dist, &adjacency, 3, 5), 3);
}

#[test]
fn greedy_search_respects_allowed_rows() {
    let (dist, adjacency) = sample_graph();
    // the entry itself may lie outside the allowed rows
    assert_eq!(greedy_search(&dist, &adjacency, 4, 3), 1);
    assert_eq!(greedy_search(&dist, &adjacency, 2, 0), 2);
}

#[test]
fn greedy_search_breaks_ties_by_row() {
    let dist = vec![5, 2, 2];
    let adjacency = vec![vec![2, 1], vec![], vec![]];
    assert_eq!(greedy_search(&dist, &adjacency, 0, 3), 1);
}

#[test]
fn prune_neighbors_keeps_closest_distinct_rows() {
    let dist = vec![4, 2, 2, 7, 0];
    let mut neighbors = vec![3, 1, 2, 1, 0, 3];
    prune_neighbors(&dist, &mut neighbors, 3);
    assert_eq!(neighbors, vec![1, 2, 0]);
}

#[test]
fn prune_neighbors_with_room_for_all() {
    let dist = vec![4, 2, 2, 7, 0];
    let mut neighbors = vec![3, 1, 2, 1, 0, 3];
    prune_neighbors(&dist, &mut neighbors, 10);
    assert_eq!(neighbors, vec![1, 2, 0, 3]);
    let mut none = vec![2, 0];
    prune_neighbors(&dist, &mut none, 0);
    assert!(none.is_empty());
}

#[test]
fn search_layer_keeps_repeated_entry_points() {
    let dist = vec![5];
    let adjacency = vec![vec![]];
    let found = search_layer(&dist, &adjacency, &vec![0, 0], 1, 1);
    assert_eq!(found, vec![Neighbor { row: 0, distance: 5 }, Neighbor { row: 0, distance: 5 }]);
}

#[test]
fn search_layer_below_ef_returns_exactly_what_is_reachable() {
    // two components: {0, 1, 2} and {3, 4}
    let dist = vec![4, 2, 7, 0, 1];
    let adjacency = vec![vec![1], vec![0, 2], vec![1], vec![4], vec![3]];
    let found = search_layer(&dist, &adjacency, &vec![2], 10, 5);
    assert_eq!(rows(&found), vec![1, 0, 2]);
    let found = search_layer(&dist, &adjacency, &vec![0, 4], 10, 5);
    assert_eq!(rows(&found), vec![3, 4, 1, 0, 2]);
    // with fewer rows than ef, every allowed neighbour of a found row is found
    for n in &found {
        for &x in &adjacency[n.row] {
            assert!(found.iter().any(|m| m.row == x));
        }
    }
}

#[test]
fn search_layer_limit_above_the_row_count_limits_nothing() {
    let (dist, adjacency) = sample_graph();
    assert_eq!(
        search_layer(&dist, &adjacency, &vec![0], 2, 100),
        search_layer(&dist, &adjacency, &vec![0], 2, 5)
    );
    assert_eq!(
        rows(&search_layer(&dist, &adjacency, &vec![4], 10, usize::MAX)),
        vec![3, 1, 0, 2, 4]
    );
}

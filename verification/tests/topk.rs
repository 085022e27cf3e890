use lib::order::Neighbor;
use lib::topk::TopK;

fn nb(row: usize, distance: u32) -> Neighbor {
    Neighbor { row, distance }
}

#[test]
fn keeps_k_closest_sorted() {
    let mut top = TopK::new(3);
    for (row, d) in [(0, 9), (1, 4), (2, 7), (3, 1), (4, 7), (5, 8), (6, 0)] {
        top.push(nb(row, d));
    }
    assert_eq!(top.into_sorted(), vec![nb(6, 0), nb(3, 1), nb(1, 4)]);
}

#[test]
fn ties_are_broken_by_row() {
    let mut top = TopK::new(2);
    top.push(nb(5, 3));
    top.push(nb(2, 3));
    top.push(nb(9, 3));
    assert_eq!(top.into_sorted(), vec![nb(2, 3), nb(5, 3)]);
}

#[test]
fn zero_capacity_keeps_nothing() {
    let mut top = TopK::new(0);
    top.push(nb(0, 1));
    assert!(top.into_sorted().is_empty());
}

#[test]
fn fewer_items_than_capacity_are_all_kept() {
    let mut top = TopK::new(5);
    top.push(nb(1, 2));
    top.push(nb(0, 2));
    assert_eq!(top.into_sorted(), vec![nb(0, 2), nb(1, 2)]);
}

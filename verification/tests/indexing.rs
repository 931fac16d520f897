use libopendrive::{bucket_items, fan, index_spans, ring, splice_hole, IdList, LaneType};

#[test]
fn lookup_is_by_id_not_position() {
    let ids = IdList { ids: vec![17, 4, 2, 4] };
    assert_eq!(ids.position(17), Some(0));
    assert_eq!(ids.position(4), Some(1));
    // Id 2 sits at position 2: the fast path.
    assert_eq!(ids.position(2), Some(2));
    assert_eq!(ids.position(0), None);
    assert_eq!(ids.resolve(&[4, 9, 17]), vec![1, 0]);
}

#[test]
fn driving_lanes_cut_into_spans_of_four_segments() {
    let kinds = [LaneType::Driving, LaneType::Sidewalk, LaneType::Driving, LaneType::Driving];
    let points = [11, 30, 2, 5];
    assert_eq!(
        index_spans(&kinds, &points),
        vec![(0, 0, 4), (0, 4, 8), (0, 8, 10), (2, 0, 1), (3, 0, 4)]
    );
}

#[test]
fn a_ring_is_its_edge_rows_whole_and_the_ends_of_the_rows_between() {
    assert_eq!(ring(5, 5, 2, 2, 0), vec![(2, 2)]);
    assert_eq!(
        ring(5, 5, 2, 2, 1),
        vec![(1, 1), (2, 1), (3, 1), (1, 2), (3, 2), (1, 3), (2, 3), (3, 3)]
    );
    // Clipped at the grid's edge.
    assert_eq!(ring(3, 2, 0, 0, 1), vec![(1, 0), (0, 1), (1, 1)]);
    // Outgrown the grid.
    assert!(ring(3, 3, 1, 1, 2).is_empty());
}

#[test]
fn each_cell_lists_the_items_covering_it_lowest_first() {
    let cells = bucket_items(3, 2, &[(0, 1, 0, 0), (1, 2, 0, 1), (2, 0, 0, 0)]);
    assert_eq!(cells.len(), 2);
    assert_eq!(cells[0], vec![vec![0], vec![0, 1], vec![1]]);
    assert_eq!(cells[1], vec![vec![], vec![1], vec![1]]);
}

#[test]
fn a_fan_covers_a_convex_polygon_from_its_first_corner() {
    assert_eq!(fan(5), vec![[0, 1, 2], [0, 2, 3], [0, 3, 4]]);
    assert!(fan(2).is_empty());
    assert!(fan(0).is_empty());
}

#[test]
fn a_hole_splices_in_along_a_doubled_bridge() {
    let mut ring = vec![0, 1, 2, 3];
    splice_hole(&mut ring, 1, &[4, 5, 6], 1);
    assert_eq!(ring, vec![0, 1, 5, 6, 4, 5, 1, 2, 3]);
}

#[test]
fn the_outward_walk_visits_every_cell_exactly_once() {
    let (cols, rows) = (4, 3);
    for cx in 0..cols {
        for cy in 0..rows {
            let mut seen = vec![vec![0; cols]; rows];
            for r in 0..=cols.max(rows) {
                for (ix, iy) in ring(cols, rows, cx, cy, r) {
                    seen[iy][ix] += 1;
                }
            }
            assert!(seen.iter().flatten().all(|&n| n == 1), "from ({cx}, {cy}): {seen:?}");
        }
    }
}

#[test]
fn once_a_ring_outgrows_the_grid_every_wider_one_has() {
    let (cols, rows) = (5, 2);
    for cx in 0..cols {
        for cy in 0..rows {
            let first_empty = (0..).find(|&r| ring(cols, rows, cx, cy, r).is_empty()).unwrap();
            assert!((first_empty..first_empty + 8).all(|r| ring(cols, rows, cx, cy, r).is_empty()));
            assert!((0..first_empty).all(|r| !ring(cols, rows, cx, cy, r).is_empty()));
        }
    }
}

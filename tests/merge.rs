use wall_collision::{merge, GridCoord, MergeError, Rect};

fn c(x: i32, y: i32) -> GridCoord {
    GridCoord { x, y }
}

fn r(left: i32, right: i32, bottom: i32, top: i32) -> Rect {
    Rect { left, right, bottom, top }
}

fn full_grid(width: i32, height: i32) -> Vec<GridCoord> {
    let mut cells = Vec::new();
    for y in 0..height {
        for x in 0..width {
            cells.push(c(x, y));
        }
    }
    cells
}

/// Checks that the rectangles cover exactly the given cells, each once.
fn assert_exact_cover(width: i32, height: i32, cells: &[GridCoord], rects: &[Rect]) {
    for y in 0..height {
        for x in 0..width {
            let covering = rects
                .iter()
                .filter(|q| q.left <= x && x <= q.right && q.bottom <= y && y <= q.top)
                .count();
            let solid = cells.contains(&c(x, y));
            assert_eq!(covering, if solid { 1 } else { 0 }, "cell ({}, {})", x, y);
        }
    }
    for q in rects {
        assert!(q.left <= q.right && q.bottom <= q.top);
    }
}

/// A small deterministic generator for pseudo-random grids.
fn next(state: &mut u64) -> u64 {
    *state = state.wrapping_mul(6364136223846793005).wrapping_add(1442695040888963407);
    *state >> 33
}

#[test]
fn single_full_block() {
    let cells = full_grid(5, 3);
    assert_eq!(merge(5, 3, &cells), Ok(vec![r(0, 4, 0, 2)]));
}

#[test]
fn single_isolated_cell() {
    assert_eq!(merge(5, 5, &vec![c(2, 2)]), Ok(vec![r(2, 2, 2, 2)]));
}

#[test]
fn two_rows_with_different_runs_do_not_fuse() {
    let cells = vec![c(0, 0), c(1, 0), c(2, 0), c(1, 1), c(2, 1), c(3, 1)];
    assert_eq!(merge(4, 2, &cells), Ok(vec![r(0, 2, 0, 0), r(1, 3, 1, 1)]));
}

#[test]
fn checkerboard_gives_one_rect_per_run() {
    let mut cells = Vec::new();
    for y in 0..4 {
        for x in 0..4 {
            if (x + y) % 2 == 0 {
                cells.push(c(x, y));
            }
        }
    }
    let rects = merge(4, 4, &cells).unwrap();
    assert_eq!(rects.len(), 8);
    for q in &rects {
        assert_eq!(q.bottom, q.top);
        assert_eq!(q.left, q.right);
    }
    assert_eq!(rects[0], r(0, 0, 0, 0));
    assert_eq!(rects[1], r(2, 2, 0, 0));
    assert_eq!(rects[2], r(1, 1, 1, 1));
    assert_eq!(rects[7], r(3, 3, 3, 3));
    assert_exact_cover(4, 4, &cells, &rects);
}

#[test]
fn cell_past_the_right_edge_is_refused() {
    let cells = vec![c(1, 1), c(5, 0)];
    assert_eq!(merge(5, 3, &cells), Err(MergeError::InvalidCoordinate { x: 5, y: 0 }));
}

#[test]
fn negative_and_high_cells_are_refused() {
    assert_eq!(merge(5, 3, &vec![c(-1, 0)]), Err(MergeError::InvalidCoordinate { x: -1, y: 0 }));
    assert_eq!(merge(5, 3, &vec![c(0, 3)]), Err(MergeError::InvalidCoordinate { x: 0, y: 3 }));
    assert_eq!(merge(0, 0, &vec![c(0, 0)]), Err(MergeError::InvalidCoordinate { x: 0, y: 0 }));
}

#[test]
fn first_bad_cell_is_reported() {
    let cells = vec![c(0, 0), c(9, 9), c(7, 0)];
    assert_eq!(merge(5, 5, &cells), Err(MergeError::InvalidCoordinate { x: 9, y: 9 }));
}

#[test]
fn empty_inputs_give_no_rects() {
    assert_eq!(merge(5, 5, &vec![]), Ok(vec![]));
    assert_eq!(merge(0, 0, &vec![]), Ok(vec![]));
}

#[test]
fn duplicate_cells_count_once() {
    let cells = vec![c(1, 0), c(1, 0), c(2, 0)];
    assert_eq!(merge(3, 1, &cells), Ok(vec![r(1, 2, 0, 0)]));
}

#[test]
fn runs_touching_both_edges_are_closed() {
    let cells = vec![c(0, 0), c(3, 0), c(0, 1), c(3, 1)];
    assert_eq!(merge(4, 2, &cells), Ok(vec![r(0, 0, 0, 1), r(3, 3, 0, 1)]));
}

#[test]
fn shape_change_closes_and_reopens() {
    // rows 0-1 share a run, row 2 differs, row 3 matches rows 0-1 again
    let cells = vec![
        c(1, 0), c(2, 0),
        c(1, 1), c(2, 1),
        c(1, 2),
        c(1, 3), c(2, 3),
    ];
    assert_eq!(
        merge(4, 4, &cells),
        Ok(vec![r(1, 2, 0, 1), r(1, 1, 2, 2), r(1, 2, 3, 3)])
    );
}

#[test]
fn output_is_ordered_by_top_then_left() {
    let cells = vec![c(4, 0), c(0, 0), c(0, 1), c(2, 2)];
    assert_eq!(
        merge(5, 3, &cells),
        Ok(vec![r(4, 4, 0, 0), r(0, 0, 0, 1), r(2, 2, 2, 2)])
    );
}

#[test]
fn random_grids_are_covered_exactly_once() {
    let mut state: u64 = 42;
    for round in 0..50 {
        let width = 1 + (next(&mut state) % 9) as i32;
        let height = 1 + (next(&mut state) % 9) as i32;
        let mut cells = Vec::new();
        for y in 0..height {
            for x in 0..width {
                if next(&mut state) % 3 != 0 {
                    cells.push(c(x, y));
                }
            }
        }
        let rects = merge(width, height, &cells).unwrap();
        assert_exact_cover(width, height, &cells, &rects);
        // shuffled input order gives the same result
        let mut reversed = cells.clone();
        reversed.reverse();
        assert_eq!(merge(width, height, &reversed).unwrap(), rects, "round {}", round);
    }
}

#[test]
fn merging_twice_gives_identical_output() {
    let cells = vec![c(0, 0), c(1, 0), c(1, 1), c(3, 2), c(3, 3), c(2, 3)];
    let first = merge(4, 4, &cells);
    let second = merge(4, 4, &cells);
    assert_eq!(first, second);
}

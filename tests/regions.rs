use wall_collision::{
    merge, merge_regions, tiles_in_region, ColliderBox, GridCoord, Level, MergeError, Rect,
    RegionWalls, WallTile,
};

fn tile(region: u64, x: i32, y: i32) -> WallTile {
    WallTile { region, coord: GridCoord { x, y } }
}

#[test]
fn regions_with_identical_cells_do_not_interact() {
    // two side-by-side levels with the same local cells: each keeps its own rects
    let levels = vec![
        Level { region: 7, width: 3, height: 2 },
        Level { region: 9, width: 3, height: 2 },
    ];
    let mut tiles = Vec::new();
    for region in [7u64, 9u64] {
        tiles.push(tile(region, 2, 0));
        tiles.push(tile(region, 2, 1));
    }
    let out = merge_regions(&levels, &tiles).unwrap();
    let expected = vec![Rect { left: 2, right: 2, bottom: 0, top: 1 }];
    assert_eq!(
        out,
        vec![
            RegionWalls { region: 7, rects: expected.clone() },
            RegionWalls { region: 9, rects: expected },
        ]
    );
}

#[test]
fn region_result_matches_merging_it_alone() {
    let levels = vec![
        Level { region: 1, width: 4, height: 2 },
        Level { region: 2, width: 2, height: 2 },
    ];
    let tiles = vec![
        tile(1, 0, 0),
        tile(2, 0, 0),
        tile(1, 1, 0),
        tile(2, 1, 1),
        tile(1, 1, 1),
        tile(3, 0, 0),
    ];
    let out = merge_regions(&levels, &tiles).unwrap();
    assert_eq!(out.len(), 2);
    let own1 = vec![GridCoord { x: 0, y: 0 }, GridCoord { x: 1, y: 0 }, GridCoord { x: 1, y: 1 }];
    assert_eq!(Ok(out[0].rects.clone()), merge(4, 2, &own1));
    assert_eq!(
        out[0].rects,
        vec![
            Rect { left: 0, right: 1, bottom: 0, top: 0 },
            Rect { left: 1, right: 1, bottom: 1, top: 1 },
        ]
    );
    assert_eq!(
        out[1].rects,
        vec![
            Rect { left: 0, right: 0, bottom: 0, top: 0 },
            Rect { left: 1, right: 1, bottom: 1, top: 1 },
        ]
    );
}

#[test]
fn level_without_tiles_gets_no_rects() {
    let levels = vec![Level { region: 4, width: 3, height: 3 }];
    let out = merge_regions(&levels, &vec![tile(5, 0, 0)]).unwrap();
    assert_eq!(out, vec![RegionWalls { region: 4, rects: vec![] }]);
}

#[test]
fn tile_outside_its_level_is_refused() {
    let levels = vec![
        Level { region: 1, width: 3, height: 3 },
        Level { region: 2, width: 2, height: 2 },
    ];
    let tiles = vec![tile(1, 2, 2), tile(2, 2, 0)];
    assert_eq!(
        merge_regions(&levels, &tiles),
        Err(MergeError::InvalidCoordinate { x: 2, y: 0 })
    );
}

#[test]
fn tiles_are_picked_by_region_in_order() {
    let tiles = vec![tile(1, 0, 0), tile(2, 5, 5), tile(1, 3, 1)];
    assert_eq!(
        tiles_in_region(&tiles, 1),
        vec![GridCoord { x: 0, y: 0 }, GridCoord { x: 3, y: 1 }]
    );
    assert_eq!(tiles_in_region(&tiles, 8), vec![]);
}

#[test]
fn collider_box_scales_by_grid_size() {
    let q = Rect { left: 2, right: 4, bottom: 1, top: 1 };
    assert_eq!(
        q.collider(16),
        ColliderBox { size_x: 48, size_y: 16, twice_center_x: 112, twice_center_y: 48 }
    );
    let one = Rect { left: 0, right: 0, bottom: 0, top: 0 };
    assert_eq!(
        one.collider(8),
        ColliderBox { size_x: 8, size_y: 8, twice_center_x: 8, twice_center_y: 8 }
    );
}

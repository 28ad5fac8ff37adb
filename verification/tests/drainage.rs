use pirate_sim::helpers::RectDimension;
use pirate_sim::worldgen::drainage::{carve, carve_beds, find_river, MIN_CLIMB};
use pirate_sim::worldgen::ocean::classify_ocean;
use pirate_sim::worldgen::terrain::River;

fn basin_of_rows(rows: &[&[i32]]) -> (Vec<i32>, RectDimension) {
    let h = rows.len() as u8;
    let w = rows[0].len() as u8;
    let mut cells = Vec::new();
    for row in rows {
        assert_eq!(row.len(), w as usize);
        cells.extend_from_slice(row);
    }
    (cells, RectDimension::new(w, h))
}

fn cost_of(heights: &[i32], river: &[u32]) -> i64 {
    river
        .windows(2)
        .map(|s| (heights[s[0] as usize] as i64 - heights[s[1] as usize] as i64).abs())
        .sum()
}

fn touching(a: u32, b: u32, w: u32) -> bool {
    let (ax, ay, bx, by) = ((a % w) as i64, (a / w) as i64, (b % w) as i64, (b / w) as i64);
    a != b && (ax - bx).abs() <= 1 && (ay - by).abs() <= 1
}

#[test]
fn a_lake_drains_over_the_lowest_pass() {
    let (heights, dim) = basin_of_rows(&[
        &[0, 0, 0, 0, 0],
        &[0, 50, 50, 50, 0],
        &[0, 50, -10, 20, 0],
        &[0, 50, 50, 50, 0],
        &[0, 0, 0, 0, 0],
    ]);
    let open = classify_ocean(&heights, 0, dim);
    let river = find_river(&heights, 0, &open, dim, 12).unwrap();
    // over the pass of 20 to one of the three ocean cells beside it, which cost the same
    let tiles = river.tiles().clone();
    assert_eq!(tiles.len(), 3);
    assert_eq!(tiles[0], 12);
    assert_eq!(tiles[1], 13);
    assert!([9, 14, 19].contains(&tiles[2]));
    assert_eq!(cost_of(&heights, &tiles), 30 + 20);
}

#[test]
fn a_river_is_a_chain_that_ends_in_the_open_ocean() {
    let (heights, dim) = basin_of_rows(&[
        &[0, 0, 0, 0, 0, 0, 0],
        &[0, 90, 90, 90, 90, 90, 0],
        &[0, 90, 40, 40, 40, 90, 0],
        &[0, 90, 40, -5, 40, 90, 0],
        &[0, 90, 40, 40, 40, 30, 0],
        &[0, 90, 90, 90, 90, 90, 0],
        &[0, 0, 0, 0, 0, 0, 0],
    ]);
    let open = classify_ocean(&heights, 0, dim);
    let river = find_river(&heights, 0, &open, dim, 24).unwrap();
    let tiles = river.tiles();
    assert_eq!(tiles[0], 24);
    for pair in tiles.windows(2) {
        assert!(touching(pair[0], pair[1], 7));
    }
    assert!(open[*tiles.last().unwrap() as usize]);
    for t in &tiles[..tiles.len() - 1] {
        assert!(!open[*t as usize]);
    }
    // up to the basin's floor (45), across to the notch of 30 (10), down to the sea (30)
    assert_eq!(cost_of(&heights, tiles), 45 + 10 + 30);
    assert_eq!(tiles.iter().filter(|t| **t == 33).count(), 1);
}

#[test]
fn no_river_climbs_a_rise_below_the_least_climb() {
    assert_eq!(MIN_CLIMB, 3);
    // the lake lies two units below its shore: too small a rise to take
    let (low_shore, dim) = basin_of_rows(&[
        &[0, 0, 0, 0, 0],
        &[0, 2, 2, 2, 0],
        &[0, 2, 0, 2, 0],
        &[0, 2, 2, 2, 0],
        &[0, 0, 0, 0, 0],
    ]);
    let open = classify_ocean(&low_shore, 0, dim);
    assert!(!open[12]);
    assert!(find_river(&low_shore, 0, &open, dim, 12).is_none());
    // with a shore three units up there is a river
    let (shore, dim) = basin_of_rows(&[
        &[0, 0, 0, 0, 0],
        &[0, 3, 3, 3, 0],
        &[0, 3, 0, 3, 0],
        &[0, 3, 3, 3, 0],
        &[0, 0, 0, 0, 0],
    ]);
    let open = classify_ocean(&shore, 0, dim);
    assert_eq!(find_river(&shore, 0, &open, dim, 12).unwrap().tiles().len(), 3);
}

#[test]
fn without_an_ocean_there_is_no_river() {
    let (heights, dim) = basin_of_rows(&[&[9, 9, 9], &[9, 0, 9], &[9, 9, 9]]);
    let open = classify_ocean(&heights, 0, dim);
    assert_eq!(open, vec![false; 9]);
    assert!(find_river(&heights, 0, &open, dim, 4).is_none());
}

#[test]
fn a_source_in_the_open_ocean_is_its_own_river() {
    let (heights, dim) = basin_of_rows(&[&[0, 9], &[9, 9]]);
    let open = classify_ocean(&heights, 0, dim);
    assert_eq!(find_river(&heights, 0, &open, dim, 0).unwrap().tiles(), &vec![0]);
}

#[test]
fn land_steps_into_no_lake() {
    // from the land at (1, 1) the only water in reach is a lake: no way
    let (heights, dim) = basin_of_rows(&[
        &[9, 9, 9, 9],
        &[9, 9, 9, 9],
        &[9, 9, 0, 9],
        &[9, 9, 9, 9],
    ]);
    let open = classify_ocean(&heights, 0, dim);
    assert!(find_river(&heights, 0, &open, dim, 5).is_none());
}

#[test]
fn inside_a_lake_a_river_moves_only_between_elevations() {
    // the two cells of the lake lie level: the left one cannot pass through
    // the right one, and its own shore is too high to matter here
    let (heights, dim) = basin_of_rows(&[
        &[0, 0, 0, 0, 0, 0],
        &[0, 90, 90, 90, 90, 0],
        &[0, 90, -4, -4, 5, 0],
        &[0, 90, 90, 90, 90, 0],
        &[0, 0, 0, 0, 0, 0],
    ]);
    let open = classify_ocean(&heights, 0, dim);
    let left = find_river(&heights, 0, &open, dim, 14).unwrap();
    assert!(!left.tiles().contains(&15));
    assert_eq!(cost_of(&heights, left.tiles()), 94 + 90);
    let right = find_river(&heights, 0, &open, dim, 15).unwrap();
    assert_eq!(right.tiles()[..2], [15, 16]);
    assert_eq!(cost_of(&heights, right.tiles()), 9 + 5);
    // where the two cells differ the left one drains through the right one
    let (heights, dim) = basin_of_rows(&[
        &[0, 0, 0, 0, 0, 0],
        &[0, 90, 90, 90, 90, 0],
        &[0, 90, -4, -5, 5, 0],
        &[0, 90, 90, 90, 90, 0],
        &[0, 0, 0, 0, 0, 0],
    ]);
    let open = classify_ocean(&heights, 0, dim);
    let left = find_river(&heights, 0, &open, dim, 14).unwrap();
    assert_eq!(left.tiles()[..3], [14, 15, 16]);
    assert_eq!(cost_of(&heights, left.tiles()), 1 + 10 + 5);
}

#[test]
fn carving_lowers_the_bed_to_the_cell_before() {
    let mut heights = vec![-10, 50, 20, 0, 7];
    assert!(carve(&mut heights, &River::new(vec![0, 1, 2, 3])));
    assert_eq!(heights, vec![-10, -10, -10, -10, 7]);
    assert!(!carve(&mut heights, &River::new(vec![0, 1, 2, 3])));
    let mut heights = vec![5, 3, 4, 1, 9];
    assert!(carve(&mut heights, &River::new(vec![0, 1, 2, 3])));
    assert_eq!(heights, vec![5, 3, 3, 1, 9]);
    let mut heights = vec![5, 3, 4];
    assert!(!carve(&mut heights, &River::new(vec![2])));
    assert_eq!(heights, vec![5, 3, 4]);
    assert!(!carve(&mut heights, &River::new(vec![])));
    assert_eq!(heights, vec![5, 3, 4]);
    assert!(carve(&mut heights, &River::new(vec![1, 0, 2])));
    assert_eq!(heights, vec![3, 3, 3]);
}

#[test]
fn beds_are_carved_until_none_rises_from_its_source() {
    // the first river starts at cell 0; the second runs through cell 0 and
    // takes it down to -9, and the bed of the first has to follow
    let rivers = vec![River::new(vec![0, 1, 2]), River::new(vec![3, 0, 4])];
    let mut heights = vec![-2, 8, -5, -9, -20];
    carve_beds(&mut heights, &rivers);
    assert_eq!(heights, vec![-9, -9, -9, -9, -20]);
    // the order of the rivers is of no matter
    let turned = vec![River::new(vec![3, 0, 4]), River::new(vec![0, 1, 2])];
    let mut heights = vec![-2, 8, -5, -9, -20];
    carve_beds(&mut heights, &turned);
    assert_eq!(heights, vec![-9, -9, -9, -9, -20]);
    // two beds that run through each other's sources
    let crossed = vec![River::new(vec![0, 1, 2]), River::new(vec![1, 0, 3])];
    let mut heights = vec![4, 1, 9, 7];
    carve_beds(&mut heights, &crossed);
    assert_eq!(heights, vec![1, 1, 1, 1]);
    let mut heights = vec![4, 1, 9, 7];
    carve_beds(&mut heights, &vec![]);
    assert_eq!(heights, vec![4, 1, 9, 7]);
}

#[test]
fn a_river_crosses_level_land_without_a_loop() {
    // a plateau of one elevation lets a way wander at no cost: the river
    // visits no cell twice all the same
    let (heights, dim) = basin_of_rows(&[
        &[0, 0, 0, 0, 0, 0, 0],
        &[0, 50, 50, 50, 50, 50, 0],
        &[0, 50, 9, 9, 9, 50, 0],
        &[0, 50, 9, -7, 9, 50, 0],
        &[0, 50, 9, 9, 9, 9, 0],
        &[0, 50, 50, 50, 50, 50, 0],
        &[0, 0, 0, 0, 0, 0, 0],
    ]);
    let open = classify_ocean(&heights, 0, dim);
    let river = find_river(&heights, 0, &open, dim, 24).unwrap();
    let mut cells = river.tiles().clone();
    assert_eq!(cost_of(&heights, &cells), 16 + 9);
    cells.sort();
    cells.dedup();
    assert_eq!(cells.len(), river.tiles().len());
}

#[test]
fn of_several_cheapest_ways_the_search_takes_one_and_the_same() {
    let (heights, dim) = basin_of_rows(&[
        &[0, 0, 0, 0, 0],
        &[0, 50, 50, 50, 0],
        &[0, 50, -10, 50, 0],
        &[0, 50, 50, 50, 0],
        &[0, 0, 0, 0, 0],
    ]);
    let open = classify_ocean(&heights, 0, dim);
    // every way over the ring costs the same: the ring's cells are reached
    // in the order of the points around the lake, and settled in the order
    // of the cells
    let river = find_river(&heights, 0, &open, dim, 12).unwrap();
    assert_eq!(river.tiles(), &vec![12, 6, 0]);
    for _ in 0..3 {
        assert_eq!(find_river(&heights, 0, &open, dim, 12).unwrap().tiles(), river.tiles());
    }
}

#[test]
fn a_river_keeps_its_cells_in_order() {
    let river = River::new(vec![4, 8, 15]);
    assert_eq!(river.tiles(), &vec![4, 8, 15]);
    assert_eq!(river.clone().tiles(), &vec![4, 8, 15]);
}

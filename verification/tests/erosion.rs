use pirate_sim::helpers::RectDimension;
use pirate_sim::worldgen::ocean::classify_ocean;
use pirate_sim::worldgen::terrain::{erode, gen_base_map, rain_erosion, RAIN_DIVISOR};
use pirate_sim::worldgen::{FullWorld, GenContext, GenError, GenParam};

fn params_for(w: u8, h: u8, target_water: u8) -> GenParam {
    GenParam {
        seed: 1,
        target_water,
        max_ports: 0,
        max_civilizations: 0,
        world_size: RectDimension::new(w, h),
        max_polar_tiles: 0,
        min_polar_tiles: 0,
    }
}

fn island_with_a_lake() -> FullWorld {
    let (o, l, k) = (-100, 100, -50);
    let samples = vec![
        o, o, o, o, o, //
        o, l, l, l, o, //
        o, l, k, l, o, //
        o, l, l, l, o, //
        o, o, o, o, o,
    ];
    let world = gen_base_map(&GenContext::new(params_for(5, 5, 173)), samples).unwrap();
    assert_eq!(world.sea_level(), 0);
    world
}

fn cells_touch(a: u32, b: u32, w: u32) -> bool {
    let (ax, ay, bx, by) = ((a % w) as i64, (a / w) as i64, (b % w) as i64, (b / w) as i64);
    a != b && (ax - bx).abs() <= 1 && (ay - by).abs() <= 1
}

#[test]
fn one_lake_cell_gets_exactly_one_river_to_the_border_ocean() {
    let world = island_with_a_lake();
    let eroded = erode(&world, &vec![0; 25]).unwrap();
    assert_eq!(eroded.rivers().len(), 1);
    let tiles = eroded.rivers()[0].tiles();
    assert_eq!(tiles.len(), 3);
    assert_eq!(tiles[0], 12);
    assert!(cells_touch(tiles[0], tiles[1], 5));
    assert!(cells_touch(tiles[1], tiles[2], 5));
    let (x, y) = (tiles[2] % 5, tiles[2] / 5);
    assert!(x == 0 || y == 0 || x == 4 || y == 4);
    assert_eq!(world.terrain().height_map[tiles[2] as usize], -100);
    // the terrain's own list holds the same river
    assert_eq!(eroded.terrain().rivers.len(), 1);
    assert_eq!(eroded.terrain().rivers[0].tiles(), tiles);
}

#[test]
fn the_carved_bed_joins_the_lake_to_the_ocean() {
    let world = island_with_a_lake();
    let before = classify_ocean(&world.terrain().height_map, 0, world.dimensions());
    assert!(!before[12]);
    let eroded = erode(&world, &vec![0; 25]).unwrap();
    let heights = &eroded.terrain().height_map;
    let after = classify_ocean(heights, eroded.sea_level(), eroded.dimensions());
    assert!(after[12]);
    let tiles = eroded.rivers()[0].tiles();
    for t in tiles {
        assert!(heights[*t as usize] <= -50);
        assert!(after[*t as usize]);
    }
    // the pass is lowered to the lake, everything off the river is as it was
    assert_eq!(heights[tiles[1] as usize], -50);
    for i in 0..25u32 {
        if !tiles.contains(&i) {
            assert_eq!(heights[i as usize], world.terrain().height_map[i as usize]);
        }
    }
    assert_eq!(eroded.min_height(), -100);
    assert_eq!(eroded.max_height(), 100);
    assert_eq!(eroded.sea_level(), 0);
    assert_eq!(eroded.dimensions(), RectDimension::new(5, 5));
    assert_eq!(eroded.num_tiles(), 25);
}

#[test]
fn a_lake_walled_in_to_the_border_gets_no_river() {
    let l = 100;
    let samples = vec![l, l, l, l, -50, l, l, l, l];
    let world = gen_base_map(&GenContext::new(params_for(3, 3, 28)), samples.clone()).unwrap();
    assert_eq!(world.sea_level(), 25);
    let eroded = erode(&world, &vec![0; 9]).unwrap();
    assert_eq!(eroded.rivers().len(), 0);
    assert_eq!(eroded.terrain().height_map, samples);
}

#[test]
fn a_world_without_lakes_is_searched_for_no_river() {
    let samples = vec![1, 2, 3, 4, 5, 6, 7, 8, 9, 10, 11, 12];
    let world = gen_base_map(&GenContext::new(params_for(4, 3, 100)), samples.clone()).unwrap();
    let eroded = erode(&world, &vec![0; 12]).unwrap();
    assert!(eroded.rivers().is_empty());
    assert_eq!(eroded.terrain().height_map, samples);
}

#[test]
fn every_cell_of_a_lake_is_the_source_of_a_river_in_the_order_of_the_cells() {
    let (o, l) = (-100, 100);
    let samples = vec![
        o, o, o, o, o, o, //
        o, l, l, l, l, o, //
        o, l, -50, -60, l, o, //
        o, l, l, l, l, o, //
        o, o, o, o, o, o,
    ];
    let world = gen_base_map(&GenContext::new(params_for(6, 5, 178)), samples).unwrap();
    assert_eq!(world.sea_level(), 0);
    let eroded = erode(&world, &vec![0; 30]).unwrap();
    assert_eq!(eroded.rivers().len(), 2);
    assert_eq!(eroded.rivers()[0].tiles()[0], 14);
    assert_eq!(eroded.rivers()[1].tiles()[0], 15);
    let after = classify_ocean(&eroded.terrain().height_map, 0, eroded.dimensions());
    assert!(after[14] && after[15]);
    for river in eroded.rivers() {
        for pair in river.tiles().windows(2) {
            assert!(cells_touch(pair[0], pair[1], 6));
        }
        assert_eq!(eroded.terrain().height_map[*river.tiles().last().unwrap() as usize], o);
    }
}

#[test]
fn rain_washes_a_twentieth_of_its_sample_off_the_land() {
    assert_eq!(RAIN_DIVISOR, 20);
    let heights = vec![100, 100, 100, 0, -5, 1, i32::MIN + 1];
    let samples = vec![40, -40, 19, 1000, 1000, 20, i32::MIN];
    assert_eq!(
        rain_erosion(&heights, 0, &samples),
        vec![98, 98, 100, 0, -5, 0, i32::MIN + 1]
    );
    // a cell of land goes no lower than an elevation can
    assert_eq!(rain_erosion(&vec![i32::MIN + 1], i32::MIN, &vec![i32::MAX]), vec![i32::MIN]);
}

#[test]
fn land_washed_below_the_sea_level_counts_as_sea() {
    let (o, l) = (-100, 100);
    let samples = vec![
        o, o, o, o, o, //
        o, l, l, l, o, //
        o, l, -50, 4, o, //
        o, l, l, l, o, //
        o, o, o, o, o,
    ];
    let world = gen_base_map(&GenContext::new(params_for(5, 5, 173)), samples).unwrap();
    assert_eq!(world.sea_level(), 0);
    let mut rain = vec![0; 25];
    rain[13] = -100;
    let eroded = erode(&world, &rain).unwrap();
    // the cell at 13 sinks to -1 and joins the ocean beside it: the lake at 12 with it
    assert!(eroded.rivers().is_empty());
    assert_eq!(eroded.terrain().height_map[13], -1);
    let after = classify_ocean(&eroded.terrain().height_map, 0, eroded.dimensions());
    assert!(after[12] && after[13]);
}

#[test]
fn rain_of_the_wrong_size_is_refused() {
    let world = island_with_a_lake();
    assert!(matches!(erode(&world, &vec![0; 24]), Err(GenError::SampleCount)));
    assert!(matches!(erode(&world, &vec![]), Err(GenError::SampleCount)));
}

#[test]
fn eroding_twice_keeps_the_rivers_of_the_first_time() {
    let world = island_with_a_lake();
    let once = erode(&world, &vec![0; 25]).unwrap();
    let twice = erode(&once, &vec![0; 25]).unwrap();
    assert_eq!(twice.rivers().len(), 1);
    assert_eq!(twice.rivers()[0].tiles(), once.rivers()[0].tiles());
    assert_eq!(twice.terrain().height_map, once.terrain().height_map);
}

#[test]
fn two_erosions_of_one_map_and_one_rain_agree() {
    let (o, l) = (-100, 100);
    let samples = vec![
        o, o, o, o, o, o, //
        o, l, l, l, l, o, //
        o, l, -50, -60, l, o, //
        o, l, l, l, l, o, //
        o, o, o, o, o, o,
    ];
    let world = gen_base_map(&GenContext::new(params_for(6, 5, 178)), samples).unwrap();
    let rain: Vec<i32> = (0..30).map(|k| k * 7 - 90).collect();
    let one = erode(&world, &rain).unwrap();
    let other = erode(&world, &rain).unwrap();
    assert_eq!(one.terrain().height_map, other.terrain().height_map);
    assert_eq!(one.rivers().len(), other.rivers().len());
    for (a, b) in one.rivers().iter().zip(other.rivers().iter()) {
        assert_eq!(a.tiles(), b.tiles());
    }
    assert_eq!((one.min_height(), one.max_height()), (other.min_height(), other.max_height()));
}

#[test]
fn no_bed_rises_on_its_way_and_none_from_its_source() {
    let (o, l) = (-100, 100);
    let samples = vec![
        o, o, o, o, o, o, o, //
        o, l, l, l, l, l, o, //
        o, l, -50, 30, -70, 9, o, //
        o, l, l, l, l, l, o, //
        o, o, o, o, o, o, o,
    ];
    let world = gen_base_map(&GenContext::new(params_for(7, 5, 165)), samples.clone()).unwrap();
    assert_eq!(world.sea_level(), 0);
    let eroded = erode(&world, &vec![0; 35]).unwrap();
    assert_eq!(eroded.rivers().len(), 2);
    let heights = &eroded.terrain().height_map;
    for river in eroded.rivers() {
        let tiles = river.tiles();
        for pair in tiles.windows(2) {
            assert!(heights[pair[1] as usize] <= heights[pair[0] as usize]);
        }
        let mut cells = tiles.clone();
        cells.sort();
        cells.dedup();
        assert_eq!(cells.len(), tiles.len());
        for t in tiles {
            assert!(heights[*t as usize] <= heights[tiles[0] as usize]);
            assert!(heights[*t as usize] <= samples[*t as usize]);
        }
    }
}

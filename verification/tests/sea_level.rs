use bracket_lib::noise::{FastNoise, FractalType, NoiseType};
use bracket_lib::random::RandomNumberGenerator;
use pirate_sim::worldgen::sea_level::{
    count_submerged, decide_sea_level, height_range, search_sea_level, CalibrationFailure,
};

fn sampled_grid(seed: u64, w: u8, h: u8) -> Vec<i32> {
    let mut rng = RandomNumberGenerator::seeded(seed);
    let mut noise = FastNoise::seeded(rng.next_u64());
    noise.set_noise_type(NoiseType::PerlinFractal);
    noise.set_fractal_type(FractalType::FBM);
    noise.set_fractal_octaves(10);
    noise.set_fractal_gain(0.5);
    noise.set_fractal_lacunarity(3.0);
    noise.set_frequency(2.0);
    let mut heights = Vec::new();
    for y in 0..h {
        for x in 0..w {
            let n = noise.get_noise(
                (x as f32 + 1.) / h as f32 * 2.,
                (y as f32 + 1.) / 100.,
            ) * w as f32
                * 2.;
            heights.push((n as f64 * 65536.0).round() as i32);
        }
    }
    heights
}

fn water_share(heights: &[i32], level: i32) -> f64 {
    heights.iter().filter(|h| **h <= level).count() as f64 / heights.len() as f64
}

#[test]
fn calibrates_a_sampled_grid_to_half_water() {
    let heights = sampled_grid(42, 10, 10);
    assert_eq!(heights.len(), 100);
    let level = decide_sea_level(&heights, 128).unwrap();
    let share = water_share(&heights, level);
    assert!((0.49..=0.51).contains(&share), "share is {}", share);
    let (low, high) = height_range(&heights);
    assert!(low <= level && level <= high);
}

#[test]
fn search_halves_its_range_with_every_step() {
    let heights = sampled_grid(42, 10, 10);
    let (low, high) = height_range(&heights);
    let (level, steps) = search_sea_level(&heights, 128, low, high);
    assert_eq!(level, Some(decide_sea_level(&heights, 128).unwrap()));
    let range = (high as i64 - low as i64 + 1) as f64;
    assert!(steps >= 1);
    assert!((steps as f64) <= range.log2() + 1.0, "{} steps for {} levels", steps, range);
}

#[test]
fn all_water_wanted_gives_the_highest_elevation() {
    let heights = vec![500, 900, 700, 650, 801, 999];
    assert_eq!(decide_sea_level(&heights, 255), Ok(999));
    assert_eq!(water_share(&heights, 999), 1.0);
}

#[test]
fn no_water_wanted_gives_the_lowest_elevation() {
    let heights = vec![500, 900, 700, 650, 801, 999];
    assert_eq!(decide_sea_level(&heights, 0), Ok(500));
}

#[test]
fn first_midpoint_within_tolerance_is_the_level() {
    assert_eq!(decide_sea_level(&vec![1, 2, 3, 4], 128), Ok(2));
    assert_eq!(search_sea_level(&vec![1, 2, 3, 4], 128, 1, 4), (Some(2), 1));
    // ten cells from 0 to 90: a fifth of water wanted is two cells, give or take one
    let heights: Vec<i32> = (0..10).map(|k| k * 10).collect();
    // midpoints: 45 (five cells, too wet), 22 (three cells: within tolerance)
    assert_eq!(search_sea_level(&heights, 51, 0, 90), (Some(22), 2));
    assert_eq!(decide_sea_level(&heights, 51), Ok(22));
}

#[test]
fn search_moves_up_where_the_midpoint_is_too_dry() {
    let heights: Vec<i32> = (0..10).map(|k| k * 10).collect();
    // nine cells wanted, give or take one: 45 (five cells), 68 (seven) and 79 (eight)
    // are too dry, 85 (nine) is within
    assert_eq!(search_sea_level(&heights, 230, 0, 90), (Some(85), 4));
}

#[test]
fn tied_elevations_make_the_bounds_cross() {
    let heights = vec![5, 5, 5, 5, 5, 5];
    assert_eq!(decide_sea_level(&heights, 128), Err(CalibrationFailure::BoundsCrossed));
    assert_eq!(search_sea_level(&heights, 128, 5, 5), (None, 1));
    // the two ends are clamped all the same
    assert_eq!(decide_sea_level(&heights, 0), Ok(5));
    assert_eq!(decide_sea_level(&heights, 255), Ok(5));
}

#[test]
fn empty_grid_has_no_sea_level() {
    assert_eq!(decide_sea_level(&vec![], 128), Err(CalibrationFailure::EmptyGrid));
    assert_eq!(decide_sea_level(&vec![], 0), Err(CalibrationFailure::EmptyGrid));
}

#[test]
fn empty_range_is_searched_in_no_step() {
    assert_eq!(search_sea_level(&vec![1, 2, 3], 128, 3, 1), (None, 0));
}

#[test]
fn search_copes_with_the_whole_range_of_elevations() {
    let heights = vec![i32::MIN, -7, 0, 12, i32::MAX];
    let level = decide_sea_level(&heights, 128).unwrap();
    let wet = count_submerged(&heights, level);
    assert!(wet == 2 || wet == 3);
    let (_, steps) = search_sea_level(&heights, 128, i32::MIN, i32::MAX);
    assert!(steps <= 33);
}

#[test]
fn counts_cells_at_or_below_a_level() {
    let heights = vec![3, -1, 4, 1, -5, 9];
    assert_eq!(count_submerged(&heights, 1), 3);
    assert_eq!(count_submerged(&heights, -6), 0);
    assert_eq!(count_submerged(&heights, 9), 6);
    assert_eq!(height_range(&heights), (-5, 9));
    assert_eq!(height_range(&vec![7]), (7, 7));
}

#[test]
fn calibration_stays_within_one_cell_of_the_target() {
    let heights = sampled_grid(7, 12, 9);
    let n = heights.len() as i64;
    for target in [1u8, 40, 100, 178, 254] {
        if let Ok(level) = decide_sea_level(&heights, target) {
            let wet = count_submerged(&heights, level) as i64;
            assert!((255 * wet - target as i64 * n).abs() <= 255);
        }
    }
}

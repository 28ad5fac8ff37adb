use bracket_lib::noise::{FastNoise, FractalType, NoiseType};
use pirate_sim::helpers::RectDimension;
use pirate_sim::render::{Color, OffsetX, OffsetY, RenderPacket, RenderTick};
use pirate_sim::worldgen::ocean::classify_ocean;
use pirate_sim::worldgen::polar::PolarPolicy;
use pirate_sim::worldgen::sea_level::CalibrationFailure;
use pirate_sim::worldgen::terrain::gen_base_map;
use pirate_sim::worldgen::{
    add_pole, gen_full_world, render_world, title_event, FullWorld, GenContext, GenError, GenEvent, GenOutcome,
    GenParam, GenRequest, GenStage, Generation, MissingStage, Pole,
};

fn world_params(seed: u64, w: u8, h: u8, target_water: u8) -> GenParam {
    GenParam {
        seed,
        target_water,
        max_ports: 20,
        max_civilizations: 4,
        world_size: RectDimension::new(w, h),
        max_polar_tiles: 400,
        min_polar_tiles: 280,
    }
}

fn still_policy() -> PolarPolicy {
    PolarPolicy { neighbor_weight: 1, edge_weight: 1, budget_weight: 1, roll_sides: 6 }
}

fn noise_field(seed: u64, dim: RectDimension, unit: f64) -> Vec<i32> {
    let mut noise = FastNoise::seeded(seed);
    noise.set_noise_type(NoiseType::PerlinFractal);
    noise.set_fractal_type(FractalType::FBM);
    noise.set_fractal_octaves(10);
    noise.set_fractal_gain(0.5);
    noise.set_fractal_lacunarity(3.0);
    noise.set_frequency(2.0);
    let mut field = Vec::new();
    for y in 0..dim.height {
        for x in 0..dim.width {
            let n = noise.get_noise(
                (x as f32 + 1.) / dim.height as f32 * 2.,
                (y as f32 + 1.) / 100.,
            ) * dim.width as f32
                * 2.;
            field.push((n as f64 * unit).round() as i32);
        }
    }
    field
}

fn run_generation(seed: u64) -> (Vec<i32>, FullWorld) {
    run_generation_of(world_params(seed, 24, 16, 128))
}

fn run_generation_of(params: GenParam) -> (Vec<i32>, FullWorld) {
    let (w, h) = (params.world_size.width, params.world_size.height);
    let cells = w as usize * h as usize;
    let mut generation = Generation::new(params, still_policy(), true);
    match gen_full_world(&mut generation, GenEvent::Begin) {
        GenRequest::RegisterTitle { packet: RenderPacket::RegisterGUIs(0, guis), timeout_seconds } => {
            assert_eq!(timeout_seconds, 3);
            assert_eq!(guis.len(), 2);
        }
        _ => panic!("the generation did not ask to show its title"),
    }
    assert_eq!(generation.stage(), GenStage::AwaitingTitle);
    let heights = match gen_full_world(&mut generation, GenEvent::TitleRegistered(vec![0, 1])) {
        GenRequest::SampleHeights { seed, dimensions } => {
            assert_eq!(dimensions, RectDimension::new(w, h));
            noise_field(seed, dimensions, 4096.0)
        }
        _ => panic!("the generation did not ask for the elevations"),
    };
    assert_eq!(generation.title_ids(), &Some(vec![0, 1]));
    assert_eq!(generation.stage(), GenStage::AwaitingHeights);
    let rain = match gen_full_world(&mut generation, GenEvent::Heights(heights.clone())) {
        GenRequest::SampleRain { seed, dimensions, show } => {
            match show {
                Some(RenderPacket::NewFrame(frame)) => {
                    assert_eq!(frame.dimensions, dimensions);
                    assert_eq!(frame.to_render.len(), cells);
                }
                _ => panic!("the base map is shown as a new frame"),
            }
            noise_field(seed, dimensions, 4096.0)
        }
        _ => panic!("the generation did not ask for the rain"),
    };
    assert_eq!(generation.stage(), GenStage::AwaitingRain);
    match gen_full_world(&mut generation, GenEvent::Rain(rain)) {
        GenRequest::Finished(GenOutcome::NotImplemented { stage, world }) => {
            assert_eq!(stage, MissingStage::Civilizations);
            assert_eq!(generation.stage(), GenStage::Done);
            (heights, world)
        }
        _ => panic!("the generation ends before the civilizations"),
    }
}

#[test]
fn a_seed_gives_one_world() {
    let (heights_a, a) = run_generation(42);
    let (heights_b, b) = run_generation(42);
    assert_eq!(heights_a, heights_b);
    assert_eq!(a.terrain().height_map, b.terrain().height_map);
    assert_eq!(a.sea_level(), b.sea_level());
    assert_eq!(a.rivers().len(), b.rivers().len());
    for (ra, rb) in a.rivers().iter().zip(b.rivers().iter()) {
        assert_eq!(ra.tiles(), rb.tiles());
    }
    assert_eq!(a.pole().frozen_tiles(), b.pole().frozen_tiles());
    let (heights_c, _) = run_generation(43);
    assert_ne!(heights_a, heights_c);
}

#[test]
fn the_generation_runs_to_the_first_stage_that_is_missing() {
    let (heights, world) = run_generation(7);
    assert_eq!(world.num_tiles(), heights.len());
    assert_eq!(world.dimensions(), RectDimension::new(24, 16));
    let low = *world.terrain().height_map.iter().min().unwrap();
    let high = *world.terrain().height_map.iter().max().unwrap();
    assert_eq!(world.min_height(), low);
    assert_eq!(world.max_height(), high);
    // the whole border is frozen
    let frozen = world.pole().frozen_tiles();
    for x in 0..24u8 {
        assert!(frozen.contains(&(x, 0)) && frozen.contains(&(x, 15)));
    }
    for y in 0..16u8 {
        assert!(frozen.contains(&(0, y)) && frozen.contains(&(23, y)));
    }
}

#[test]
fn the_rivers_of_a_large_world_drain_its_lakes() {
    let (heights, world) = run_generation_of(world_params(42, 100, 100, 178));
    assert_eq!(heights.len(), 10_000);
    let sea = world.sea_level();
    let wet = heights.iter().filter(|h| **h <= sea).count() as i64;
    assert!((255 * wet - 178 * 10_000).abs() <= 255);
    assert!(!world.rivers().is_empty());
    let eroded = &world.terrain().height_map;
    let open = classify_ocean(eroded, sea, world.dimensions());
    let mut last_source = None;
    for river in world.rivers() {
        let tiles = river.tiles();
        assert!(tiles.len() >= 2);
        assert!(last_source < Some(tiles[0]));
        last_source = Some(tiles[0]);
        for pair in tiles.windows(2) {
            let (ax, ay) = ((pair[0] % 100) as i64, (pair[0] / 100) as i64);
            let (bx, by) = ((pair[1] % 100) as i64, (pair[1] / 100) as i64);
            assert!(pair[0] != pair[1] && (ax - bx).abs() <= 1 && (ay - by).abs() <= 1);
        }
        for t in tiles {
            assert!(open[*t as usize]);
            assert!(eroded[*t as usize] <= sea);
        }
    }
    for (i, h) in eroded.iter().enumerate() {
        assert!(*h <= heights[i]);
    }
}

#[test]
fn an_event_out_of_turn_fails_and_changes_nothing() {
    let mut generation = Generation::new(world_params(1, 4, 4, 128), still_policy(), false);
    assert!(matches!(
        gen_full_world(&mut generation, GenEvent::Rain(vec![0; 16])),
        GenRequest::Failed(GenError::OutOfTurn)
    ));
    assert_eq!(generation.stage(), GenStage::Start);
    assert!(matches!(
        gen_full_world(&mut generation, GenEvent::Heights(vec![0; 16])),
        GenRequest::Failed(GenError::OutOfTurn)
    ));
    assert!(matches!(
        gen_full_world(&mut generation, GenEvent::TitleTimedOut),
        GenRequest::Failed(GenError::OutOfTurn)
    ));
    assert!(matches!(
        gen_full_world(&mut generation, GenEvent::Begin),
        GenRequest::SampleHeights { .. }
    ));
    assert!(matches!(
        gen_full_world(&mut generation, GenEvent::TitleRegistered(vec![])),
        GenRequest::Failed(GenError::OutOfTurn)
    ));
    assert!(matches!(
        gen_full_world(&mut generation, GenEvent::Begin),
        GenRequest::Failed(GenError::OutOfTurn)
    ));
    assert_eq!(generation.stage(), GenStage::AwaitingHeights);
}

#[test]
fn the_title_names_the_seed_and_a_display_that_stays_silent_is_no_failure() {
    let mut generation = Generation::new(world_params(1234567890, 4, 4, 128), still_policy(), true);
    match gen_full_world(&mut generation, GenEvent::Begin) {
        GenRequest::RegisterTitle { packet: RenderPacket::RegisterGUIs(priority, guis), .. } => {
            assert_eq!(priority, 0);
            let texts: Vec<String> = guis
                .iter()
                .map(|g| {
                    let frame = g.as_ref().unwrap().to_render.as_ref().unwrap();
                    frame.to_render.iter().map(|t| t.glyph()).collect()
                })
                .collect();
            assert_eq!(texts, vec!["Generating world!", "Seed: 1234567890"]);
            let title = guis[0].as_ref().unwrap();
            assert_eq!(title.offset, (OffsetX::Left(0), OffsetY::Above(1)));
            assert_eq!(title.to_render.as_ref().unwrap().dimensions, RectDimension::new(17, 3));
            let seed = guis[1].as_ref().unwrap();
            assert_eq!(seed.offset, (OffsetX::Left(0), OffsetY::Below(1)));
            assert_eq!(seed.to_render.as_ref().unwrap().dimensions, RectDimension::new(16, 3));
        }
        _ => panic!("the generation did not ask to show its title"),
    }
    assert!(matches!(
        gen_full_world(&mut generation, GenEvent::TitleTimedOut),
        GenRequest::SampleHeights { .. }
    ));
    assert_eq!(generation.title_ids(), &None);
    assert_eq!(generation.stage(), GenStage::AwaitingHeights);
}

#[test]
fn a_display_that_has_closed_is_shown_nothing_further() {
    let mut generation = Generation::new(world_params(3, 3, 2, 128), still_policy(), true);
    gen_full_world(&mut generation, GenEvent::Begin);
    assert!(matches!(
        gen_full_world(&mut generation, GenEvent::DisplayClosed),
        GenRequest::SampleHeights { .. }
    ));
    assert!(matches!(
        gen_full_world(&mut generation, GenEvent::Heights(vec![1, 2, 3, 4, 5, 6])),
        GenRequest::SampleRain { show: None, .. }
    ));
    assert!(matches!(
        gen_full_world(&mut generation, GenEvent::DisplayClosed),
        GenRequest::Failed(GenError::OutOfTurn)
    ));
    assert_eq!(generation.stage(), GenStage::AwaitingRain);
}

#[test]
fn the_answer_of_the_display_is_read_as_an_event() {
    assert!(matches!(
        title_event(Some(RenderTick::RegisteredGUIs(0, vec![4, 5]))),
        GenEvent::TitleRegistered(ids) if ids == vec![4, 5]
    ));
    assert!(matches!(title_event(Some(RenderTick::LoopClosed)), GenEvent::DisplayClosed));
    assert!(matches!(title_event(Some(RenderTick::RegisteredGUI(0, 4))), GenEvent::TitleTimedOut));
    assert!(matches!(title_event(None), GenEvent::TitleTimedOut));
}

#[test]
fn without_a_display_nothing_is_shown() {
    let mut generation = Generation::new(world_params(3, 3, 2, 128), still_policy(), false);
    assert!(matches!(
        gen_full_world(&mut generation, GenEvent::Begin),
        GenRequest::SampleHeights { .. }
    ));
    assert!(matches!(
        gen_full_world(&mut generation, GenEvent::Heights(vec![1, 2, 3, 4, 5, 6])),
        GenRequest::SampleRain { show: None, .. }
    ));
}

#[test]
fn a_field_that_gives_no_finite_number_ends_the_generation() {
    let mut generation = Generation::new(world_params(1, 3, 2, 128), still_policy(), false);
    assert!(matches!(
        gen_full_world(&mut generation, GenEvent::NonFiniteSample),
        GenRequest::Failed(GenError::OutOfTurn)
    ));
    gen_full_world(&mut generation, GenEvent::Begin);
    assert!(matches!(
        gen_full_world(&mut generation, GenEvent::NonFiniteSample),
        GenRequest::Failed(GenError::NonFiniteSample)
    ));
    assert_eq!(generation.stage(), GenStage::Done);
    let mut generation = Generation::new(world_params(1, 3, 2, 128), still_policy(), false);
    gen_full_world(&mut generation, GenEvent::Begin);
    gen_full_world(&mut generation, GenEvent::Heights(vec![1, 2, 3, 4, 5, 6]));
    assert!(matches!(
        gen_full_world(&mut generation, GenEvent::NonFiniteSample),
        GenRequest::Failed(GenError::NonFiniteSample)
    ));
    assert_eq!(generation.stage(), GenStage::Done);
    assert!(matches!(
        gen_full_world(&mut generation, GenEvent::Begin),
        GenRequest::Failed(GenError::OutOfTurn)
    ));
}

#[test]
fn a_world_without_width_or_height_is_rejected_before_sampling() {
    for (w, h) in [(0u8, 5u8), (5, 0), (0, 0)] {
        let mut generation = Generation::new(world_params(1, w, h, 128), still_policy(), true);
        assert!(matches!(
            gen_full_world(&mut generation, GenEvent::Begin),
            GenRequest::Failed(GenError::InvalidDimensions)
        ));
        assert_eq!(generation.stage(), GenStage::Done);
        let context = GenContext::new(world_params(1, w, h, 128));
        assert!(matches!(gen_base_map(&context, vec![]), Err(GenError::InvalidDimensions)));
    }
}

#[test]
fn failures_of_the_base_map_end_the_generation() {
    let mut generation = Generation::new(world_params(1, 3, 2, 128), still_policy(), false);
    gen_full_world(&mut generation, GenEvent::Begin);
    assert!(matches!(
        gen_full_world(&mut generation, GenEvent::Heights(vec![1, 2, 3])),
        GenRequest::Failed(GenError::SampleCount)
    ));
    assert_eq!(generation.stage(), GenStage::Done);
    let mut generation = Generation::new(world_params(1, 3, 2, 128), still_policy(), false);
    gen_full_world(&mut generation, GenEvent::Begin);
    assert!(matches!(
        gen_full_world(&mut generation, GenEvent::Heights(vec![4; 6])),
        GenRequest::Failed(GenError::Calibration(CalibrationFailure::BoundsCrossed))
    ));
    let mut generation = Generation::new(world_params(1, 3, 2, 128), still_policy(), false);
    gen_full_world(&mut generation, GenEvent::Begin);
    gen_full_world(&mut generation, GenEvent::Heights(vec![1, 2, 3, 4, 5, 6]));
    assert!(matches!(
        gen_full_world(&mut generation, GenEvent::Rain(vec![0; 5])),
        GenRequest::Failed(GenError::SampleCount)
    ));
    assert_eq!(generation.stage(), GenStage::Done);
}

#[test]
fn the_base_map_holds_the_samples_the_sea_level_and_the_extremes() {
    let context = GenContext::new(world_params(9, 5, 2, 51));
    assert_eq!(context.params().seed, 9);
    let samples: Vec<i32> = (0..10).map(|k| k * 10).collect();
    let world = gen_base_map(&context, samples.clone()).unwrap();
    assert_eq!(world.dimensions(), RectDimension::new(5, 2));
    assert_eq!(world.num_tiles(), 10);
    assert_eq!(world.sea_level(), 22);
    assert_eq!(world.min_height(), 0);
    assert_eq!(world.max_height(), 90);
    assert_eq!(world.terrain().height_map, samples);
    assert_eq!(world.terrain().sea_level, 22);
    assert!(world.rivers().is_empty());
    assert!(world.terrain().rivers.is_empty());
    assert!(world.pole().frozen_tiles().is_empty());
    assert!(Pole::new().frozen_tiles().is_empty());
    assert!(matches!(
        gen_base_map(&context, vec![0; 9]),
        Err(GenError::SampleCount)
    ));
    assert!(matches!(
        gen_base_map(&context, vec![3; 10]),
        Err(GenError::Calibration(CalibrationFailure::BoundsCrossed))
    ));
}

#[test]
fn the_context_hands_out_its_seeds_in_one_order() {
    let mut a = GenContext::new(world_params(42, 4, 4, 128));
    let mut b = GenContext::new(world_params(42, 4, 4, 128));
    let first = a.draw_seed();
    let second = a.draw_seed();
    assert_eq!(first, b.draw_seed());
    assert_eq!(second, b.draw_seed());
    assert_ne!(first, second);
    let mut c = GenContext::new(world_params(43, 4, 4, 128));
    assert_ne!(first, c.draw_seed());
    assert_eq!(a.params().target_water, 128);
}

#[test]
fn the_stages_draw_their_seeds_in_turn_from_the_run_seed() {
    let params = world_params(42, 3, 2, 128);
    let mut context = GenContext::new(params);
    let draws = [context.draw_seed(), context.draw_seed(), context.draw_seed()];
    for display in [false, true] {
        let mut generation = Generation::new(params, still_policy(), display);
        let mut request = gen_full_world(&mut generation, GenEvent::Begin);
        if display {
            request = gen_full_world(&mut generation, GenEvent::TitleTimedOut);
        }
        match request {
            GenRequest::SampleHeights { seed, .. } => assert_eq!(seed, draws[0]),
            _ => panic!("the generation did not ask for the elevations"),
        }
        // the second draw seeds the dice of the pole
        match gen_full_world(&mut generation, GenEvent::Heights(vec![1, 2, 3, 4, 5, 6])) {
            GenRequest::SampleRain { seed, .. } => assert_eq!(seed, draws[2]),
            _ => panic!("the generation did not ask for the rain"),
        }
    }
}

#[test]
fn the_sea_is_shown_in_blue_and_the_land_as_mountains() {
    let context = GenContext::new(world_params(9, 5, 2, 128));
    let samples = vec![-40, -20, 0, 10, 20, 30, 40, 50, 60, 70];
    let world = gen_base_map(&context, samples).unwrap();
    assert_eq!(world.sea_level(), 29);
    let frame = render_world(&world);
    assert_eq!(frame.dimensions, RectDimension::new(5, 2));
    assert_eq!(frame.to_render.len(), 10);
    let black = Color { r: 0, g: 0, b: 0, a: 255 };
    // the deepest cell is black, the sea darkens with the depth: the sea
    // is 69 deep, and the cells lie 69, 49, 19 and 9 below its level
    assert_eq!(frame.to_render[0].glyph(), '~');
    assert_eq!(frame.to_render[0].fg(), Color { r: 0, g: 0, b: 0, a: 255 });
    assert_eq!(frame.to_render[1].fg(), Color { r: 0, g: 0, b: 255 - 181, a: 255 });
    assert_eq!(frame.to_render[3].fg(), Color { r: 0, g: 0, b: 255 - 70, a: 255 });
    assert_eq!(frame.to_render[4].glyph(), '~');
    assert_eq!(frame.to_render[4].fg(), Color { r: 0, g: 0, b: 255 - 33, a: 255 });
    // the land is a mountain, the more opaque the higher: the peak is 41
    // above the sea, and the cells lie 1, 11, 31 and 41 above its level
    assert_eq!(frame.to_render[5].glyph(), '^');
    assert_eq!(frame.to_render[5].fg(), Color { r: 255, g: 191, b: 0, a: 127 + 6 });
    assert_eq!(frame.to_render[6].fg(), Color { r: 255, g: 191, b: 0, a: 127 + 68 });
    assert_eq!(frame.to_render[8].fg(), Color { r: 255, g: 191, b: 0, a: 255 });
    assert_eq!(frame.to_render[9].fg(), Color { r: 255, g: 191, b: 0, a: 255 });
    for tile in &frame.to_render {
        assert_eq!(tile.bg(), black);
    }
}

#[test]
fn the_border_ring_freezes_first() {
    let mut context = GenContext::new(world_params(5, 6, 4, 128));
    let mut world = gen_base_map(&context, (0..24).collect()).unwrap();
    let never = PolarPolicy { neighbor_weight: 0, edge_weight: 0, budget_weight: 0, roll_sides: 6 };
    add_pole(&mut world, &mut context, &never);
    let frozen = world.pole().frozen_tiles().clone();
    assert_eq!(frozen.len(), 2 * 6 + 2 * 4 - 4);
    for (x, y) in &frozen {
        assert!(*x == 0 || *y == 0 || *x == 5 || *y == 3);
    }
    let mut sorted = frozen.clone();
    sorted.sort();
    sorted.dedup();
    assert_eq!(sorted.len(), frozen.len());
    // the terrain is left alone
    assert_eq!(world.terrain().height_map, (0..24).collect::<Vec<i32>>());
}

#[test]
fn a_policy_that_beats_every_roll_freezes_the_rings_up_to_half_the_side() {
    let mut context = GenContext::new(world_params(5, 6, 6, 128));
    let mut world = gen_base_map(&context, (0..36).collect()).unwrap();
    // the score is the closeness to the border, which is one at least;
    // the only roll of a die with one side is zero
    let always = PolarPolicy { neighbor_weight: 0, edge_weight: 1, budget_weight: 0, roll_sides: 1 };
    add_pole(&mut world, &mut context, &always);
    let frozen = world.pole().frozen_tiles();
    // rings 0, 1 and 2 of a six by six world are all of it
    assert_eq!(frozen.len(), 36);
    let mut context = GenContext::new(world_params(5, 7, 7, 128));
    let mut world = gen_base_map(&context, (0..49).collect()).unwrap();
    add_pole(&mut world, &mut context, &always);
    // the cell in the middle lies in ring 3, beyond half of the side
    assert_eq!(world.pole().frozen_tiles().len(), 48);
    assert!(!world.pole().frozen_tiles().contains(&(3, 3)));
}

#[test]
fn no_more_cells_freeze_than_the_parameters_allow() {
    let mut params = world_params(5, 8, 8, 128);
    params.max_polar_tiles = 30;
    let mut context = GenContext::new(params);
    let mut world = gen_base_map(&context, (0..64).collect()).unwrap();
    let always = PolarPolicy { neighbor_weight: 0, edge_weight: 1, budget_weight: 0, roll_sides: 1 };
    add_pole(&mut world, &mut context, &always);
    // 28 cells of the border, and two more
    assert_eq!(world.pole().frozen_tiles().len(), 30);
    // a maximum below the size of the border stops the border ring too,
    // in the order of its cells
    params.max_polar_tiles = 10;
    let mut context = GenContext::new(params);
    let mut world = gen_base_map(&context, (0..64).collect()).unwrap();
    add_pole(&mut world, &mut context, &always);
    assert_eq!(
        world.pole().frozen_tiles(),
        &vec![(0, 0), (1, 0), (2, 0), (3, 0), (4, 0), (5, 0), (6, 0), (7, 0), (0, 1), (7, 1)]
    );
}

#[test]
fn a_maximum_of_no_cell_freezes_no_cell() {
    for (w, h) in [(1u8, 1u8), (8, 8)] {
        let mut params = world_params(5, w, h, 128);
        params.max_polar_tiles = 0;
        let mut context = GenContext::new(params);
        let cells = w as i32 * h as i32;
        let mut world = gen_base_map(&context, (0..cells).collect()).unwrap();
        add_pole(&mut world, &mut context, &still_policy());
        assert!(world.pole().frozen_tiles().is_empty());
    }
}

#[test]
fn a_candidate_freezes_where_its_score_beats_the_roll() {
    let policy = PolarPolicy { neighbor_weight: 3, edge_weight: 5, budget_weight: 2, roll_sides: 20 };
    // 4 * 3 + 2 * 5 - 6 * 2 = 10
    assert!(policy.accepts(4, 2, 6, 9));
    assert!(!policy.accepts(4, 2, 6, 10));
    assert!(!policy.accepts(0, 0, 1, 0));
    let heavy = PolarPolicy {
        neighbor_weight: u32::MAX,
        edge_weight: u32::MAX,
        budget_weight: u32::MAX,
        roll_sides: 1,
    };
    assert!(heavy.accepts(255, 255, 508, u32::MAX));
    assert!(!heavy.accepts(255, 255, 509, u32::MAX));
    assert!(heavy.accepts(255, 255, 509, u32::MAX - 1));
    assert!(!heavy.accepts(255, 255, 510, 0));
    assert!(!heavy.accepts(0, 0, u32::MAX, 0));
}

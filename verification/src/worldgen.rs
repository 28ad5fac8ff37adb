//! World generation: from a seed and a set of parameters to a terrain with
//! a sea, lakes and rivers.
pub mod drainage;
pub mod ocean;
pub mod polar;
pub mod sea_level;
pub mod terrain;

use vstd::prelude::*;
use crate::helpers::{Distance, RectDimension};
use bracket_lib::random::RandomNumberGenerator;
use crate::render::{
    byte_length, plain_tile, string_dimensions, string_to_frame, Color, Frame, OffsetX, OffsetY,
    RenderPacket, RenderTick, Tile, TileView, GUI,
};
use crate::seed::{decimal_chars, seed_text};
use crate::worldgen::polar::{freeze, frozen_by, pole_ok, PolarPolicy};
use crate::worldgen::sea_level::CalibrationFailure;
use crate::worldgen::terrain::{
    base_world, erode, eroded, gen_base_map, lakes_drained, rivers_reach_ocean, MapView, River,
};
pub use crate::worldgen::terrain::TerrainMap;

verus! {

/// A map with civilizations, history and all else that makes it playable
/// by a player.
pub struct Region {}

/// How many poles a world has.
pub enum Poles {
    Random,
    One,
    Two,
}

/// The parameters for generating a world.
#[derive(Debug, Clone, Copy)]
pub struct GenParam {
    /// The seed to use during world generation.
    pub seed: u64,
    /// What share of the world should be water, in parts of 255, give or
    /// take one cell.
    pub target_water: u8,
    /// The maximum amount of ports to generate.
    pub max_ports: u8,
    /// The maximum amount of civilizations to generate.
    pub max_civilizations: u8,
    /// The total size of the world.
    pub world_size: RectDimension,
    /// The range of possible polar tiles.
    pub max_polar_tiles: u32,
    pub min_polar_tiles: u32,
}

/// Why a stage of the generation gave no world.
#[derive(Debug, Clone, Copy, PartialEq, Eq, Structural)]
pub enum GenError {
    /// The world has no width or no height.
    InvalidDimensions,
    /// The samples handed in are not one for each cell.
    SampleCount,
    /// No sea level could be decided.
    Calibration(CalibrationFailure),
    /// A sampled field held a value that is no finite number: the field
    /// is misconfigured.
    NonFiniteSample,
    /// What was handed in is not what the generation was waiting for.
    OutOfTurn,
}

/// The random number generator of `bracket_lib`, `RandomNumberGenerator`.
/// Nothing is known of what it holds but what [`seeded_from`] and
/// [`number_ahead`] name.
#[verifier::external_type_specification]
#[verifier::external_body]
pub struct ExRandomNumberGenerator(bracket_lib::random::RandomNumberGenerator);

/// The generator that `RandomNumberGenerator::seeded` makes of a seed. A
/// seed gives one generator, on every machine: the seed alone fills the
/// generator's state.
pub uninterp spec fn seeded_from(seed: u64) -> RandomNumberGenerator;

/// The number that `RandomNumberGenerator::next_u64` returns on a generator
/// after `ahead` earlier calls of it. The numbers to come are a matter of
/// the generator's state alone, and each call moves the state one number on.
pub uninterp spec fn number_ahead(rng: RandomNumberGenerator, ahead: nat) -> u64;

/// Calls `RandomNumberGenerator::seeded`, which makes the generator of the
/// given seed.
#[verifier::external_body]
fn seeded_generator(seed: u64) -> (rng: RandomNumberGenerator)
    ensures
        rng == seeded_from(seed),
{
    RandomNumberGenerator::seeded(seed)
}

/// Calls `RandomNumberGenerator::next_u64`, which returns the generator's
/// next number and moves the generator on by that one number.
#[verifier::external_body]
fn next_number(rng: &mut RandomNumberGenerator) -> (number: u64)
    ensures
        number == number_ahead(*old(rng), 0),
        forall|ahead: nat| #[trigger]
            number_ahead(*final(rng), ahead) == number_ahead(*old(rng), ahead + 1),
{
    rng.next_u64()
}

/// The seed that the draw number `draw` of a generation with the run seed
/// `seed` gives, counted from 0: a run seed fixes the seed of every stage.
pub open spec fn stage_seed(seed: u64, draw: nat) -> u64 {
    number_ahead(seeded_from(seed), draw)
}

/// Whether the generator `after` is the generator `before` moved on by so
/// many draws: whether its numbers to come are those of `before` but the
/// first so many.
pub open spec fn moved_on(
    before: RandomNumberGenerator,
    after: RandomNumberGenerator,
    draws: nat,
) -> bool {
    forall|ahead: nat| #[trigger]
        number_ahead(after, ahead) == number_ahead(before, ahead + draws)
}

/// The mutable context necessary for all world generation functions: the
/// parameters, and the generator that every stage draws its own seed from,
/// so that a stage that draws more or less does not disturb the others.
pub struct GenContext {
    pub(crate) rng: RandomNumberGenerator,
    pub(crate) params: GenParam,
}

impl View for GenContext {
    type V = GenParam;

    open(crate) spec fn view(&self) -> GenParam {
        self.params
    }
}

impl GenContext {
    /// The generator that the stages draw their seeds from.
    pub open(crate) spec fn generator(&self) -> RandomNumberGenerator {
        self.rng
    }

    /// The seed that the draw after `ahead` further draws gives.
    pub open spec fn upcoming(&self, ahead: nat) -> u64 {
        number_ahead(self.generator(), ahead)
    }

    /// The context of a generation with the given parameters. Its
    /// generator is the one of the seed of the parameters, so that its
    /// draws give the stage seeds of that run seed.
    pub fn new(params: GenParam) -> (r: Self)
        ensures
            r@ == params,
            r.generator() == seeded_from(params.seed),
            forall|ahead: nat| #[trigger] r.upcoming(ahead) == stage_seed(params.seed, ahead),
    {
        GenContext { rng: seeded_generator(params.seed), params }
    }

    /// The parameters of the generation.
    pub fn params(&self) -> (r: &GenParam)
        ensures
            *r == self@,
    {
        &self.params
    }

    /// Draws the seed of the next stage from the generator: the first of
    /// the seeds that were to come, which leaves the others to come.
    pub fn draw_seed(&mut self) -> (seed: u64)
        ensures
            seed == old(self).upcoming(0),
            moved_on(old(self).generator(), final(self).generator(), 1),
            final(self)@ == old(self)@,
    {
        next_number(&mut self.rng)
    }
}

/// The frozen cells of a world.
pub struct Pole {
    pub(crate) frozen_tiles: Vec<(u8, u8)>,
}

impl View for Pole {
    type V = Seq<(u8, u8)>;

    open(crate) spec fn view(&self) -> Seq<(u8, u8)> {
        self.frozen_tiles@
    }
}

impl Pole {
    /// A pole without a frozen cell.
    pub fn new() -> (r: Self)
        ensures
            r@ == Seq::<(u8, u8)>::empty(),
    {
        Pole { frozen_tiles: Vec::new() }
    }

    /// The frozen cells, each as `(x, y)`.
    pub fn frozen_tiles(&self) -> (r: &Vec<(u8, u8)>)
        ensures
            r@ == self@,
    {
        &self.frozen_tiles
    }
}

/// A world as contracts see it: the terrain, the rivers and the frozen
/// cells.
pub struct WorldView {
    pub terrain: MapView,
    pub rivers: Seq<Seq<int>>,
    pub frozen: Seq<(u8, u8)>,
}

impl WorldView {
    /// The terrain is well formed, and the rivers of the world are those
    /// of its terrain.
    pub open spec fn wf(self) -> bool {
        &&& self.terrain.wf()
        &&& self.rivers == self.terrain.rivers
    }
}

/// A terrain with what lies on it.
pub struct FullWorld {
    pub(crate) terrain: TerrainMap,
    pub(crate) rivers: Vec<River>,
    pub(crate) pole: Pole,
}

impl View for FullWorld {
    type V = WorldView;

    open(crate) spec fn view(&self) -> WorldView {
        WorldView {
            terrain: self.terrain@,
            rivers: crate::worldgen::terrain::rivers_view(self.rivers@),
            frozen: self.pole@,
        }
    }
}

impl FullWorld {
    /// Every world is well formed.
    #[verifier::type_invariant]
    spec fn well_formed(self) -> bool {
        self@.wf()
    }

    // mainly getters for various sub-elements
    pub fn dimensions(&self) -> (r: RectDimension)
        ensures
            r == self@.terrain.dimensions,
    {
        self.terrain.dimensions
    }

    pub fn num_tiles(&self) -> (r: usize)
        ensures
            r == self@.terrain.heights.len(),
    {
        self.terrain.height_map.len()
    }

    pub fn max_height(&self) -> (r: i32)
        ensures
            r == self@.terrain.max_height,
    {
        self.terrain.max_height
    }

    pub fn min_height(&self) -> (r: i32)
        ensures
            r == self@.terrain.min_height,
    {
        self.terrain.min_height
    }

    /// The level at and below which a cell is under water.
    pub fn sea_level(&self) -> (r: i32)
        ensures
            r == self@.terrain.sea_level,
    {
        self.terrain.sea_level
    }

    /// The terrain of the world. A world is well formed: its terrain is,
    /// and its rivers are those of its terrain.
    pub fn terrain(&self) -> (r: &TerrainMap)
        ensures
            r@ == self@.terrain,
            self@.wf(),
    {
        proof {
            use_type_invariant(self);
        }
        &self.terrain
    }

    /// The rivers of the world.
    pub fn rivers(&self) -> (r: &Vec<River>)
        ensures
            crate::worldgen::terrain::rivers_view(r@) == self@.rivers,
    {
        &self.rivers
    }

    /// The frozen cells of the world.
    pub fn pole(&self) -> (r: &Pole)
        ensures
            r@ == self@.frozen,
    {
        &self.pole
    }
}


/// Marks the frozen cells of a world, never more than the parameters allow:
/// the border ring first, in the order of its cells, and from there
/// inward, ring by ring up to half of the shorter side, the cells that the
/// policy accepts on a roll of the dice. The dice are seeded with one seed
/// drawn from the context's generator, so that one run seed gives one
/// pole.
pub fn add_pole(base_map: &mut FullWorld, context: &mut GenContext, policy: &PolarPolicy)
    ensures
        final(base_map)@.terrain == old(base_map)@.terrain,
        final(base_map)@.rivers == old(base_map)@.rivers,
        pole_ok(
            old(base_map)@.terrain.dimensions,
            old(context)@.max_polar_tiles,
            *policy,
            final(base_map)@.frozen,
        ),
        final(base_map)@.frozen == frozen_by(
            old(base_map)@.terrain.dimensions,
            old(context)@.max_polar_tiles,
            *policy,
            seeded_from(old(context).upcoming(0)),
        ),
        final(context)@ == old(context)@,
        moved_on(old(context).generator(), final(context).generator(), 1),
{
    proof {
        use_type_invariant(&*base_map);
    }
    let mut rng = seeded_generator(context.draw_seed());
    let frozen = freeze(
        base_map.terrain.dimensions,
        context.params.max_polar_tiles,
        policy,
        &mut rng,
    );
    base_map.pole = Pole { frozen_tiles: frozen };
}

/// How far `part` goes into `whole`, in parts of 255: nothing where
/// `whole` is nothing, and 255 at most.
pub open spec fn share_of(part: int, whole: int) -> int {
    if whole <= 0 || part <= 0 {
        0
    } else if part >= whole {
        255
    } else {
        255 * part / whole
    }
}

/// The tile that shows a cell of the given elevation: the sea in blue, the
/// darker the deeper, and the land as a mountain, the more opaque the
/// higher.
pub open spec fn terrain_tile(height: i32, sea: i32, lowest: i32, highest: i32) -> TileView {
    if height <= sea {
        TileView {
            glyph: '~',
            fg: Color { r: 0, g: 0, b: (255 - share_of(sea - height, sea - lowest)) as u8, a: 255 },
            bg: Color { r: 0, g: 0, b: 0, a: 255 },
        }
    } else {
        TileView {
            glyph: '^',
            fg: Color {
                r: 255,
                g: 191,
                b: 0,
                a: (if 127 + share_of(height - sea, highest - sea) > 255 {
                    255
                } else {
                    127 + share_of(height - sea, highest - sea)
                }) as u8,
            },
            bg: Color { r: 0, g: 0, b: 0, a: 255 },
        }
    }
}

/// Whether `frame` shows the terrain: a tile for each cell.
pub open spec fn shows_terrain(frame: Frame, terrain: MapView) -> bool {
    &&& frame.dimensions == terrain.dimensions
    &&& frame.to_render.len() == terrain.heights.len()
    &&& forall|i: int|
        0 <= i < terrain.heights.len() ==> (#[trigger] frame.to_render[i])@ == terrain_tile(
            terrain.heights[i],
            terrain.sea_level,
            terrain.min_height,
            terrain.max_height,
        )
}

/// How far `part` goes into `whole`, in parts of 255.
fn share(part: i64, whole: i64) -> (r: u8)
    requires
        -0x1_0000_0000 <= part <= 0x1_0000_0000,
        -0x1_0000_0000 <= whole <= 0x1_0000_0000,
    ensures
        r == share_of(part as int, whole as int),
{
    if whole <= 0 || part <= 0 {
        0
    } else if part >= whole {
        255
    } else {
        proof {
            let p = part as int;
            let w = whole as int;
            assert(0 <= (255 * p) / w < 255) by (nonlinear_arith)
                requires
                    0 < p < w,
            ;
        }
        let r: i64 = 255 * part / whole;
        r as u8
    }
}

/// Makes the frame that shows the terrain of a world.
pub fn render_world(world: &FullWorld) -> (frame: Frame)
    ensures
        shows_terrain(frame, world@.terrain),
{
    let sea: i32 = world.terrain.sea_level;
    let lowest: i32 = world.terrain.min_height;
    let highest: i32 = world.terrain.max_height;
    let mut tiles: Vec<Tile> = Vec::new();
    let mut i: usize = 0;
    while i < world.terrain.height_map.len()
        invariant
            i <= world.terrain.height_map.len(),
            sea == world.terrain.sea_level,
            lowest == world.terrain.min_height,
            highest == world.terrain.max_height,
            tiles.len() == i,
            forall|k: int|
                0 <= k < i ==> (#[trigger] tiles[k])@ == terrain_tile(
                    world.terrain.height_map[k],
                    sea,
                    lowest,
                    highest,
                ),
        decreases world.terrain.height_map.len() - i,
    {
        let height: i32 = world.terrain.height_map[i];
        let tile = if height <= sea {
            let depth: u8 = share(
                <i64 as Distance>::distance(sea as i64, height as i64),
                sea as i64 - lowest as i64,
            );
            Tile::new('~', Color { r: 0, g: 0, b: 255 - depth, a: 255 }, Color::black())
        } else {
            let rise: u8 = share(
                <i64 as Distance>::distance(sea as i64, height as i64),
                highest as i64 - sea as i64,
            );
            let opacity: u8 = if rise > 128 {
                255
            } else {
                127 + rise
            };
            Tile::new('^', Color { r: 255, g: 191, b: 0, a: opacity }, Color::black())
        };
        tiles.push(tile);
        i = i + 1;
    }
    Frame { to_render: tiles, dimensions: world.terrain.dimensions }
}

/// A stage of the generation that does not exist yet.
#[derive(Debug, Clone, Copy, PartialEq, Eq, Structural)]
pub enum MissingStage {
    Civilizations,
    Ports,
    History,
}

/// How a generation ended.
pub enum GenOutcome {
    /// Every stage ran.
    Complete(Region),
    /// The generation stopped before `stage`, which is not implemented
    /// yet. `world` is what the stages before it made.
    NotImplemented { stage: MissingStage, world: FullWorld },
}

/// Where a generation stands.
#[derive(Debug, Clone, Copy, PartialEq, Eq, Structural)]
pub enum GenStage {
    /// Nothing has been asked for yet.
    Start,
    /// The display has been asked to show the title.
    AwaitingTitle,
    /// The elevations have been asked for.
    AwaitingHeights,
    /// The base map is made, and the rain has been asked for.
    AwaitingRain,
    /// The generation has ended.
    Done,
}

/// What is handed to a generation to move it on.
pub enum GenEvent {
    /// The generation is to start.
    Begin,
    /// The display has confirmed the overlays of the title with these ids.
    TitleRegistered(Vec<usize>),
    /// The display has not confirmed the overlays of the title in time.
    TitleTimedOut,
    /// The display has closed.
    DisplayClosed,
    /// The elevations sampled for the cells, row by row.
    Heights(Vec<i32>),
    /// The rain sampled for the cells, row by row.
    Rain(Vec<i32>),
    /// The field that was to be sampled gave a value that is no finite
    /// number.
    NonFiniteSample,
}

/// What a generation asks of whoever runs it, or how it ended.
pub enum GenRequest {
    /// Send the packet to the display, and wait for it to confirm the
    /// overlays, for so many seconds at most.
    RegisterTitle { packet: RenderPacket, timeout_seconds: u64 },
    /// Sample an elevation for each cell from the field of this seed.
    SampleHeights { seed: u64, dimensions: RectDimension },
    /// Show the base map, where there is a display, and sample the rain
    /// for each cell from the field of this seed.
    SampleRain { seed: u64, dimensions: RectDimension, show: Option<RenderPacket> },
    /// The generation has ended.
    Finished(GenOutcome),
    /// The generation has failed.
    Failed(GenError),
}

/// The generation of a whole world, from terrain and geography on, as far
/// as it is implemented: what it knows between two of its steps.
pub struct Generation {
    pub(crate) context: GenContext,
    pub(crate) policy: PolarPolicy,
    pub(crate) display: bool,
    pub(crate) stage: GenStage,
    pub(crate) title: Option<Vec<usize>>,
    pub(crate) world: Option<FullWorld>,
}

/// A generation as contracts see it: its parameters, the generator that
/// its stages draw their seeds from, the policy of its pole, whether a
/// display shows it, where it stands, the ids under which the display
/// tracks its title, and the world that it has made so far.
pub struct GenerationView {
    pub params: GenParam,
    pub generator: RandomNumberGenerator,
    pub policy: PolarPolicy,
    pub display: bool,
    pub stage: GenStage,
    pub title: Option<Seq<usize>>,
    pub world: Option<WorldView>,
}

impl GenerationView {
    /// While the rain is awaited the base map is there, well formed and of
    /// the dimensions of the parameters, and else no world is kept.
    pub open spec fn wf(self) -> bool {
        match self.world {
            Some(world) => self.stage == GenStage::AwaitingRain && world.wf()
                && world.terrain.dimensions == self.params.world_size,
            None => self.stage != GenStage::AwaitingRain,
        }
    }
}

impl View for Generation {
    type V = GenerationView;

    open(crate) spec fn view(&self) -> GenerationView {
        GenerationView {
            params: self.context@,
            generator: self.context.generator(),
            policy: self.policy,
            display: self.display,
            stage: self.stage,
            title: match self.title {
                Some(ids) => Some(ids@),
                None => None,
            },
            world: match self.world {
                Some(world) => Some(world@),
                None => None,
            },
        }
    }
}

/// Whether `world` is the base map of the given view with its pole added,
/// the dice of the pole seeded with `dice_seed`.
pub open spec fn with_pole(
    params: GenParam,
    policy: PolarPolicy,
    dice_seed: u64,
    base: WorldView,
    world: WorldView,
) -> bool {
    &&& world.terrain == base.terrain
    &&& world.rivers == base.rivers
    &&& pole_ok(params.world_size, params.max_polar_tiles, policy, world.frozen)
    &&& world.frozen == frozen_by(
        params.world_size,
        params.max_polar_tiles,
        policy,
        seeded_from(dice_seed),
    )
}

/// How long the display is given to confirm the overlays of the title, in
/// seconds.
pub const REGISTRATION_TIMEOUT: u64 = 3;

/// Whether `frame` shows `text`: a tile in white on black for each
/// character, in the dimensions of a frame for a string.
pub open spec fn spells(frame: Frame, text: Seq<char>) -> bool {
    &&& frame.dimensions == string_dimensions(byte_length(text) as int)
    &&& frame.to_render.len() == text.len()
    &&& forall|k: int|
        0 <= k < text.len() ==> (#[trigger] frame.to_render[k])@ == plain_tile(text[k])
}

/// Whether `gui` is an overlay at the given place that shows `text`.
pub open spec fn is_label(gui: Option<GUI>, offset: (OffsetX, OffsetY), text: Seq<char>) -> bool {
    &&& gui matches Some(label)
    &&& label.offset == offset
    &&& label.to_render matches Some(frame)
    &&& spells(frame, text)
}

/// Whether `packet` registers the title of a generation with the given
/// seed: one overlay under the top edge that says that the world is being
/// generated, and one above the bottom edge that names the seed.
pub open spec fn is_title_packet(packet: RenderPacket, seed: u64) -> bool {
    &&& packet matches RenderPacket::RegisterGUIs(priority, guis)
    &&& priority == 0
    &&& guis.len() == 2
    &&& is_label(guis[0], (OffsetX::Left(0), OffsetY::Above(1)), "Generating world!"@)
    &&& is_label(
        guis[1],
        (OffsetX::Left(0), OffsetY::Below(1)),
        "Seed: "@ + decimal_chars(seed as nat),
    )
}

/// The packet that registers the title of a generation with the given
/// seed.
pub fn title_packet(seed: u64) -> (packet: RenderPacket)
    ensures
        is_title_packet(packet, seed),
{
    // build title frame
    let title_frame = string_to_frame(String::from_str("Generating world!"));
    // build seed frame
    let seed_frame = string_to_frame(String::from_str("Seed: ").concat(seed_text(seed).as_str()));
    let title_gui = GUI {
        offset: (OffsetX::Left(0), OffsetY::Above(1)),
        to_render: Some(title_frame),
    };
    let seed_gui = GUI {
        offset: (OffsetX::Left(0), OffsetY::Below(1)),
        to_render: Some(seed_frame),
    };
    // register 2 frames
    let mut guis: Vec<Option<GUI>> = Vec::new();
    guis.push(Some(title_gui));
    guis.push(Some(seed_gui));
    RenderPacket::RegisterGUIs(0, guis)
}

/// What the display's answer to the registration of the title means to
/// the generation: the ids of the overlays, where it confirms them; that
/// it has closed, where it says so; and where it has not answered in time,
/// or with anything else, that it has not confirmed in time.
pub fn title_event(answer: Option<RenderTick>) -> (event: GenEvent)
    ensures
        match answer {
            Some(RenderTick::RegisteredGUIs(_, ids)) => event matches GenEvent::TitleRegistered(v)
                && v@ == ids@,
            Some(RenderTick::LoopClosed) => event is DisplayClosed,
            _ => event is TitleTimedOut,
        },
{
    match answer {
        Some(RenderTick::RegisteredGUIs(_, ids)) => GenEvent::TitleRegistered(ids),
        Some(RenderTick::LoopClosed) => GenEvent::DisplayClosed,
        _ => GenEvent::TitleTimedOut,
    }
}

/// Whether a generation draws the seed of the elevations, asks for them
/// and waits for them.
pub open spec fn asks_for_heights(
    before: GenerationView,
    after: GenerationView,
    request: GenRequest,
) -> bool {
    &&& request matches GenRequest::SampleHeights { seed, dimensions }
    &&& seed == number_ahead(before.generator, 0)
    &&& moved_on(before.generator, after.generator, 1)
    &&& dimensions == before.params.world_size
    &&& after.stage == GenStage::AwaitingHeights
    &&& after.world is None
}

/// Whether a generation that is handed `event` goes from `before` to
/// `after` and asks for `request`.
///
/// At the start it rejects a world without width or height; else it asks
/// the display, where there is one, to show the title, and then, whether
/// the display confirms in time or not, for the elevations. A display that
/// has closed is shown nothing further. Handed the
/// elevations it makes the base map, adds the pole, and asks to show the
/// map and for the rain. Handed the rain it erodes the map and ends
/// before the civilizations, which are not implemented. Told that a field
/// gave a value that is no finite number, while it waits for samples, it
/// fails and ends. Anything out of turn fails and changes nothing.
///
/// The seeds come from the generator in one order: first that of the
/// elevations, then that of the dice of the pole, then that of the rain.
/// No other step draws.
pub open spec fn advances(
    before: GenerationView,
    event: GenEvent,
    after: GenerationView,
    request: GenRequest,
) -> bool {
    &&& after.params == before.params
    &&& after.policy == before.policy
    &&& after.display == (before.display && !(before.stage == GenStage::AwaitingTitle
        && event is DisplayClosed))
    &&& match (before.stage, event) {
        (GenStage::Start, GenEvent::Begin) => {
            if before.params.world_size.width == 0 || before.params.world_size.height == 0 {
                &&& request == GenRequest::Failed(GenError::InvalidDimensions)
                &&& after.stage == GenStage::Done
                &&& after.world is None
                &&& after.title == before.title
                &&& after.generator == before.generator
            } else if before.display {
                &&& request matches GenRequest::RegisterTitle { packet, timeout_seconds }
                &&& is_title_packet(packet, before.params.seed)
                &&& timeout_seconds == REGISTRATION_TIMEOUT
                &&& after.stage == GenStage::AwaitingTitle
                &&& after.world is None
                &&& after.title == before.title
                &&& after.generator == before.generator
            } else {
                &&& asks_for_heights(before, after, request)
                &&& after.title == before.title
            }
        },
        (GenStage::AwaitingTitle, GenEvent::TitleRegistered(ids)) => {
            &&& asks_for_heights(before, after, request)
            &&& after.title == Some(ids@)
        },
        (GenStage::AwaitingTitle, GenEvent::TitleTimedOut) | (
            GenStage::AwaitingTitle,
            GenEvent::DisplayClosed,
        ) => {
            &&& asks_for_heights(before, after, request)
            &&& after.title is None
        },
        (GenStage::AwaitingHeights, GenEvent::Heights(samples)) => {
            &&& after.title == before.title
            &&& match base_world(before.params, samples@) {
                Err(error) => {
                    &&& request == GenRequest::Failed(error)
                    &&& after.stage == GenStage::Done
                    &&& after.world is None
                    &&& after.generator == before.generator
                },
                Ok(base) => {
                    &&& request matches GenRequest::SampleRain { seed, dimensions, show }
                    &&& seed == number_ahead(before.generator, 1)
                    &&& moved_on(before.generator, after.generator, 2)
                    &&& dimensions == before.params.world_size
                    &&& after.stage == GenStage::AwaitingRain
                    &&& after.world matches Some(world)
                    &&& with_pole(
                        before.params,
                        before.policy,
                        number_ahead(before.generator, 0),
                        base,
                        world,
                    )
                    &&& if before.display {
                        &&& show matches Some(RenderPacket::NewFrame(frame))
                        &&& shows_terrain(frame, world.terrain)
                    } else {
                        show is None
                    }
                },
            }
        },
        (GenStage::AwaitingRain, GenEvent::Rain(samples)) => {
            &&& after.title == before.title
            &&& after.generator == before.generator
            &&& after.stage == GenStage::Done
            &&& after.world is None
            &&& before.world matches Some(world)
            &&& if samples.len() != world.terrain.heights.len() {
                request == GenRequest::Failed(GenError::SampleCount)
            } else {
                &&& request matches GenRequest::Finished(
                    GenOutcome::NotImplemented { stage, world: made },
                )
                &&& stage == MissingStage::Civilizations
                &&& eroded(world, samples@, made@)
                &&& rivers_reach_ocean(world, samples@, made@)
                &&& lakes_drained(world, samples@, made@)
            }
        },
        (GenStage::AwaitingHeights, GenEvent::NonFiniteSample) | (
            GenStage::AwaitingRain,
            GenEvent::NonFiniteSample,
        ) => {
            &&& request == GenRequest::Failed(GenError::NonFiniteSample)
            &&& after.title == before.title
            &&& after.generator == before.generator
            &&& after.stage == GenStage::Done
            &&& after.world is None
        },
        _ => {
            &&& request == GenRequest::Failed(GenError::OutOfTurn)
            &&& after == before
        },
    }
}

impl Generation {
    /// A generation with the given parameters that has not started yet.
    /// With `display`, it asks to show its title and its base map.
    pub fn new(params: GenParam, policy: PolarPolicy, display: bool) -> (r: Self)
        ensures
            r@ == (GenerationView {
                params,
                generator: seeded_from(params.seed),
                policy,
                display,
                stage: GenStage::Start,
                title: None,
                world: None,
            }),
            r@.wf(),
    {
        Generation {
            context: GenContext::new(params),
            policy,
            display,
            stage: GenStage::Start,
            title: None,
            world: None,
        }
    }

    /// The ids under which the display tracks the overlays of the title,
    /// if it has confirmed them.
    pub fn title_ids(&self) -> (r: &Option<Vec<usize>>)
        ensures
            match self@.title {
                Some(ids) => *r matches Some(v) && v@ == ids,
                None => *r is None,
            },
    {
        &self.title
    }

    /// Where the generation stands.
    pub fn stage(&self) -> (r: GenStage)
        ensures
            r == self@.stage,
    {
        self.stage
    }
}

/// Moves the generation of a whole world one step on: takes what it was
/// waiting for and says what it needs next, or how it ended. Whoever runs
/// the generation does what is asked, and hands the result to the next
/// step.
///
/// The generation coordinates the stages and the seeds that they draw, so
/// that a seed gives one world.
pub fn gen_full_world(generation: &mut Generation, event: GenEvent) -> (request: GenRequest)
    requires
        old(generation)@.wf(),
    ensures
        final(generation)@.wf(),
        advances(old(generation)@, event, final(generation)@, request),
{
    match (generation.stage, event) {
        (GenStage::Start, GenEvent::Begin) => {
            let dimensions = generation.context.params.world_size;
            if dimensions.width == 0 || dimensions.height == 0 {
                generation.stage = GenStage::Done;
                return GenRequest::Failed(GenError::InvalidDimensions);
            }
            if generation.display {
                // add title and seed
                generation.stage = GenStage::AwaitingTitle;
                return GenRequest::RegisterTitle {
                    packet: title_packet(generation.context.params.seed),
                    timeout_seconds: REGISTRATION_TIMEOUT,
                };
            }
            let seed: u64 = generation.context.draw_seed();
            generation.stage = GenStage::AwaitingHeights;
            GenRequest::SampleHeights { seed, dimensions }
        },
        (GenStage::AwaitingTitle, GenEvent::TitleRegistered(ids)) => {
            generation.title = Some(ids);
            let seed: u64 = generation.context.draw_seed();
            generation.stage = GenStage::AwaitingHeights;
            GenRequest::SampleHeights { seed, dimensions: generation.context.params.world_size }
        },
        (GenStage::AwaitingTitle, GenEvent::TitleTimedOut) => {
            generation.title = None;
            let seed: u64 = generation.context.draw_seed();
            generation.stage = GenStage::AwaitingHeights;
            GenRequest::SampleHeights { seed, dimensions: generation.context.params.world_size }
        },
        (GenStage::AwaitingTitle, GenEvent::DisplayClosed) => {
            generation.title = None;
            generation.display = false;
            let seed: u64 = generation.context.draw_seed();
            generation.stage = GenStage::AwaitingHeights;
            GenRequest::SampleHeights { seed, dimensions: generation.context.params.world_size }
        },
        (GenStage::AwaitingHeights, GenEvent::Heights(samples)) => {
            // generate the base terrain of the map
            match gen_base_map(&generation.context, samples) {
                Err(error) => {
                    generation.stage = GenStage::Done;
                    GenRequest::Failed(error)
                },
                Ok(base_map) => {
                    let mut base_map = base_map;
                    // fill in omni-present things like poles, etc here
                    add_pole(&mut base_map, &mut generation.context, &generation.policy);
                    // render base map
                    let show = if generation.display {
                        Some(RenderPacket::NewFrame(render_world(&base_map)))
                    } else {
                        None
                    };
                    let seed: u64 = generation.context.draw_seed();
                    let dimensions = generation.context.params.world_size;
                    generation.world = Some(base_map);
                    generation.stage = GenStage::AwaitingRain;
                    GenRequest::SampleRain { seed, dimensions, show }
                },
            }
        },
        (GenStage::AwaitingRain, GenEvent::Rain(samples)) => {
            generation.stage = GenStage::Done;
            let kept = generation.world.take();
            match kept {
                Some(world) => match erode(&world, &samples) {
                    Ok(made) => GenRequest::Finished(
                        GenOutcome::NotImplemented {
                            stage: MissingStage::Civilizations,
                            world: made,
                        },
                    ),
                    Err(error) => GenRequest::Failed(error),
                },
                None => GenRequest::Failed(GenError::OutOfTurn),
            }
        },
        (GenStage::AwaitingHeights, GenEvent::NonFiniteSample) | (
            GenStage::AwaitingRain,
            GenEvent::NonFiniteSample,
        ) => {
            generation.stage = GenStage::Done;
            generation.world = None;
            GenRequest::Failed(GenError::NonFiniteSample)
        },
        _ => GenRequest::Failed(GenError::OutOfTurn),
    }
}

} // verus!

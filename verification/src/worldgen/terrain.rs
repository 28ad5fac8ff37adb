//! The terrain of a world: its elevation grid with its sea level and its
//! rivers, the base map made of sampled elevations, and the erosion that
//! drains its lakes.
//!
//! An elevation is a whole number of elevation units. Whoever samples a
//! continuous field picks the unit and rounds to it.
use vstd::prelude::*;
use crate::helpers::{adjacent, RectDimension};
use crate::worldgen::drainage::{
    basin_of, carve_beds, find_river, is_carving, lemma_carving_unique,
    lemma_settled_below_source, on_map, river_from, settled, Basin,
};
use crate::worldgen::ocean::{
    classifies, classify_ocean, landlocked, lemma_chain_joins_ocean, lemma_lower_keeps_ocean,
    open_ocean, underwater,
};
use crate::worldgen::sea_level::{
    calibrated, decide_sea_level, height_range, highest, is_highest, is_lowest, lowest,
};
use crate::worldgen::{FullWorld, GenContext, GenError, GenParam, Pole, WorldView};

verus! {

/// The cells of a river as mathematical integers, in the river's order.
pub open spec fn tiles_view(tiles: Seq<u32>) -> Seq<int> {
    Seq::new(tiles.len(), |k: int| tiles[k] as int)
}

/// A river or body of water: the cells that it covers, from its source to
/// the cell where it meets the open ocean.
#[derive(Debug)]
pub struct River {
    // which tiles are covered by the water form
    pub(crate) covered_tiles: Vec<u32>,
}

impl View for River {
    type V = Seq<int>;

    open(crate) spec fn view(&self) -> Seq<int> {
        tiles_view(self.covered_tiles@)
    }
}

impl Clone for River {
    fn clone(&self) -> (r: Self)
        ensures
            r@ == self@,
    {
        River { covered_tiles: self.covered_tiles.clone() }
    }
}

impl River {
    /// The river that covers the given cells, in their order.
    pub fn new(covered_tiles: Vec<u32>) -> (r: River)
        ensures
            r@ == tiles_view(covered_tiles@),
    {
        River { covered_tiles }
    }

    /// The cells that the river covers, from its source on.
    pub fn tiles(&self) -> (r: &Vec<u32>)
        ensures
            tiles_view(r@) == self@,
    {
        &self.covered_tiles
    }
}

/// The rivers of a list, each as the chain of its cells.
pub open spec fn rivers_view(rivers: Seq<River>) -> Seq<Seq<int>> {
    Seq::new(rivers.len(), |k: int| rivers[k]@)
}

/// Whether `river` is a chain of cells of the `w` by `h` grid in which each
/// cell touches the one before it.
pub open spec fn is_chain(river: Seq<int>, w: int, h: int) -> bool {
    &&& river.len() >= 1
    &&& on_map(river, w * h)
    &&& forall|k: int| 0 < k < river.len() ==> adjacent(w, h, river[k - 1], #[trigger] river[k])
}

/// A static map of a world and its terrain.
#[derive(Debug, Clone)]
pub struct TerrainMap {
    pub dimensions: RectDimension,
    /// the level at which something goes into the sea/underwater
    pub sea_level: i32,
    pub min_height: i32,
    pub max_height: i32,
    pub height_map: Vec<i32>,
    pub rivers: Vec<River>,
}

/// A terrain as contracts see it.
pub struct MapView {
    pub dimensions: RectDimension,
    pub sea_level: i32,
    pub min_height: i32,
    pub max_height: i32,
    pub heights: Seq<i32>,
    pub rivers: Seq<Seq<int>>,
}

impl View for TerrainMap {
    type V = MapView;

    open spec fn view(&self) -> MapView {
        MapView {
            dimensions: self.dimensions,
            sea_level: self.sea_level,
            min_height: self.min_height,
            max_height: self.max_height,
            heights: self.height_map@,
            rivers: rivers_view(self.rivers@),
        }
    }
}

impl MapView {
    /// The grid has a cell at least and an elevation for each cell, the
    /// two extremes are those of the grid, and each river is a chain of
    /// touching cells of the grid.
    pub open spec fn wf(self) -> bool {
        &&& self.heights.len() == self.dimensions.cells()
        &&& self.heights.len() > 0
        &&& is_lowest(self.heights, self.min_height as int)
        &&& is_highest(self.heights, self.max_height as int)
        &&& forall|k: int|
            0 <= k < self.rivers.len() ==> is_chain(
                #[trigger] self.rivers[k],
                self.dimensions.width as int,
                self.dimensions.height as int,
            )
    }
}

/// The world that the base stage makes of the sampled elevations: the
/// grid as sampled, the sea level calibrated to the wanted share of water,
/// the two extremes, and neither a river nor a frozen cell yet.
pub open spec fn base_world(params: GenParam, samples: Seq<i32>) -> Result<WorldView, GenError> {
    if params.world_size.width == 0 || params.world_size.height == 0 {
        Err(GenError::InvalidDimensions)
    } else if samples.len() != params.world_size.cells() {
        Err(GenError::SampleCount)
    } else {
        match calibrated(samples, params.target_water as int) {
            Err(failure) => Err(GenError::Calibration(failure)),
            Ok(level) => Ok(
                WorldView {
                    terrain: MapView {
                        dimensions: params.world_size,
                        sea_level: level as i32,
                        min_height: lowest(samples) as i32,
                        max_height: highest(samples) as i32,
                        heights: samples,
                        rivers: Seq::empty(),
                    },
                    rivers: Seq::empty(),
                    frozen: Seq::empty(),
                },
            ),
        }
    }
}

/// Makes the base map of a world from the elevations sampled for its
/// cells, row by row: checks the dimensions and the number of samples,
/// decides the sea level, and notes the lowest and the highest elevation.
pub fn gen_base_map(context: &GenContext, samples: Vec<i32>) -> (r: Result<FullWorld, GenError>)
    ensures
        match base_world(context@, samples@) {
            Ok(view) => r matches Ok(world) && world@ == view && view.wf()
                && view.terrain.min_height <= view.terrain.sea_level <= view.terrain.max_height,
            Err(error) => r matches Err(e) && e == error,
        },
{
    let params = context.params();
    if params.world_size.width == 0 || params.world_size.height == 0 {
        return Err(GenError::InvalidDimensions);
    }
    if samples.len() != params.world_size.area() {
        return Err(GenError::SampleCount);
    }
    assert(samples.len() > 0) by (nonlinear_arith)
        requires
            samples.len() == params.world_size.width as int * params.world_size.height as int,
            params.world_size.width > 0,
            params.world_size.height > 0,
    ;
    let sea_level = match decide_sea_level(&samples, params.target_water) {
        Ok(level) => level,
        Err(failure) => {
            return Err(GenError::Calibration(failure));
        },
    };
    let (min_height, max_height) = height_range(&samples);
    let ret = TerrainMap {
        dimensions: params.world_size,
        height_map: samples,
        rivers: Vec::new(),
        sea_level,
        max_height,
        min_height,
    };
    let world = FullWorld { terrain: ret, rivers: Vec::new(), pole: Pole::new() };
    proof {
        let view = base_world(context@, samples@)->Ok_0;
        assert(world@.terrain.rivers =~= view.terrain.rivers);
        assert(world@.rivers =~= view.rivers);
        assert(world@.frozen =~= view.frozen);
        assert(world@.terrain == view.terrain);
        assert(world@ == view);
    }
    Ok(world)
}

/// The part of a rain sample that is washed off a cell of land: a
/// twentieth, which is an erosion weight of 0.05.
pub const RAIN_DIVISOR: i64 = 20;

/// The elevation of a cell after the rain: a cell of land loses the
/// weighted size of its sample, and goes no lower than an elevation can; a
/// cell under water is left as it is.
pub open spec fn rained_cell(height: i32, sea: int, sample: i32) -> int {
    if height > sea {
        let washed = (if sample < 0 {
            -sample
        } else {
            sample as int
        }) / (RAIN_DIVISOR as int);
        if height - washed < i32::MIN {
            i32::MIN as int
        } else {
            height - washed
        }
    } else {
        height as int
    }
}

/// The elevations after the rain.
pub open spec fn rained(heights: Seq<i32>, sea: int, samples: Seq<i32>) -> Seq<i32> {
    Seq::new(heights.len(), |i: int| rained_cell(heights[i], sea, samples[i]) as i32)
}

/// Lets it rain on the land: each cell above the sea level loses the
/// weighted size of its sample.
pub fn rain_erosion(height_map: &Vec<i32>, sea_level: i32, samples: &Vec<i32>) -> (r: Vec<i32>)
    requires
        samples.len() == height_map.len(),
    ensures
        r@ == rained(height_map@, sea_level as int, samples@),
{
    let mut r: Vec<i32> = Vec::new();
    let mut i: usize = 0;
    while i < height_map.len()
        invariant
            i <= height_map.len(),
            samples.len() == height_map.len(),
            r.len() == i,
            forall|k: int|
                0 <= k < i ==> #[trigger] r[k] == rained_cell(
                    height_map[k],
                    sea_level as int,
                    samples[k],
                ),
        decreases height_map.len() - i,
    {
        let height: i32 = height_map[i];
        if height > sea_level {
            let sample: i64 = samples[i] as i64;
            let size: i64 = if sample < 0 {
                -sample
            } else {
                sample
            };
            let lowered: i64 = height as i64 - size / RAIN_DIVISOR;
            if lowered < i32::MIN as i64 {
                r.push(i32::MIN);
            } else {
                r.push(lowered as i32);
            }
        } else {
            r.push(height);
        }
        i = i + 1;
    }
    assert(r@ =~= rained(height_map@, sea_level as int, samples@));
    r
}

/// Of each cell of the grid whether it belongs to the open ocean.
pub open spec fn ocean_marks(heights: Seq<i32>, sea: int, dimensions: RectDimension) -> Seq<bool> {
    Seq::new(
        heights.len(),
        |i: int| open_ocean(heights, sea, dimensions.width as int, dimensions.height as int, i),
    )
}

/// The terrain of the given elevations as the drainage sees it, with the
/// open ocean marked.
pub open spec fn basin(heights: Seq<i32>, sea: int, dimensions: RectDimension) -> Basin {
    basin_of(heights, sea, ocean_marks(heights, sea, dimensions), dimensions)
}

/// Whether `rivers` drain the lakes of the basin: each is a cheapest way
/// from a cell of a lake to the open ocean, the one that the search from
/// its source finds; they come in the order of their sources, no two from
/// one source; and each cell of a lake from which a route leads to the
/// open ocean is the source of one.
pub open spec fn drained(b: Basin, rivers: Seq<Seq<int>>) -> bool {
    &&& forall|k: int|
        0 <= k < rivers.len() ==> {
            &&& b.drains_best((#[trigger] rivers[k])[0], rivers[k])
            &&& river_from(b, rivers[k][0]) == Some(rivers[k])
            &&& landlocked(b.heights, b.sea, b.w, b.h, rivers[k][0])
        }
    &&& forall|k: int, l: int| 0 <= k < l < rivers.len() ==> rivers[k][0] < rivers[l][0]
    &&& forall|i: int, route: Seq<int>|
        landlocked(b.heights, b.sea, b.w, b.h, i) && #[trigger] b.drains(i, route) ==> exists|
            k: int,
        |
            0 <= k < rivers.len() && (#[trigger] rivers[k])[0] == i
}

/// Whether `after` is what the erosion makes of `before` with the given
/// rain: the dimensions, the sea level and the frozen cells are kept; the
/// rivers that drain the lakes of the rained terrain are added to the
/// rivers; the elevations are those after the rain with the beds of the
/// new rivers carved, so that no bed rises anywhere on its way; and the
/// extremes are those of the new elevations.
pub open spec fn eroded(before: WorldView, rain: Seq<i32>, after: WorldView) -> bool {
    let sea = before.terrain.sea_level as int;
    let soaked = rained(before.terrain.heights, sea, rain);
    let added = after.rivers.skip(before.rivers.len() as int);
    &&& after.wf()
    &&& after.terrain.dimensions == before.terrain.dimensions
    &&& after.terrain.sea_level == before.terrain.sea_level
    &&& after.frozen == before.frozen
    &&& after.rivers.len() >= before.rivers.len()
    &&& after.rivers.take(before.rivers.len() as int) == before.rivers
    &&& drained(basin(soaked, sea, before.terrain.dimensions), added)
    &&& is_carving(soaked, added, after.terrain.heights)
}

/// Whether each river that the erosion added is a chain of touching cells
/// that ends in a cell of the open ocean of the rained terrain, in which
/// the river was found; and whether in the eroded terrain the bed of the
/// river nowhere rises, so that each of its cells lies no higher than its
/// source and no higher than it lay after the rain, and belongs to the
/// open ocean.
pub open spec fn rivers_reach_ocean(before: WorldView, rain: Seq<i32>, after: WorldView) -> bool {
    let sea = before.terrain.sea_level as int;
    let w = before.terrain.dimensions.width as int;
    let h = before.terrain.dimensions.height as int;
    let soaked = rained(before.terrain.heights, sea, rain);
    forall|k: int|
        before.rivers.len() <= k < after.rivers.len() ==> {
            &&& is_chain(#[trigger] after.rivers[k], w, h)
            &&& open_ocean(soaked, sea, w, h, after.rivers[k].last())
            &&& settled(after.terrain.heights, after.rivers[k])
            &&& forall|j: int|
                0 <= j < after.rivers[k].len() ==> {
                    &&& after.terrain.heights[#[trigger] after.rivers[k][j]]
                        <= after.terrain.heights[after.rivers[k][0]]
                    &&& after.terrain.heights[after.rivers[k][j]] <= soaked[after.rivers[k][j]]
                    &&& open_ocean(after.terrain.heights, sea, w, h, after.rivers[k][j])
                }
        }
}

/// Whether each cell of a lake of the rained terrain from which a route
/// leads to the open ocean belongs to the open ocean of the eroded terrain.
pub open spec fn lakes_drained(before: WorldView, rain: Seq<i32>, after: WorldView) -> bool {
    let sea = before.terrain.sea_level as int;
    let w = before.terrain.dimensions.width as int;
    let h = before.terrain.dimensions.height as int;
    let soaked = rained(before.terrain.heights, sea, rain);
    forall|i: int, route: Seq<int>|
        landlocked(soaked, sea, w, h, i) && #[trigger] basin(
            soaked,
            sea,
            before.terrain.dimensions,
        ).drains(i, route) ==> open_ocean(after.terrain.heights, sea, w, h, i)
}

/// A river that drains its source in the rained terrain lies, once all the
/// beds are carved, in the open ocean with all of its cells.
proof fn lemma_river_joins_ocean(
    before: WorldView,
    rain: Seq<i32>,
    after: WorldView,
    k: int,
    j: int,
)
    requires
        before.wf(),
        rain.len() == before.terrain.heights.len(),
        eroded(before, rain, after),
        before.rivers.len() <= k < after.rivers.len(),
        0 <= j < after.rivers[k].len(),
    ensures
        is_chain(
            after.rivers[k],
            before.terrain.dimensions.width as int,
            before.terrain.dimensions.height as int,
        ),
        open_ocean(
            rained(before.terrain.heights, before.terrain.sea_level as int, rain),
            before.terrain.sea_level as int,
            before.terrain.dimensions.width as int,
            before.terrain.dimensions.height as int,
            after.rivers[k].last(),
        ),
        open_ocean(
            after.terrain.heights,
            before.terrain.sea_level as int,
            before.terrain.dimensions.width as int,
            before.terrain.dimensions.height as int,
            after.rivers[k][j],
        ),
        settled(after.terrain.heights, after.rivers[k]),
        after.terrain.heights[after.rivers[k][j]] <= after.terrain.heights[after.rivers[k][0]],
        after.terrain.heights[after.rivers[k][j]] <= rained(
            before.terrain.heights,
            before.terrain.sea_level as int,
            rain,
        )[after.rivers[k][j]],
{
    let sea = before.terrain.sea_level as int;
    let w = before.terrain.dimensions.width as int;
    let h = before.terrain.dimensions.height as int;
    let soaked = rained(before.terrain.heights, sea, rain);
    let b = basin(soaked, sea, before.terrain.dimensions);
    let added = after.rivers.skip(before.rivers.len() as int);
    let river = after.rivers[k];
    let lowered = after.terrain.heights;
    assert(added[k - before.rivers.len()] == river);
    assert(b.drains_best(river[0], river));
    lemma_route_is_chain(b, river);
    assert(settled(lowered, added[k - before.rivers.len()]));
    assert(0 <= river[river.len() - 1] < soaked.len());
    assert(0 <= river[0] < soaked.len());
    assert(0 <= river[j] < soaked.len());
    assert(b.open[river.last()]);
    lemma_lower_keeps_ocean(soaked, lowered, sea, w, h, river.last());
    assert(lowered[river[0]] <= soaked[river[0]]);
    assert forall|c: int| 0 <= c < river.len() implies underwater(
        lowered,
        sea,
        #[trigger] river[c],
    ) by {
        lemma_settled_below_source(lowered, river, c);
    }
    lemma_chain_joins_ocean(lowered, sea, w, h, river, j);
    lemma_settled_below_source(lowered, river, j);
}

/// After the erosion every river that it added is a chain of touching
/// cells, from cell to cell by an edge or a corner, and ends in a cell of
/// the open ocean.
pub proof fn lemma_rivers_reach_ocean(before: WorldView, rain: Seq<i32>, after: WorldView)
    requires
        before.wf(),
        rain.len() == before.terrain.heights.len(),
        eroded(before, rain, after),
    ensures
        rivers_reach_ocean(before, rain, after),
{
    let sea = before.terrain.sea_level as int;
    let w = before.terrain.dimensions.width as int;
    let h = before.terrain.dimensions.height as int;
    let soaked = rained(before.terrain.heights, sea, rain);
    assert forall|k: int| before.rivers.len() <= k < after.rivers.len() implies {
        &&& is_chain(#[trigger] after.rivers[k], w, h)
        &&& open_ocean(soaked, sea, w, h, after.rivers[k].last())
        &&& settled(after.terrain.heights, after.rivers[k])
        &&& forall|j: int|
            0 <= j < after.rivers[k].len() ==> {
                &&& after.terrain.heights[#[trigger] after.rivers[k][j]]
                    <= after.terrain.heights[after.rivers[k][0]]
                &&& after.terrain.heights[after.rivers[k][j]] <= soaked[after.rivers[k][j]]
                &&& open_ocean(after.terrain.heights, sea, w, h, after.rivers[k][j])
            }
    } by {
        lemma_river_joins_ocean(before, rain, after, k, 0);
        assert forall|j: int| 0 <= j < after.rivers[k].len() implies {
            &&& after.terrain.heights[#[trigger] after.rivers[k][j]]
                <= after.terrain.heights[after.rivers[k][0]]
            &&& after.terrain.heights[after.rivers[k][j]] <= soaked[after.rivers[k][j]]
            &&& open_ocean(after.terrain.heights, sea, w, h, after.rivers[k][j])
        } by {
            lemma_river_joins_ocean(before, rain, after, k, j);
        }
    }
}

/// No cell of a lake stays shut in by the erosion where a route leads from
/// it to the open ocean: after the erosion it belongs to the open ocean.
pub proof fn lemma_lakes_drained(before: WorldView, rain: Seq<i32>, after: WorldView)
    requires
        before.wf(),
        rain.len() == before.terrain.heights.len(),
        eroded(before, rain, after),
    ensures
        lakes_drained(before, rain, after),
{
    let sea = before.terrain.sea_level as int;
    let w = before.terrain.dimensions.width as int;
    let h = before.terrain.dimensions.height as int;
    let soaked = rained(before.terrain.heights, sea, rain);
    let b = basin(soaked, sea, before.terrain.dimensions);
    let added = after.rivers.skip(before.rivers.len() as int);
    assert forall|i: int, route: Seq<int>|
        landlocked(soaked, sea, w, h, i) && #[trigger] b.drains(i, route) implies open_ocean(
        after.terrain.heights,
        sea,
        w,
        h,
        i,
    ) by {
        let k = choose|k: int| 0 <= k < added.len() && (#[trigger] added[k])[0] == i;
        let at = k + before.rivers.len();
        assert(after.rivers[at] == added[k]);
        assert(b.drains_best(added[k][0], added[k]));
        lemma_river_joins_ocean(before, rain, after, at, 0);
    }
}

/// Two lists of numbers that rise from entry to entry and hold the same
/// numbers are one list.
proof fn lemma_rising_lists_agree(one: Seq<int>, other: Seq<int>)
    requires
        forall|k: int, l: int| 0 <= k < l < one.len() ==> one[k] < one[l],
        forall|k: int, l: int| 0 <= k < l < other.len() ==> other[k] < other[l],
        forall|x: int| one.contains(x) <==> other.contains(x),
    ensures
        one == other,
    decreases one.len(),
{
    if one.len() == 0 {
        if other.len() > 0 {
            assert(other.contains(other[0]));
        }
        assert(one =~= other);
    } else {
        let a = one.last();
        assert(one.contains(one[one.len() - 1]));
        assert(other.contains(a));
        let b = other.last();
        assert(other.contains(other[other.len() - 1]));
        assert(one.contains(b));
        let ia = choose|i: int| 0 <= i < other.len() && other[i] == a;
        let ib = choose|i: int| 0 <= i < one.len() && one[i] == b;
        assert(a == b) by {
            if ia < other.len() - 1 {
                assert(other[ia] < other[other.len() - 1]);
            }
            if ib < one.len() - 1 {
                assert(one[ib] < one[one.len() - 1]);
            }
        }
        let front = one.drop_last();
        let rest = other.drop_last();
        assert forall|x: int| front.contains(x) <==> rest.contains(x) by {
            if front.contains(x) {
                let i = choose|i: int| 0 <= i < front.len() && front[i] == x;
                assert(one[i] == x);
                assert(one[i] < one[one.len() - 1]);
                assert(one.contains(x));
                let j = choose|j: int| 0 <= j < other.len() && other[j] == x;
                assert(rest[j] == x);
            }
            if rest.contains(x) {
                let j = choose|j: int| 0 <= j < rest.len() && rest[j] == x;
                assert(other[j] == x);
                assert(other[j] < other[other.len() - 1]);
                assert(other.contains(x));
                let i = choose|i: int| 0 <= i < one.len() && one[i] == x;
                assert(front[i] == x);
            }
        }
        assert forall|k: int, l: int| 0 <= k < l < front.len() implies front[k] < front[l] by {
            assert(front[k] == one[k] && front[l] == one[l]);
        }
        assert forall|k: int, l: int| 0 <= k < l < rest.len() implies rest[k] < rest[l] by {
            assert(rest[k] == other[k] && rest[l] == other[l]);
        }
        lemma_rising_lists_agree(front, rest);
        assert(one =~= front.push(a));
        assert(other =~= rest.push(b));
    }
}

/// The lakes of a basin are drained by one list of rivers.
pub proof fn lemma_drained_is_one(b: Basin, one: Seq<Seq<int>>, other: Seq<Seq<int>>)
    requires
        drained(b, one),
        drained(b, other),
    ensures
        one == other,
{
    let sources = Seq::new(one.len(), |k: int| one[k][0]);
    let others = Seq::new(other.len(), |k: int| other[k][0]);
    assert forall|x: int| sources.contains(x) <==> others.contains(x) by {
        if sources.contains(x) {
            let k = choose|k: int| 0 <= k < sources.len() && sources[k] == x;
            assert(b.drains_best(one[k][0], one[k]));
            assert(b.drains(x, one[k]));
            let l = choose|l: int| 0 <= l < other.len() && (#[trigger] other[l])[0] == x;
            assert(others[l] == x);
        }
        if others.contains(x) {
            let l = choose|l: int| 0 <= l < others.len() && others[l] == x;
            assert(b.drains_best(other[l][0], other[l]));
            assert(b.drains(x, other[l]));
            let k = choose|k: int| 0 <= k < one.len() && (#[trigger] one[k])[0] == x;
            assert(sources[k] == x);
        }
    }
    assert forall|k: int, l: int| 0 <= k < l < sources.len() implies sources[k] < sources[l] by {
        assert(one[k][0] < one[l][0]);
    }
    assert forall|k: int, l: int| 0 <= k < l < others.len() implies others[k] < others[l] by {
        assert(other[k][0] < other[l][0]);
    }
    lemma_rising_lists_agree(sources, others);
    assert forall|k: int| 0 <= k < one.len() implies one[k] == other[k] by {
        assert(sources[k] == others[k]);
        assert(river_from(b, one[k][0]) == Some(one[k]));
        assert(river_from(b, other[k][0]) == Some(other[k]));
    }
    assert(one.len() == sources.len() && other.len() == others.len());
    assert(one =~= other);
}

/// A grid has one lowest and one highest elevation.
proof fn lemma_extremes_are_one(heights: Seq<i32>, low: int, low2: int, high: int, high2: int)
    requires
        is_lowest(heights, low),
        is_lowest(heights, low2),
        is_highest(heights, high),
        is_highest(heights, high2),
    ensures
        low == low2,
        high == high2,
{
    let a = choose|i: int| 0 <= i < heights.len() && heights[i] == low;
    let b = choose|i: int| 0 <= i < heights.len() && heights[i] == low2;
    assert(low <= heights[b] && low2 <= heights[a]);
    let c = choose|i: int| 0 <= i < heights.len() && heights[i] == high;
    let d = choose|i: int| 0 <= i < heights.len() && heights[i] == high2;
    assert(heights[d] <= high && heights[c] <= high2);
}

/// Two lists of rivers that begin alike and go on alike are one list.
proof fn lemma_lists_agree(one: Seq<Seq<int>>, other: Seq<Seq<int>>, kept: int)
    requires
        0 <= kept <= one.len(),
        kept <= other.len(),
        one.take(kept) == other.take(kept),
        one.skip(kept) == other.skip(kept),
    ensures
        one == other,
{
    assert(one =~= one.take(kept) + one.skip(kept));
    assert(other =~= other.take(kept) + other.skip(kept));
}

/// One map and one rain give one eroded world: two erosions of them agree
/// in every elevation and in every river.
pub proof fn lemma_erosion_is_one(
    before: WorldView,
    rain: Seq<i32>,
    one: WorldView,
    other: WorldView,
)
    requires
        eroded(before, rain, one),
        eroded(before, rain, other),
    ensures
        one == other,
{
    let sea = before.terrain.sea_level as int;
    let soaked = rained(before.terrain.heights, sea, rain);
    let b = basin(soaked, sea, before.terrain.dimensions);
    let kept = before.rivers.len() as int;
    lemma_drained_is_one(b, one.rivers.skip(kept), other.rivers.skip(kept));
    lemma_lists_agree(one.rivers, other.rivers, kept);
    lemma_carving_unique(soaked, one.rivers.skip(kept), one.terrain.heights, other.terrain.heights);
    lemma_extremes_are_one(
        one.terrain.heights,
        one.terrain.min_height as int,
        other.terrain.min_height as int,
        one.terrain.max_height as int,
        other.terrain.max_height as int,
    );
}

/// Copies a list of rivers.
fn copy_rivers(rivers: &Vec<River>) -> (r: Vec<River>)
    ensures
        rivers_view(r@) == rivers_view(rivers@),
{
    let mut r: Vec<River> = Vec::new();
    let mut i: usize = 0;
    while i < rivers.len()
        invariant
            i <= rivers.len(),
            r.len() == i,
            forall|k: int| 0 <= k < i ==> (#[trigger] r[k])@ == rivers[k]@,
        decreases rivers.len() - i,
    {
        r.push(rivers[i].clone());
        i = i + 1;
    }
    assert(rivers_view(r@) =~= rivers_view(rivers@));
    r
}

/// Copies a list of elevations.
fn copy_heights(heights: &Vec<i32>) -> (r: Vec<i32>)
    ensures
        r@ == heights@,
{
    let mut r: Vec<i32> = Vec::new();
    let mut i: usize = 0;
    while i < heights.len()
        invariant
            i <= heights.len(),
            r.len() == i,
            forall|k: int| 0 <= k < i ==> #[trigger] r[k] == heights[k],
        decreases heights.len() - i,
    {
        r.push(heights[i]);
        i = i + 1;
    }
    assert(r@ =~= heights@);
    r
}

/// Copies the frozen cells.
fn copy_pole(pole: &Pole) -> (r: Pole)
    ensures
        r@ == pole@,
{
    let mut tiles: Vec<(u8, u8)> = Vec::new();
    let mut i: usize = 0;
    while i < pole.frozen_tiles.len()
        invariant
            i <= pole.frozen_tiles.len(),
            tiles.len() == i,
            forall|k: int| 0 <= k < i ==> #[trigger] tiles[k] == pole.frozen_tiles[k],
        decreases pole.frozen_tiles.len() - i,
    {
        tiles.push(pole.frozen_tiles[i]);
        i = i + 1;
    }
    assert(tiles@ =~= pole.frozen_tiles@);
    Pole { frozen_tiles: tiles }
}

/// A route of the basin is a chain of touching cells of its grid.
pub proof fn lemma_route_is_chain(b: Basin, route: Seq<int>)
    requires
        b.wf(),
        b.is_route(route),
    ensures
        is_chain(route, b.w, b.h),
{
    assert forall|k: int| 0 < k < route.len() implies adjacent(
        b.w,
        b.h,
        route[k - 1],
        #[trigger] route[k],
    ) by {
        assert(b.legal_step(route[k - 1], route[k]));
    }
}

/// The rivers that drain the lakes of a terrain, in the order of their
/// sources.
fn drain_lakes(
    height_map: &Vec<i32>,
    sea_level: i32,
    open: &Vec<bool>,
    dimensions: RectDimension,
) -> (rivers: Vec<River>)
    requires
        height_map.len() == dimensions.cells(),
        classifies(
            open@,
            height_map@,
            sea_level as int,
            dimensions.width as int,
            dimensions.height as int,
        ),
    ensures
        drained(basin(height_map@, sea_level as int, dimensions), rivers_view(rivers@)),
{
    let ghost b = basin(height_map@, sea_level as int, dimensions);
    assert(open@ =~= ocean_marks(height_map@, sea_level as int, dimensions));
    let mut rivers: Vec<River> = Vec::new();
    let mut i: usize = 0;
    while i < height_map.len()
        invariant
            i <= height_map.len(),
            height_map.len() == dimensions.cells(),
            open.len() == height_map.len(),
            b == basin(height_map@, sea_level as int, dimensions),
            b == basin_of(height_map@, sea_level as int, open@, dimensions),
            forall|k: int|
                0 <= k < rivers.len() ==> {
                    &&& b.drains_best((#[trigger] rivers[k])@[0], rivers[k]@)
                    &&& river_from(b, rivers[k]@[0]) == Some(rivers[k]@)
                    &&& landlocked(b.heights, b.sea, b.w, b.h, rivers[k]@[0])
                    &&& rivers[k]@[0] < i
                },
            forall|k: int, l: int| 0 <= k < l < rivers.len() ==> rivers[k]@[0] < rivers[l]@[0],
            forall|c: int, route: Seq<int>|
                0 <= c < i && landlocked(b.heights, b.sea, b.w, b.h, c) && #[trigger] b.drains(
                    c,
                    route,
                ) ==> exists|k: int| 0 <= k < rivers.len() && (#[trigger] rivers[k])@[0] == c,
        decreases height_map.len() - i,
    {
        let ghost before = rivers@;
        if height_map[i] <= sea_level && !open[i] {
            assert(landlocked(b.heights, b.sea, b.w, b.h, i as int));
            match find_river(height_map, sea_level, open, dimensions, i) {
                Some(river) => {
                    rivers.push(river);
                    proof {
                        assert(rivers[rivers.len() - 1]@[0] == i);
                        assert forall|k: int|
                            0 <= k < before.len() implies rivers[k] == before[k] by {}
                        assert forall|c: int, route: Seq<int>|
                            0 <= c < i + 1 && landlocked(b.heights, b.sea, b.w, b.h, c)
                                && #[trigger] b.drains(c, route) implies exists|k: int|
                            0 <= k < rivers.len() && (#[trigger] rivers[k])@[0] == c by {
                            if c < i {
                                let k = choose|k: int|
                                    0 <= k < before.len() && (#[trigger] before[k])@[0] == c;
                                assert(rivers[k]@[0] == c);
                            } else {
                                assert(rivers[rivers.len() - 1]@[0] == c);
                            }
                        }
                    }
                },
                None => {},
            }
        }
        i = i + 1;
    }
    proof {
        let views = rivers_view(rivers@);
        assert forall|k: int| 0 <= k < views.len() implies {
            &&& b.drains_best((#[trigger] views[k])[0], views[k])
            &&& river_from(b, views[k][0]) == Some(views[k])
            &&& landlocked(b.heights, b.sea, b.w, b.h, views[k][0])
        } by {
            assert(views[k] == rivers[k]@);
        }
        assert forall|k: int, l: int| 0 <= k < l < views.len() implies views[k][0]
            < views[l][0] by {
            assert(views[k] == rivers[k]@);
            assert(views[l] == rivers[l]@);
        }
        assert forall|c: int, route: Seq<int>|
            landlocked(b.heights, b.sea, b.w, b.h, c) && #[trigger] b.drains(
                c,
                route,
            ) implies exists|k: int| 0 <= k < views.len() && (#[trigger] views[k])[0] == c by {
            assert(0 <= c < height_map.len());
            let k = choose|k: int| 0 <= k < rivers.len() && (#[trigger] rivers[k])@[0] == c;
            assert(views[k] == rivers[k]@);
        }
    }
    rivers
}

/// Erodes a map down: lets it rain on the land, tells the open ocean from
/// the lakes, finds for each cell of a lake the cheapest way to the open
/// ocean, and carves the rivers' beds.
///
/// `rain` holds one sample for each cell, row by row.
pub fn erode(map: &FullWorld, rain: &Vec<i32>) -> (r: Result<FullWorld, GenError>)
    ensures
        rain.len() != map@.terrain.heights.len() ==> (r matches Err(e) && e
            == GenError::SampleCount),
        rain.len() == map@.terrain.heights.len() ==> (r matches Ok(after) && eroded(
            map@,
            rain@,
            after@,
        ) && rivers_reach_ocean(map@, rain@, after@) && lakes_drained(map@, rain@, after@)),
{
    proof {
        use_type_invariant(map);
    }
    if rain.len() != map.terrain.height_map.len() {
        return Err(GenError::SampleCount);
    }
    let dimensions = map.terrain.dimensions;
    let sea_level = map.terrain.sea_level;
    let soaked = rain_erosion(&map.terrain.height_map, sea_level, rain);
    let open = classify_ocean(&soaked, sea_level, dimensions);
    let added = drain_lakes(&soaked, sea_level, &open, dimensions);
    let ghost b = basin(soaked@, sea_level as int, dimensions);
    let ghost ways = rivers_view(added@);
    let ghost w = dimensions.width as int;
    let ghost h = dimensions.height as int;
    proof {
        assert forall|k: int| 0 <= k < ways.len() implies is_chain(#[trigger] ways[k], w, h) by {
            assert(b.drains_best(ways[k][0], ways[k]));
            lemma_route_is_chain(b, ways[k]);
        }
    }
    let mut height_map = copy_heights(&soaked);
    proof {
        assert forall|r: int| 0 <= r < added.len() implies on_map(
            (#[trigger] added[r])@,
            height_map.len() as int,
        ) by {
            assert(is_chain(ways[r], w, h));
        }
    }
    carve_beds(&mut height_map, &added);
    let (min_height, max_height) = height_range(&height_map);
    let mut rivers = copy_rivers(&map.rivers);
    let mut also = copy_rivers(&map.terrain.rivers);
    let ghost old_rivers = rivers_view(rivers@);
    let mut j: usize = 0;
    while j < added.len()
        invariant
            j <= added.len(),
            ways == rivers_view(added@),
            rivers_view(rivers@) == old_rivers + ways.take(j as int),
            rivers_view(also@) == old_rivers + ways.take(j as int),
        decreases added.len() - j,
    {
        let ghost one = rivers_view(rivers@);
        let ghost two = rivers_view(also@);
        rivers.push(added[j].clone());
        also.push(added[j].clone());
        proof {
            let grown = old_rivers + ways.take(j + 1);
            assert(ways[j as int] == added[j as int]@);
            assert forall|i: int| 0 <= i < grown.len() implies rivers_view(rivers@)[i]
                == grown[i] && rivers_view(also@)[i] == grown[i] by {
                if i < one.len() {
                    assert(rivers_view(rivers@)[i] == one[i]);
                    assert(rivers_view(also@)[i] == two[i]);
                }
            }
            assert(ways.len() == added.len());
            assert(ways.take(j as int).len() == j);
            assert(one.len() == old_rivers.len() + j);
            assert(two.len() == old_rivers.len() + j);
            assert(rivers_view(rivers@).len() == rivers.len());
            assert(rivers_view(also@).len() == also.len());
            assert(grown.len() == old_rivers.len() + j + 1);
            assert(rivers_view(rivers@) =~= grown);
            assert(rivers_view(also@) =~= grown);
        }
        j = j + 1;
    }
    assert(ways.take(j as int) =~= ways);
    let terrain = TerrainMap {
        dimensions,
        sea_level,
        min_height,
        max_height,
        height_map,
        rivers: also,
    };
    let after = FullWorld { terrain, rivers, pole: copy_pole(&map.pole) };
    proof {
        let all = after@.rivers;
        assert(all == old_rivers + ways);
        assert(all.skip(old_rivers.len() as int) =~= ways);
        assert(all.take(old_rivers.len() as int) =~= old_rivers);
        assert forall|k: int| 0 <= k < all.len() implies is_chain(#[trigger] all[k], w, h) by {
            if k < old_rivers.len() {
                assert(all[k] == map@.terrain.rivers[k]);
            } else {
                assert(all[k] == ways[k - old_rivers.len()]);
            }
        }
        assert(eroded(map@, rain@, after@));
        lemma_rivers_reach_ocean(map@, rain@, after@);
        lemma_lakes_drained(map@, rain@, after@);
    }
    Ok(after)
}

} // verus!

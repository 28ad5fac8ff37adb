//! The frozen cells of a world: the border ring, and from there inward,
//! ring by ring, the cells that a roll of the dice lets freeze, and of all
//! of them no more than a maximum.
use vstd::prelude::*;
use bracket_lib::random::RandomNumberGenerator;
use crate::helpers::{
    cell_index, lemma_index_bound, lemma_point_index_point, neighbor_cells, on_border, on_grid,
    RectDimension,
};

verus! {

/// How many rings of cells lie between the cell `i` and the border of the
/// `w` by `h` grid. The border itself is ring 0.
pub open spec fn ring_of(w: int, h: int, i: int) -> int {
    let x = i % w;
    let y = i / w;
    let across = if x < w - 1 - x {
        x
    } else {
        w - 1 - x
    };
    let down = if y < h - 1 - y {
        y
    } else {
        h - 1 - y
    };
    if across < down {
        across
    } else {
        down
    }
}

/// The number of rings of a grid that can freeze: the border, and the
/// rings within it up to half of the shorter side.
pub open spec fn polar_rings(w: int, h: int) -> int {
    let half = if w / 2 < h / 2 {
        w / 2
    } else {
        h / 2
    };
    if half < 1 {
        1
    } else {
        half
    }
}

/// How a cell inside the border ring comes to freeze. Its score grows with
/// the number of frozen cells around it and with its closeness to the
/// border, and falls with the number of cells that are frozen already;
/// the cell freezes where the score beats the roll. The weights are the
/// caller's to choose.
#[derive(Debug, Clone, Copy, PartialEq, Eq, Structural)]
pub struct PolarPolicy {
    /// What each frozen cell around the candidate adds to the score.
    pub neighbor_weight: u32,
    /// What each ring that the candidate lies closer to the border than
    /// the innermost ring adds to the score.
    pub edge_weight: u32,
    /// What each cell that is frozen already takes from the score.
    pub budget_weight: u32,
    /// The number of sides of the die: a roll is one of `0 .. roll_sides`.
    pub roll_sides: u32,
}

/// The score of a candidate.
pub open spec fn polar_score(
    policy: PolarPolicy,
    neighbors: int,
    closeness: int,
    spent: int,
) -> int {
    neighbors * policy.neighbor_weight + closeness * policy.edge_weight - spent
        * policy.budget_weight
}

impl PolarPolicy {
    /// Whether a candidate freezes: whether its score beats the roll.
    pub fn accepts(&self, neighbors: u8, closeness: u8, spent: u32, roll: u32) -> (frozen: bool)
        ensures
            frozen == (polar_score(*self, neighbors as int, closeness as int, spent as int) > roll),
    {
        assert(0 <= neighbors as int * self.neighbor_weight as int <= 255 * 0xffff_ffff)
            by (nonlinear_arith)
            requires
                0 <= neighbors <= 255,
                0 <= self.neighbor_weight <= 0xffff_ffff,
        ;
        assert(0 <= closeness as int * self.edge_weight as int <= 255 * 0xffff_ffff)
            by (nonlinear_arith)
            requires
                0 <= closeness <= 255,
                0 <= self.edge_weight <= 0xffff_ffff,
        ;
        assert(0 <= spent as int * self.budget_weight as int <= 0xffff_ffff * 0xffff_ffff)
            by (nonlinear_arith)
            requires
                0 <= spent <= 0xffff_ffff,
                0 <= self.budget_weight <= 0xffff_ffff,
        ;
        let gain: i128 = neighbors as i128 * self.neighbor_weight as i128 + closeness as i128
            * self.edge_weight as i128;
        let loss: i128 = spent as i128 * self.budget_weight as i128;
        gain - loss > roll as i128
    }
}

/// What `RandomNumberGenerator::range` makes of a generator and two bounds:
/// the number that it returns, and the generator as the call leaves it.
/// Both are a matter of the generator's state and the bounds alone.
pub uninterp spec fn rolled(rng: RandomNumberGenerator, low: u32, high: u32) -> (
    u32,
    RandomNumberGenerator,
);

/// Calls `RandomNumberGenerator::range`, which returns a number from the
/// first bound on and below the second, and moves the generator on. The
/// outside function panics where the range is empty.
#[verifier::external_body]
fn roll_between(rng: &mut RandomNumberGenerator, low: u32, high: u32) -> (roll: u32)
    requires
        low < high,
    ensures
        low <= roll < high,
        roll == rolled(*old(rng), low, high).0,
        *final(rng) == rolled(*old(rng), low, high).1,
{
    rng.range(low, high)
}

/// The index of a frozen cell on a grid `w` cells wide.
pub open spec fn tile_index(tile: (u8, u8), w: int) -> int {
    cell_index(tile.0 as int, tile.1 as int, w)
}

/// The cell `i` of a grid `w` cells wide as a frozen cell: its `(x, y)`.
pub open spec fn tile_of(i: int, w: int) -> (u8, u8) {
    ((i % w) as u8, (i / w) as u8)
}

/// Whether the cell `i` is one of the frozen cells.
pub open spec fn is_frozen(frozen: Seq<(u8, u8)>, w: int, i: int) -> bool {
    exists|k: int| 0 <= k < frozen.len() && #[trigger] tile_index(frozen[k], w) == i
}

/// Whether all the frozen cells lie on the border.
pub open spec fn all_on_border(frozen: Seq<(u8, u8)>, w: int, h: int) -> bool {
    forall|k: int| 0 <= k < frozen.len() ==> on_border(w, h, tile_index(#[trigger] frozen[k], w))
}

/// Whether the die of the policy can show `roll`. A die without a side
/// shows 0.
pub open spec fn rollable(policy: PolarPolicy, roll: int) -> bool {
    if policy.roll_sides > 0 {
        0 <= roll < policy.roll_sides
    } else {
        roll == 0
    }
}

/// Whether a candidate with so many frozen cells around it and so many
/// cells frozen before it beats a roll that the die can show.
pub open spec fn beats(
    policy: PolarPolicy,
    neighbors: int,
    closeness: int,
    spent: int,
    roll: int,
) -> bool {
    &&& 0 <= neighbors <= 8
    &&& rollable(policy, roll)
    &&& polar_score(policy, neighbors, closeness, spent) > roll
}

/// Whether a cell of the given closeness to the border can freeze after
/// `spent` others: whether with some number of frozen cells around it its
/// score beats some roll of the die.
pub open spec fn may_freeze(policy: PolarPolicy, closeness: int, spent: int) -> bool {
    exists|neighbors: int, roll: int| #[trigger] beats(policy, neighbors, closeness, spent, roll)
}

/// What holds of the frozen cells of a world however the dice fall. Each
/// is a cell of the grid, none is listed twice, and there are no more of
/// them than `max_tiles`. The border ring freezes first, in the order of
/// its cells and as far as the maximum lets it; only where the whole
/// border is frozen does a cell inside it freeze. Such a cell lies in one
/// of the rings that can freeze, and with the cells frozen before it and
/// some number of frozen cells around it, it beats a roll of the die.
pub open spec fn pole_ok(
    dimensions: RectDimension,
    max_tiles: u32,
    policy: PolarPolicy,
    frozen: Seq<(u8, u8)>,
) -> bool {
    let w = dimensions.width as int;
    let h = dimensions.height as int;
    &&& forall|k: int|
        0 <= k < frozen.len() ==> on_grid(
            (#[trigger] frozen[k]).0 as int,
            frozen[k].1 as int,
            w,
            h,
        )
    &&& frozen.no_duplicates()
    &&& frozen.len() <= max_tiles
    &&& forall|c: int, d: int|
        on_border(w, h, c) && on_border(w, h, d) && c < d && #[trigger] is_frozen(frozen, w, d)
            ==> #[trigger] is_frozen(frozen, w, c)
    &&& forall|c: int|
        on_border(w, h, c) && !#[trigger] is_frozen(frozen, w, c) ==> frozen.len() == max_tiles
            && all_on_border(frozen, w, h)
    &&& forall|k: int|
        0 <= k < frozen.len() ==> ring_of(w, h, tile_index(#[trigger] frozen[k], w)) < polar_rings(
            w,
            h,
        )
    &&& forall|k: int|
        0 <= k < frozen.len() && !on_border(w, h, tile_index(#[trigger] frozen[k], w))
            ==> may_freeze(
            policy,
            polar_rings(w, h) - ring_of(w, h, tile_index(frozen[k], w)),
            k,
        )
}

/// The ring of the cell `i`.
fn ring_at(dimensions: RectDimension, i: usize) -> (ring: u8)
    requires
        i < dimensions.cells(),
    ensures
        ring == ring_of(dimensions.width as int, dimensions.height as int, i as int),
        ring == 0 <==> on_border(dimensions.width as int, dimensions.height as int, i as int),
{
    let w: usize = dimensions.width as usize;
    let h: usize = dimensions.height as usize;
    proof {
        assert(0 < w) by (nonlinear_arith)
            requires
                0 <= i < w * h,
                0 <= w,
        ;
        lemma_index_bound(i as int, w as int, h as int);
    }
    let x: usize = i % w;
    let y: usize = i / w;
    let across: usize = if x < w - 1 - x {
        x
    } else {
        w - 1 - x
    };
    let down: usize = if y < h - 1 - y {
        y
    } else {
        h - 1 - y
    };
    if across < down {
        across as u8
    } else {
        down as u8
    }
}

/// The frozen cells while they are chosen: the cells frozen so far in the
/// order of their freezing, of each cell whether it is frozen, and the
/// dice.
pub struct Freezing {
    pub frozen: Seq<(u8, u8)>,
    pub mask: Seq<bool>,
    pub dice: RandomNumberGenerator,
}

/// How many of the first `upto` of the given cells are frozen.
pub open spec fn frozen_around(mask: Seq<bool>, cells: Seq<int>, upto: int) -> int
    decreases upto,
{
    if upto <= 0 {
        0
    } else {
        frozen_around(mask, cells, upto - 1) + if mask[cells[upto - 1]] {
            1int
        } else {
            0int
        }
    }
}

/// The roll of the die of the policy, and the dice as the roll leaves
/// them. A die without a side shows 0 and is not rolled.
pub open spec fn the_roll(policy: PolarPolicy, dice: RandomNumberGenerator) -> (
    u32,
    RandomNumberGenerator,
) {
    if policy.roll_sides > 0 {
        rolled(dice, 0, policy.roll_sides)
    } else {
        (0u32, dice)
    }
}

/// The frozen cells after the cell `i` has had its turn in the ring
/// `ring`. A cell of that ring that is not frozen has its turn while fewer
/// than `max_tiles` cells are frozen: on the border it freezes; inside,
/// the die is rolled, and it freezes where its score beats the roll.
pub open spec fn freeze_cell(
    dimensions: RectDimension,
    max_tiles: u32,
    policy: PolarPolicy,
    ring: int,
    state: Freezing,
    i: int,
) -> Freezing {
    let w = dimensions.width as int;
    let h = dimensions.height as int;
    if ring_of(w, h, i) == ring && !state.mask[i] && state.frozen.len() < max_tiles {
        let taken = Freezing {
            frozen: state.frozen.push(tile_of(i, w)),
            mask: state.mask.update(i, true),
            dice: state.dice,
        };
        if ring == 0 {
            taken
        } else {
            let cells = neighbor_cells(w, h, i);
            let near = frozen_around(state.mask, cells, cells.len() as int);
            let roll = the_roll(policy, state.dice);
            if polar_score(policy, near, polar_rings(w, h) - ring, state.frozen.len() as int)
                > roll.0 {
                Freezing { dice: roll.1, ..taken }
            } else {
                Freezing { dice: roll.1, ..state }
            }
        }
    } else {
        state
    }
}

/// The frozen cells after the first `upto` cells of the grid have had
/// their turn in the ring `ring`.
pub open spec fn freeze_cells(
    dimensions: RectDimension,
    max_tiles: u32,
    policy: PolarPolicy,
    ring: int,
    state: Freezing,
    upto: int,
) -> Freezing
    decreases upto,
{
    if upto <= 0 {
        state
    } else {
        freeze_cell(
            dimensions,
            max_tiles,
            policy,
            ring,
            freeze_cells(dimensions, max_tiles, policy, ring, state, upto - 1),
            upto - 1,
        )
    }
}

/// The frozen cells after the first `upto` rings have had their turn, from
/// the border inward.
pub open spec fn freeze_rings(
    dimensions: RectDimension,
    max_tiles: u32,
    policy: PolarPolicy,
    state: Freezing,
    upto: int,
) -> Freezing
    decreases upto,
{
    if upto <= 0 {
        state
    } else {
        freeze_cells(
            dimensions,
            max_tiles,
            policy,
            upto - 1,
            freeze_rings(dimensions, max_tiles, policy, state, upto - 1),
            dimensions.cells(),
        )
    }
}

/// The cells that freeze on a grid with the given dice, in the order of
/// their freezing: ring by ring from the border inward, and in each ring
/// in the order of the cells.
pub open spec fn frozen_by(
    dimensions: RectDimension,
    max_tiles: u32,
    policy: PolarPolicy,
    dice: RandomNumberGenerator,
) -> Seq<(u8, u8)> {
    freeze_rings(
        dimensions,
        max_tiles,
        policy,
        Freezing {
            frozen: Seq::empty(),
            mask: Seq::new(dimensions.cells() as nat, |i: int| false),
            dice,
        },
        polar_rings(dimensions.width as int, dimensions.height as int),
    ).frozen
}

/// What holds of the frozen cells while they are chosen, ring by ring and
/// cell by cell, with `mask` telling of each cell whether it is frozen.
spec fn freezing(
    dimensions: RectDimension,
    max_tiles: u32,
    policy: PolarPolicy,
    frozen: Seq<(u8, u8)>,
    mask: Seq<bool>,
) -> bool {
    let w = dimensions.width as int;
    let h = dimensions.height as int;
    &&& mask.len() == w * h
    &&& frozen.len() <= max_tiles
    &&& frozen.no_duplicates()
    &&& forall|k: int|
        0 <= k < frozen.len() ==> on_grid(
            (#[trigger] frozen[k]).0 as int,
            frozen[k].1 as int,
            w,
            h,
        )
    &&& forall|k: int| 0 <= k < frozen.len() ==> mask[tile_index(#[trigger] frozen[k], w)]
    &&& forall|c: int| 0 <= c < mask.len() && #[trigger] mask[c] ==> is_frozen(frozen, w, c)
    &&& forall|c: int, d: int|
        on_border(w, h, c) && on_border(w, h, d) && c < d && #[trigger] mask[d]
            ==> #[trigger] mask[c]
    &&& forall|k: int|
        0 <= k < frozen.len() ==> ring_of(w, h, tile_index(#[trigger] frozen[k], w)) < polar_rings(
            w,
            h,
        )
    &&& forall|k: int|
        0 <= k < frozen.len() && !on_border(w, h, tile_index(#[trigger] frozen[k], w))
            ==> may_freeze(
            policy,
            polar_rings(w, h) - ring_of(w, h, tile_index(frozen[k], w)),
            k,
        )
}

/// Whether each cell of the border before `upto` is frozen, or else the
/// maximum is reached by cells of the border alone.
spec fn border_done(
    dimensions: RectDimension,
    max_tiles: u32,
    frozen: Seq<(u8, u8)>,
    mask: Seq<bool>,
    upto: int,
) -> bool {
    let w = dimensions.width as int;
    let h = dimensions.height as int;
    forall|c: int|
        0 <= c < upto && on_border(w, h, c) ==> #[trigger] mask[c] || (frozen.len() == max_tiles
            && all_on_border(frozen, w, h))
}

/// One more frozen cell, which was not frozen before, keeps what holds of
/// the frozen cells.
proof fn lemma_freeze_one(
    dimensions: RectDimension,
    max_tiles: u32,
    policy: PolarPolicy,
    frozen: Seq<(u8, u8)>,
    mask: Seq<bool>,
    i: int,
    upto: int,
)
    requires
        freezing(dimensions, max_tiles, policy, frozen, mask),
        border_done(dimensions, max_tiles, frozen, mask, upto),
        0 <= i < mask.len(),
        0 <= upto <= mask.len(),
        !mask[i],
        frozen.len() < max_tiles,
        0 < dimensions.width,
        ring_of(dimensions.width as int, dimensions.height as int, i) < polar_rings(
            dimensions.width as int,
            dimensions.height as int,
        ),
        on_border(dimensions.width as int, dimensions.height as int, i) ==> forall|d: int|
            i < d < mask.len() ==> !#[trigger] mask[d],
        on_border(dimensions.width as int, dimensions.height as int, i) ==> upto >= i,
        !on_border(dimensions.width as int, dimensions.height as int, i) ==> may_freeze(
            policy,
            polar_rings(dimensions.width as int, dimensions.height as int) - ring_of(
                dimensions.width as int,
                dimensions.height as int,
                i,
            ),
            frozen.len() as int,
        ),
    ensures
        freezing(
            dimensions,
            max_tiles,
            policy,
            frozen.push(tile_of(i, dimensions.width as int)),
            mask.update(i, true),
        ),
        border_done(
            dimensions,
            max_tiles,
            frozen.push(tile_of(i, dimensions.width as int)),
            mask.update(i, true),
            if upto > i + 1 {
                upto
            } else if upto >= i {
                i + 1
            } else {
                upto
            },
        ),
        all_on_border(frozen, dimensions.width as int, dimensions.height as int) && on_border(
            dimensions.width as int,
            dimensions.height as int,
            i,
        ) ==> all_on_border(
            frozen.push(tile_of(i, dimensions.width as int)),
            dimensions.width as int,
            dimensions.height as int,
        ),
{
    let w = dimensions.width as int;
    let h = dimensions.height as int;
    lemma_index_bound(i, w, h);
    let tile = tile_of(i, w);
    let more = frozen.push(tile);
    let marks = mask.update(i, true);
    assert(tile_index(tile, w) == i);
    assert(more[more.len() - 1] == tile);
    assert forall|k: int| 0 <= k < frozen.len() implies more[k] == frozen[k] && 0 <= tile_index(
        frozen[k],
        w,
    ) < mask.len() && tile_index(frozen[k], w) != i by {
        lemma_point_index_point(frozen[k].0 as int, frozen[k].1 as int, w, h);
        assert(mask[tile_index(frozen[k], w)]);
    }
    assert forall|a: int, b: int|
        0 <= a < more.len() && 0 <= b < more.len() && a != b implies more[a] != more[b] by {
        if a < frozen.len() && b < frozen.len() {
            assert(frozen[a] != frozen[b]);
        } else if a < frozen.len() {
            assert(tile_index(more[a], w) != i);
        } else {
            assert(tile_index(more[b], w) != i);
        }
    }
    assert forall|c: int| 0 <= c < marks.len() && #[trigger] marks[c] implies is_frozen(
        more,
        w,
        c,
    ) by {
        if c == i {
            assert(tile_index(more[more.len() - 1], w) == c);
        } else {
            assert(mask[c]);
            let k = choose|k: int|
                0 <= k < frozen.len() && #[trigger] tile_index(frozen[k], w) == c;
            assert(tile_index(more[k], w) == c);
        }
    }
    assert forall|k: int| 0 <= k < more.len() implies marks[tile_index(#[trigger] more[k], w)] by {
        if k < frozen.len() {
            assert(more[k] == frozen[k]);
        }
    }
    assert forall|c: int, d: int|
        on_border(w, h, c) && on_border(w, h, d) && c < d && #[trigger] marks[d] implies
        #[trigger] marks[c] by {
        if d == i {
            assert(mask[c] || (frozen.len() == max_tiles && all_on_border(frozen, w, h)));
        } else {
            assert(mask[d]);
            assert(mask[c]);
        }
    }
    assert forall|k: int| 0 <= k < more.len() implies ring_of(
        w,
        h,
        tile_index(#[trigger] more[k], w),
    ) < polar_rings(w, h) by {
        if k < frozen.len() {
            assert(more[k] == frozen[k]);
        }
    }
    assert forall|k: int|
        0 <= k < more.len() && !on_border(w, h, tile_index(#[trigger] more[k], w)) implies
        may_freeze(policy, polar_rings(w, h) - ring_of(w, h, tile_index(more[k], w)), k) by {
        if k < frozen.len() {
            assert(more[k] == frozen[k]);
        }
    }
    let reach = if upto > i + 1 {
        upto
    } else if upto >= i {
        i + 1
    } else {
        upto
    };
    assert forall|c: int| 0 <= c < reach && on_border(w, h, c) implies #[trigger] marks[c] || (
    more.len() == max_tiles && all_on_border(more, w, h)) by {
        if c != i {
            assert(mask[c] || (frozen.len() == max_tiles && all_on_border(frozen, w, h)));
        }
    }
    if all_on_border(frozen, w, h) && on_border(w, h, i) {
        assert forall|k: int| 0 <= k < more.len() implies on_border(
            w,
            h,
            tile_index(#[trigger] more[k], w),
        ) by {
            if k < frozen.len() {
                assert(more[k] == frozen[k]);
            }
        }
    }
}

/// Freezes the border ring, in the order of its cells and as far as
/// `max_tiles` lets it, and then, ring by ring inward, each cell that the
/// policy accepts on a roll of the dice, while fewer than `max_tiles` cells
/// are frozen.
pub(crate) fn freeze(
    dimensions: RectDimension,
    max_tiles: u32,
    policy: &PolarPolicy,
    rng: &mut RandomNumberGenerator,
) -> (frozen: Vec<(u8, u8)>)
    ensures
        pole_ok(dimensions, max_tiles, *policy, frozen@),
        frozen@ == frozen_by(dimensions, max_tiles, *policy, *old(rng)),
{
    let w: usize = dimensions.width as usize;
    let h: usize = dimensions.height as usize;
    let n: usize = dimensions.area();
    let ghost wi = w as int;
    let ghost hi = h as int;
    let half: usize = if w / 2 < h / 2 {
        w / 2
    } else {
        h / 2
    };
    let rings: usize = if half < 1 {
        1
    } else {
        half
    };
    assert(rings == polar_rings(wi, hi));
    let mut frozen: Vec<(u8, u8)> = Vec::new();
    let mut mask: Vec<bool> = vec![false; n];
    let ghost first = Freezing {
        frozen: Seq::empty(),
        mask: Seq::new(dimensions.cells() as nat, |i: int| false),
        dice: *rng,
    };
    assert(mask@ =~= first.mask);
    let mut ring: usize = 0;
    while ring < rings
        invariant
            ring <= rings,
            (Freezing { frozen: frozen@, mask: mask@, dice: *rng }) == freeze_rings(
                dimensions,
                max_tiles,
                *policy,
                first,
                ring as int,
            ),
            rings == polar_rings(wi, hi),
            rings <= 127,
            wi == w,
            hi == h,
            w == dimensions.width,
            h == dimensions.height,
            n == wi * hi,
            n <= 65025,
            freezing(dimensions, max_tiles, *policy, frozen@, mask@),
            ring == 0 ==> forall|c: int| 0 <= c < n ==> !#[trigger] mask[c],
            ring == 0 ==> frozen.len() == 0,
            ring >= 1 ==> border_done(dimensions, max_tiles, frozen@, mask@, n as int),
        decreases rings - ring,
    {
        let ghost entry = Freezing { frozen: frozen@, mask: mask@, dice: *rng };
        let mut i: usize = 0;
        while i < n
            invariant
                i <= n,
                ring < rings,
                (Freezing { frozen: frozen@, mask: mask@, dice: *rng }) == freeze_cells(
                    dimensions,
                    max_tiles,
                    *policy,
                    ring as int,
                    entry,
                    i as int,
                ),
                rings == polar_rings(wi, hi),
                rings <= 127,
                wi == w,
                hi == h,
                w == dimensions.width,
                h == dimensions.height,
                n == wi * hi,
                n <= 65025,
                freezing(dimensions, max_tiles, *policy, frozen@, mask@),
                ring == 0 ==> forall|c: int| i <= c < n ==> !#[trigger] mask[c],
                ring == 0 ==> all_on_border(frozen@, wi, hi),
                ring == 0 ==> border_done(dimensions, max_tiles, frozen@, mask@, i as int),
                ring >= 1 ==> border_done(dimensions, max_tiles, frozen@, mask@, n as int),
            decreases n - i,
        {
            proof {
                assert(0 < wi) by (nonlinear_arith)
                    requires
                        0 <= i < wi * hi,
                        0 <= wi,
                ;
                lemma_index_bound(i as int, wi, hi);
            }
            let ghost now = Freezing { frozen: frozen@, mask: mask@, dice: *rng };
            if ring_at(dimensions, i) as usize == ring && !mask[i] && frozen.len()
                < max_tiles as usize {
                let take: bool = if ring == 0 {
                    true
                } else {
                    let around = dimensions.neighbors(i);
                    let ghost cells = neighbor_cells(wi, hi, i as int);
                    let mut near: u8 = 0;
                    let mut j: usize = 0;
                    while j < around.len()
                        invariant
                            j <= around.len(),
                            around.len() <= 8,
                            near <= j,
                            mask.len() == n,
                            forall|k: int| 0 <= k < around.len() ==> #[trigger] around[k] < n,
                            around.len() == cells.len(),
                            forall|k: int|
                                0 <= k < around.len() ==> #[trigger] around[k] == cells[k],
                            near == frozen_around(mask@, cells, j as int),
                        decreases around.len() - j,
                    {
                        if mask[around[j]] {
                            near = near + 1;
                        }
                        j = j + 1;
                    }
                    let roll: u32 = if policy.roll_sides > 0 {
                        roll_between(rng, 0, policy.roll_sides)
                    } else {
                        0
                    };
                    let accepted = policy.accepts(
                        near,
                        (rings - ring) as u8,
                        frozen.len() as u32,
                        roll,
                    );
                    proof {
                        if accepted {
                            assert(beats(
                                *policy,
                                near as int,
                                rings - ring,
                                frozen.len() as int,
                                roll as int,
                            ));
                        }
                    }
                    accepted
                };
                if take {
                    proof {
                        lemma_freeze_one(
                            dimensions,
                            max_tiles,
                            *policy,
                            frozen@,
                            mask@,
                            i as int,
                            if ring == 0 {
                                i as int
                            } else {
                                n as int
                            },
                        );
                    }
                    let x: u8 = (i % w) as u8;
                    let y: u8 = (i / w) as u8;
                    frozen.push((x, y));
                    mask.set(i, true);
                }
            }
            proof {
                assert((Freezing { frozen: frozen@, mask: mask@, dice: *rng }) == freeze_cell(
                    dimensions,
                    max_tiles,
                    *policy,
                    ring as int,
                    now,
                    i as int,
                ));
                if ring == 0 {
                    assert(border_done(dimensions, max_tiles, frozen@, mask@, i + 1)) by {
                        assert forall|c: int|
                            0 <= c < i + 1 && on_border(wi, hi, c) implies #[trigger] mask[c] || (
                        frozen.len() == max_tiles && all_on_border(frozen@, wi, hi)) by {}
                    }
                }
            }
            i = i + 1;
        }
        ring = ring + 1;
    }
    proof {
        assert forall|c: int, d: int|
            on_border(wi, hi, c) && on_border(wi, hi, d) && c < d && #[trigger] is_frozen(
                frozen@,
                wi,
                d,
            ) implies #[trigger] is_frozen(frozen@, wi, c) by {
            let k = choose|k: int|
                0 <= k < frozen.len() && #[trigger] tile_index(frozen[k], wi) == d;
            assert(mask[tile_index(frozen[k], wi)]);
            assert(mask[c]);
        }
        assert forall|c: int| on_border(wi, hi, c) && !#[trigger] is_frozen(frozen@, wi, c) implies
            frozen.len() == max_tiles && all_on_border(frozen@, wi, hi) by {
            assert(mask[c] || (frozen.len() == max_tiles && all_on_border(frozen@, wi, hi)));
        }
    }
    frozen
}

} // verus!

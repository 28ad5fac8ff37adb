//! The sea level of a terrain: the level that puts a wanted share of the
//! cells under water, give or take one cell, found by a binary search
//! between the lowest and the highest elevation.
use vstd::prelude::*;
use vstd::arithmetic::power2::pow2;

verus! {

/// Why no sea level was decided.
#[derive(Debug, Clone, Copy, PartialEq, Eq, Structural)]
pub enum CalibrationFailure {
    /// The elevation grid has no cell.
    EmptyGrid,
    /// The bounds of the search crossed: no level between the lowest and the
    /// highest elevation puts the share of water within the tolerance.
    BoundsCrossed,
}

/// The number of cells of `heights` that lie at or below `level`.
pub open spec fn submerged(heights: Seq<i32>, level: int) -> nat
    decreases heights.len(),
{
    if heights.len() == 0 {
        0
    } else {
        submerged(heights.drop_last(), level) + if heights.last() <= level {
            1nat
        } else {
            0nat
        }
    }
}

/// Whether `m` is the lowest elevation of `heights`.
pub open spec fn is_lowest(heights: Seq<i32>, m: int) -> bool {
    &&& exists|i: int| 0 <= i < heights.len() && heights[i] == m
    &&& forall|i: int| 0 <= i < heights.len() ==> m <= heights[i]
}

/// Whether `m` is the highest elevation of `heights`.
pub open spec fn is_highest(heights: Seq<i32>, m: int) -> bool {
    &&& exists|i: int| 0 <= i < heights.len() && heights[i] == m
    &&& forall|i: int| 0 <= i < heights.len() ==> heights[i] <= m
}

/// The lowest elevation of a grid that is not empty.
pub open spec fn lowest(heights: Seq<i32>) -> int
    decreases heights.len(),
{
    if heights.len() <= 1 {
        heights[0] as int
    } else if heights.last() < lowest(heights.drop_last()) {
        heights.last() as int
    } else {
        lowest(heights.drop_last())
    }
}

/// The highest elevation of a grid that is not empty.
pub open spec fn highest(heights: Seq<i32>) -> int
    decreases heights.len(),
{
    if heights.len() <= 1 {
        heights[0] as int
    } else if heights.last() > highest(heights.drop_last()) {
        heights.last() as int
    } else {
        highest(heights.drop_last())
    }
}

/// With `level` as the sea level, more than the wanted share of the grid
/// plus one cell is under water. The wanted share is `target` parts of 255.
pub open spec fn too_wet(heights: Seq<i32>, target: int, level: int) -> bool {
    255 * submerged(heights, level) > target * heights.len() + 255
}

/// With `level` as the sea level, less than the wanted share of the grid
/// minus one cell is under water.
pub open spec fn too_dry(heights: Seq<i32>, target: int, level: int) -> bool {
    255 * submerged(heights, level) + 255 < target * heights.len()
}

/// With `level` as the sea level, the share of the grid under water is
/// within one cell of the wanted share: the two differ by at most `1 / n`,
/// where `n` is the number of cells.
pub open spec fn within_tolerance(heights: Seq<i32>, target: int, level: int) -> bool {
    !too_wet(heights, target, level) && !too_dry(heights, target, level)
}

/// The level at which the search over `lo ..= hi` stops: the first midpoint
/// that is within the tolerance. A midpoint that is too wet moves the upper
/// bound below it, one that is too dry moves the lower bound above it.
pub open spec fn bisect(heights: Seq<i32>, target: int, lo: int, hi: int) -> Option<int>
    decreases hi - lo + 1,
{
    if lo > hi {
        None
    } else {
        let mid = lo + (hi - lo) / 2;
        if too_wet(heights, target, mid) {
            bisect(heights, target, lo, mid - 1)
        } else if too_dry(heights, target, mid) {
            bisect(heights, target, mid + 1, hi)
        } else {
            Some(mid)
        }
    }
}

/// The number of midpoints that the search over `lo ..= hi` looks at.
pub open spec fn bisect_steps(heights: Seq<i32>, target: int, lo: int, hi: int) -> nat
    decreases hi - lo + 1,
{
    if lo > hi {
        0
    } else {
        let mid = lo + (hi - lo) / 2;
        if too_wet(heights, target, mid) {
            1 + bisect_steps(heights, target, lo, mid - 1)
        } else if too_dry(heights, target, mid) {
            1 + bisect_steps(heights, target, mid + 1, hi)
        } else {
            1
        }
    }
}

/// The sea level of a grid for a wanted share of water of `target` parts
/// of 255: the lowest elevation for no water, the highest for all water,
/// and else what the search between the two finds.
pub open spec fn calibrated(heights: Seq<i32>, target: int) -> Result<int, CalibrationFailure> {
    if heights.len() == 0 {
        Err(CalibrationFailure::EmptyGrid)
    } else if target <= 0 {
        Ok(lowest(heights))
    } else if target >= 255 {
        Ok(highest(heights))
    } else {
        match bisect(heights, target, lowest(heights), highest(heights)) {
            Some(level) => Ok(level),
            None => Err(CalibrationFailure::BoundsCrossed),
        }
    }
}

/// `lowest` is the lowest elevation and `highest` the highest.
pub proof fn lemma_extremes(heights: Seq<i32>)
    requires
        heights.len() > 0,
    ensures
        is_lowest(heights, lowest(heights)),
        is_highest(heights, highest(heights)),
        i32::MIN <= lowest(heights) <= highest(heights) <= i32::MAX,
    decreases heights.len(),
{
    if heights.len() > 1 {
        let front = heights.drop_last();
        lemma_extremes(front);
        let i = choose|i: int| 0 <= i < front.len() && front[i] == lowest(front);
        assert(heights[i] == front[i]);
        let j = choose|j: int| 0 <= j < front.len() && front[j] == highest(front);
        assert(heights[j] == front[j]);
        assert forall|k: int| 0 <= k < heights.len() implies lowest(heights) <= heights[k]
            && heights[k] <= highest(heights) by {
            if k < front.len() {
                assert(heights[k] == front[k]);
            }
        }
        let last = heights.len() - 1;
        assert(heights[last] == heights.last());
    } else {
        assert(heights[0] == lowest(heights));
    }
}

/// A higher sea level puts no fewer cells under water, and never more than
/// there are.
pub proof fn lemma_submerged_monotone(heights: Seq<i32>, a: int, b: int)
    requires
        a <= b,
    ensures
        submerged(heights, a) <= submerged(heights, b) <= heights.len(),
    decreases heights.len(),
{
    if heights.len() > 0 {
        lemma_submerged_monotone(heights.drop_last(), a, b);
    }
}

/// At the highest elevation, or above it, the whole grid is under water;
/// below the lowest, none of it.
pub proof fn lemma_submerged_extremes(heights: Seq<i32>, level: int)
    ensures
        (forall|i: int| 0 <= i < heights.len() ==> heights[i] <= level) ==> submerged(
            heights,
            level,
        ) == heights.len(),
        (forall|i: int| 0 <= i < heights.len() ==> heights[i] > level) ==> submerged(
            heights,
            level,
        ) == 0,
    decreases heights.len(),
{
    if heights.len() > 0 {
        let front = heights.drop_last();
        lemma_submerged_extremes(front, level);
        assert forall|i: int| 0 <= i < front.len() implies front[i] == heights[i] by {}
        if forall|i: int| 0 <= i < heights.len() ==> heights[i] <= level {
            assert(heights[heights.len() - 1] <= level);
            assert forall|i: int| 0 <= i < front.len() implies front[i] <= level by {
                assert(front[i] == heights[i]);
            }
        }
        if forall|i: int| 0 <= i < heights.len() ==> heights[i] > level {
            assert(heights[heights.len() - 1] > level);
            assert forall|i: int| 0 <= i < front.len() implies front[i] > level by {
                assert(front[i] == heights[i]);
            }
        }
    }
}

/// What the search finds is a level of its range within the tolerance, and
/// it finds one whenever the range holds one.
pub proof fn lemma_bisect_sound(heights: Seq<i32>, target: int, lo: int, hi: int)
    ensures
        match bisect(heights, target, lo, hi) {
            Some(level) => lo <= level <= hi && within_tolerance(heights, target, level),
            None => forall|level: int|
                lo <= level <= hi ==> !within_tolerance(heights, target, level),
        },
    decreases hi - lo + 1,
{
    if lo <= hi {
        let mid = lo + (hi - lo) / 2;
        if too_wet(heights, target, mid) {
            lemma_bisect_sound(heights, target, lo, mid - 1);
            assert forall|level: int| mid <= level <= hi implies !within_tolerance(
                heights,
                target,
                level,
            ) by {
                lemma_submerged_monotone(heights, mid, level);
            }
        } else if too_dry(heights, target, mid) {
            lemma_bisect_sound(heights, target, mid + 1, hi);
            assert forall|level: int| lo <= level <= mid implies !within_tolerance(
                heights,
                target,
                level,
            ) by {
                lemma_submerged_monotone(heights, level, mid);
            }
        }
    }
}

/// The search halves its range with every midpoint: after `k` midpoints the
/// range held at least `2^(k-1)` levels.
pub proof fn lemma_bisect_steps_bound(heights: Seq<i32>, target: int, lo: int, hi: int)
    ensures
        lo > hi ==> bisect_steps(heights, target, lo, hi) == 0,
        lo <= hi ==> bisect_steps(heights, target, lo, hi) >= 1 && pow2(
            (bisect_steps(heights, target, lo, hi) - 1) as nat,
        ) <= hi - lo + 1,
    decreases hi - lo + 1,
{
    vstd::arithmetic::power2::lemma2_to64();
    if lo <= hi {
        let mid = lo + (hi - lo) / 2;
        if too_wet(heights, target, mid) {
            lemma_bisect_steps_bound(heights, target, lo, mid - 1);
            let k = bisect_steps(heights, target, lo, mid - 1);
            if k >= 1 {
                vstd::arithmetic::power2::lemma_pow2_unfold(k);
            }
        } else if too_dry(heights, target, mid) {
            lemma_bisect_steps_bound(heights, target, mid + 1, hi);
            let k = bisect_steps(heights, target, mid + 1, hi);
            if k >= 1 {
                vstd::arithmetic::power2::lemma_pow2_unfold(k);
            }
        }
    }
}

/// The calibrated sea level lies between the lowest and the highest
/// elevation of the grid.
pub proof fn lemma_calibrated_in_range(heights: Seq<i32>, target: int)
    ensures
        calibrated(heights, target) is Ok ==> lowest(heights) <= calibrated(
            heights,
            target,
        ).unwrap() <= highest(heights) && i32::MIN <= lowest(heights) && highest(heights)
            <= i32::MAX,
{
    if heights.len() > 0 {
        lemma_extremes(heights);
        lemma_bisect_sound(heights, target, lowest(heights), highest(heights));
    }
}

/// Where the lowest elevation is that of one cell alone, and some level
/// between the lowest and the highest elevation is within the tolerance, the
/// calibration gives a level that is within the tolerance. For no water
/// wanted it is the lowest elevation, for all water the highest.
pub proof fn lemma_calibration_hits_target(heights: Seq<i32>, target: int)
    requires
        heights.len() > 0,
        0 <= target <= 255,
        target == 0 ==> submerged(heights, lowest(heights)) == 1,
        0 < target < 255 ==> exists|level: int|
            lowest(heights) <= level <= highest(heights) && within_tolerance(
                heights,
                target,
                level,
            ),
    ensures
        calibrated(heights, target) is Ok,
        within_tolerance(heights, target, calibrated(heights, target).unwrap()),
        lowest(heights) <= calibrated(heights, target).unwrap() <= highest(heights),
        target == 0 ==> calibrated(heights, target).unwrap() == lowest(heights),
        target == 255 ==> calibrated(heights, target).unwrap() == highest(heights),
{
    lemma_extremes(heights);
    if target == 0 {
        assert(target * heights.len() == 0) by (nonlinear_arith)
            requires
                target == 0,
        ;
    } else if target == 255 {
        lemma_submerged_extremes(heights, highest(heights));
    } else {
        lemma_bisect_sound(heights, target, lowest(heights), highest(heights));
    }
}

/// Where no cell lies at `level`, as many cells lie at or below it as at
/// or below the level under it.
proof fn lemma_no_cell_at(heights: Seq<i32>, level: int)
    requires
        forall|i: int| 0 <= i < heights.len() ==> heights[i] != level,
    ensures
        submerged(heights, level) == submerged(heights, level - 1),
    decreases heights.len(),
{
    if heights.len() > 0 {
        let front = heights.drop_last();
        assert forall|i: int| 0 <= i < front.len() implies front[i] != level by {
            assert(front[i] == heights[i]);
        }
        lemma_no_cell_at(front, level);
        assert(heights[heights.len() - 1] != level);
    }
}

/// Where no two cells have one elevation, a level puts at most one cell
/// more under water than the level under it.
proof fn lemma_unit_step(heights: Seq<i32>, level: int)
    requires
        heights.no_duplicates(),
    ensures
        submerged(heights, level - 1) <= submerged(heights, level) <= submerged(heights, level - 1)
            + 1,
    decreases heights.len(),
{
    if heights.len() > 0 {
        let front = heights.drop_last();
        assert forall|i: int, j: int|
            0 <= i < front.len() && 0 <= j < front.len() && i != j implies front[i] != front[j] by {
            assert(front[i] == heights[i]);
            assert(front[j] == heights[j]);
        }
        if heights.last() == level {
            assert forall|i: int| 0 <= i < front.len() implies front[i] != level by {
                assert(front[i] == heights[i]);
                assert(heights[heights.len() - 1] == level);
            }
            lemma_no_cell_at(front, level);
        } else {
            lemma_unit_step(front, level);
        }
    }
}

/// Where no cell lies under water, every cell lies above the level.
proof fn lemma_none_submerged(heights: Seq<i32>, level: int)
    requires
        submerged(heights, level) == 0,
    ensures
        forall|i: int| 0 <= i < heights.len() ==> heights[i] > level,
    decreases heights.len(),
{
    if heights.len() > 0 {
        let front = heights.drop_last();
        lemma_none_submerged(front, level);
        assert forall|i: int| 0 <= i < heights.len() implies heights[i] > level by {
            if i < front.len() {
                assert(front[i] == heights[i]);
            }
        }
    }
}

/// Where no two cells have one elevation, each number of cells between
/// those under water at `lo` and at `hi` is the number under water at
/// some level between the two.
proof fn lemma_reaches_count(heights: Seq<i32>, count: int, lo: int, hi: int)
    requires
        heights.no_duplicates(),
        lo <= hi,
        submerged(heights, lo) <= count <= submerged(heights, hi),
    ensures
        exists|level: int| lo <= level <= hi && #[trigger] submerged(heights, level) == count,
    decreases hi - lo,
{
    if submerged(heights, hi) == count {
    } else {
        lemma_unit_step(heights, hi);
        lemma_reaches_count(heights, count, lo, hi - 1);
    }
}

/// Where no two cells have one elevation, some level between the lowest
/// and the highest elevation is within the tolerance, whatever share of
/// water is wanted, and the lowest elevation is that of one cell alone:
/// the calibration of such a grid hits its target.
pub proof fn lemma_untied_grid_calibrates(heights: Seq<i32>, target: int)
    requires
        heights.len() > 0,
        0 <= target <= 255,
        heights.no_duplicates(),
    ensures
        submerged(heights, lowest(heights)) == 1,
        exists|level: int|
            lowest(heights) <= level <= highest(heights) && #[trigger] within_tolerance(
                heights,
                target,
                level,
            ),
        calibrated(heights, target) is Ok,
        within_tolerance(heights, target, calibrated(heights, target).unwrap()),
{
    let n = heights.len() as int;
    let low = lowest(heights);
    let high = highest(heights);
    lemma_extremes(heights);
    lemma_submerged_extremes(heights, low - 1);
    lemma_submerged_extremes(heights, high);
    lemma_unit_step(heights, low);
    if submerged(heights, low) == 0 {
        lemma_none_submerged(heights, low);
        let i = choose|i: int| 0 <= i < heights.len() && heights[i] == low;
        assert(heights[i] > low);
    }
    let wanted = target * n;
    assert(0 <= wanted <= 255 * n) by (nonlinear_arith)
        requires
            wanted == target * n,
            0 <= target <= 255,
            0 < n,
    ;
    let count = if wanted / 255 < 1 {
        1
    } else {
        wanted / 255
    };
    assert(1 <= count <= n && 255 * count - 255 <= wanted <= 255 * count + 255) by {
        vstd::arithmetic::div_mod::lemma_fundamental_div_mod(wanted, 255);
        vstd::arithmetic::div_mod::lemma_mod_pos_bound(wanted, 255);
        vstd::arithmetic::div_mod::lemma_div_pos_is_pos(wanted, 255);
    }
    lemma_reaches_count(heights, count, low, high);
    let level = choose|level: int|
        low <= level <= high && #[trigger] submerged(heights, level) == count;
    assert(within_tolerance(heights, target, level));
    lemma_calibration_hits_target(heights, target);
}

/// Counts the cells at or below `level`.
pub fn count_submerged(height_map: &Vec<i32>, level: i32) -> (count: usize)
    ensures
        count == submerged(height_map@, level as int),
{
    let mut count: usize = 0;
    let mut i: usize = 0;
    while i < height_map.len()
        invariant
            i <= height_map.len(),
            count <= i,
            count == submerged(height_map@.take(i as int), level as int),
        decreases height_map.len() - i,
    {
        assert(height_map@.take(i + 1).drop_last() =~= height_map@.take(i as int));
        if height_map[i] <= level {
            count = count + 1;
        }
        i = i + 1;
    }
    assert(height_map@.take(i as int) =~= height_map@);
    count
}

/// The lowest and the highest elevation of a grid that is not empty.
pub fn height_range(height_map: &Vec<i32>) -> (r: (i32, i32))
    requires
        height_map.len() > 0,
    ensures
        r.0 == lowest(height_map@),
        r.1 == highest(height_map@),
        is_lowest(height_map@, r.0 as int),
        is_highest(height_map@, r.1 as int),
        r.0 <= r.1,
{
    let mut low: i32 = height_map[0];
    let mut high: i32 = height_map[0];
    let mut i: usize = 1;
    assert(height_map@.take(1).len() == 1);
    while i < height_map.len()
        invariant
            1 <= i <= height_map.len(),
            low == lowest(height_map@.take(i as int)),
            high == highest(height_map@.take(i as int)),
        decreases height_map.len() - i,
    {
        assert(height_map@.take(i + 1).drop_last() =~= height_map@.take(i as int));
        if height_map[i] < low {
            low = height_map[i];
        }
        if height_map[i] > high {
            high = height_map[i];
        }
        i = i + 1;
    }
    proof {
        assert(height_map@.take(i as int) =~= height_map@);
        lemma_extremes(height_map@);
    }
    (low, high)
}

/// Searches `lo ..= hi` for a sea level that puts `target_water` parts of
/// 255 of the grid under water, give or take one cell. Returns the level,
/// if there is one, and the number of midpoints that it looked at. Each
/// midpoint leaves at most half of the levels, so that `k` midpoints ask
/// for a range of `2^(k-1)` levels at least.
pub fn search_sea_level(height_map: &Vec<i32>, target_water: u8, lo: i32, hi: i32) -> (r: (
    Option<i32>,
    u32,
))
    ensures
        match bisect(height_map@, target_water as int, lo as int, hi as int) {
            Some(level) => r.0 matches Some(found) && found == level,
            None => r.0 is None,
        },
        r.1 == bisect_steps(height_map@, target_water as int, lo as int, hi as int),
        lo > hi ==> r.1 == 0,
        lo <= hi ==> r.1 >= 1 && pow2((r.1 - 1) as nat) <= hi - lo + 1,
        r.1 <= 33,
{
    let n: u128 = height_map.len() as u128;
    assert(target_water as int * n <= 255 * n) by (nonlinear_arith)
        requires
            target_water <= 255,
            0 <= n,
    ;
    let wanted: u128 = target_water as u128 * n;
    let mut low: i64 = lo as i64;
    let mut high: i64 = hi as i64;
    let mut steps: u32 = 0;
    proof {
        lemma_bisect_steps_bound(height_map@, target_water as int, lo as int, hi as int);
        vstd::arithmetic::power2::lemma2_to64();
        vstd::arithmetic::power2::lemma2_to64_rest();
        if lo <= hi {
            let k = (bisect_steps(height_map@, target_water as int, lo as int, hi as int)
                - 1) as nat;
            if k >= 33 {
                vstd::arithmetic::power2::lemma_pow2_strictly_increases(32, k);
            }
        }
    }
    while low <= high
        invariant
            lo <= low <= i32::MAX + 1,
            i32::MIN - 1 <= high <= hi,
            n == height_map.len(),
            wanted == target_water as int * n,
            wanted <= 255 * n,
            bisect(height_map@, target_water as int, low as int, high as int) == bisect(
                height_map@,
                target_water as int,
                lo as int,
                hi as int,
            ),
            steps + bisect_steps(height_map@, target_water as int, low as int, high as int)
                == bisect_steps(height_map@, target_water as int, lo as int, hi as int),
            bisect_steps(height_map@, target_water as int, lo as int, hi as int) <= 33,
            lo > hi ==> bisect_steps(height_map@, target_water as int, lo as int, hi as int) == 0,
            lo <= hi ==> bisect_steps(height_map@, target_water as int, lo as int, hi as int) >= 1
                && pow2(
                (bisect_steps(height_map@, target_water as int, lo as int, hi as int) - 1) as nat,
            ) <= hi - lo + 1,
        decreases high - low + 1,
    {
        let mid: i64 = low + (high - low) / 2;
        let count: u128 = count_submerged(height_map, mid as i32) as u128;
        proof {
            lemma_submerged_monotone(height_map@, mid as int, mid as int);
        }
        steps = steps + 1;
        if 255 * count > wanted + 255 {
            high = mid - 1;
        } else if 255 * count + 255 < wanted {
            low = mid + 1;
        } else {
            return (Some(mid as i32), steps);
        }
    }
    (None, steps)
}

/// Does a binary search of sea levels until the share of the world covered
/// by sea is within one cell of `target_water` parts of 255.
///
/// For no water wanted the sea level is the lowest elevation of the grid,
/// for all water the highest. Else it is a level between the two that is
/// within the tolerance; where the elevations leave no such level, the
/// bounds of the search cross and it fails.
pub fn decide_sea_level(height_map: &Vec<i32>, target_water: u8) -> (r: Result<
    i32,
    CalibrationFailure,
>)
    ensures
        match calibrated(height_map@, target_water as int) {
            Ok(level) => r matches Ok(found) && found == level && lowest(height_map@) <= level
                <= highest(height_map@),
            Err(failure) => r == Err::<i32, CalibrationFailure>(failure),
        },
        height_map.len() == 0 <==> r == Err::<i32, CalibrationFailure>(
            CalibrationFailure::EmptyGrid,
        ),
        r == Err::<i32, CalibrationFailure>(CalibrationFailure::BoundsCrossed) <==> 0
            < height_map.len() && 0 < target_water < 255 && forall|level: int|
            lowest(height_map@) <= level <= highest(height_map@) ==> !within_tolerance(
                height_map@,
                target_water as int,
                level,
            ),
        r is Ok && 0 < target_water ==> within_tolerance(
            height_map@,
            target_water as int,
            r.unwrap() as int,
        ),
{
    if height_map.len() == 0 {
        return Err(CalibrationFailure::EmptyGrid);
    }
    let (low, high) = height_range(height_map);
    proof {
        lemma_bisect_sound(
            height_map@,
            target_water as int,
            lowest(height_map@),
            highest(height_map@),
        );
        lemma_submerged_extremes(height_map@, highest(height_map@));
    }
    if target_water == 0 {
        Ok(low)
    } else if target_water == 255 {
        Ok(high)
    } else {
        match search_sea_level(height_map, target_water, low, high).0 {
            Some(level) => Ok(level),
            None => Err(CalibrationFailure::BoundsCrossed),
        }
    }
}

} // verus!

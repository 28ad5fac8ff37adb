//! Which of the cells under water belong to the open ocean, and which to a
//! lake that the land shuts in.
use vstd::prelude::*;
use crate::helpers::{adjacent, on_border, RectDimension};

verus! {

/// Whether the cell `i` lies at or below the sea level.
pub open spec fn underwater(heights: Seq<i32>, sea: int, i: int) -> bool {
    0 <= i < heights.len() && heights[i] <= sea
}

/// Whether `path` is a chain of cells under water that starts on the border
/// of the grid and in which each cell touches the one before it.
pub open spec fn sea_path(heights: Seq<i32>, sea: int, w: int, h: int, path: Seq<int>) -> bool {
    &&& path.len() > 0
    &&& on_border(w, h, path[0])
    &&& forall|k: int| 0 <= k < path.len() ==> underwater(heights, sea, #[trigger] path[k])
    &&& forall|k: int| 0 < k < path.len() ==> adjacent(w, h, path[k - 1], #[trigger] path[k])
}

/// Whether the cell `i` belongs to the open ocean: it is under water, and
/// a chain of touching cells under water leads to it from the border.
pub open spec fn open_ocean(heights: Seq<i32>, sea: int, w: int, h: int, i: int) -> bool {
    exists|path: Seq<int>| #[trigger] sea_path(heights, sea, w, h, path) && path.last() == i
}

/// Whether the cell `i` belongs to a lake: it is under water, and no chain
/// of cells under water leads to it from the border.
pub open spec fn landlocked(heights: Seq<i32>, sea: int, w: int, h: int, i: int) -> bool {
    underwater(heights, sea, i) && !open_ocean(heights, sea, w, h, i)
}

/// Whether `open` says of each cell of the grid whether it belongs to the
/// open ocean.
pub open spec fn classifies(open: Seq<bool>, heights: Seq<i32>, sea: int, w: int, h: int) -> bool {
    &&& open.len() == heights.len()
    &&& forall|i: int|
        0 <= i < open.len() ==> #[trigger] open[i] == open_ocean(heights, sea, w, h, i)
}

/// A list without repetition of numbers below `n` has at most `n` entries.
pub proof fn lemma_distinct_below(s: Seq<usize>, n: nat)
    requires
        s.no_duplicates(),
        forall|k: int| 0 <= k < s.len() ==> #[trigger] s[k] < n,
    ensures
        s.len() <= n,
    decreases n,
{
    if n == 0 {
        if s.len() > 0 {
            assert(s[0] < n);
        }
    } else if exists|k: int| 0 <= k < s.len() && s[k] == n - 1 {
        let k = choose|k: int| 0 <= k < s.len() && s[k] == n - 1;
        let rest = s.remove(k);
        assert forall|j: int| 0 <= j < rest.len() implies #[trigger] rest[j] < n - 1 by {
            if j < k {
                assert(rest[j] == s[j]);
            } else {
                assert(rest[j] == s[j + 1]);
            }
        }
        assert forall|a: int, b: int|
            0 <= a < rest.len() && 0 <= b < rest.len() && a != b implies rest[a]
            != rest[b] by {
            let a0 = if a < k {
                a
            } else {
                a + 1
            };
            let b0 = if b < k {
                b
            } else {
                b + 1
            };
            assert(rest[a] == s[a0]);
            assert(rest[b] == s[b0]);
        }
        lemma_distinct_below(rest, (n - 1) as nat);
    } else {
        assert forall|j: int| 0 <= j < s.len() implies #[trigger] s[j] < n - 1 by {
            assert(s[j] < n);
        }
        lemma_distinct_below(s, (n - 1) as nat);
    }
}

/// A chain of the open ocean that is led one cell further, to a cell under
/// water that touches its end, is a chain of the open ocean.
pub proof fn lemma_sea_path_extend(
    heights: Seq<i32>,
    sea: int,
    w: int,
    h: int,
    path: Seq<int>,
    next: int,
)
    requires
        sea_path(heights, sea, w, h, path),
        adjacent(w, h, path.last(), next),
        underwater(heights, sea, next),
    ensures
        sea_path(heights, sea, w, h, path.push(next)),
        path.push(next).last() == next,
{
    let longer = path.push(next);
    assert forall|k: int| 0 <= k < longer.len() implies underwater(
        heights,
        sea,
        #[trigger] longer[k],
    ) by {
        if k < path.len() {
            assert(longer[k] == path[k]);
        }
    }
    assert forall|k: int| 0 < k < longer.len() implies adjacent(
        w,
        h,
        longer[k - 1],
        #[trigger] longer[k],
    ) by {
        if k < path.len() {
            assert(longer[k] == path[k]);
            assert(longer[k - 1] == path[k - 1]);
        } else {
            assert(longer[k - 1] == path.last());
        }
    }
    assert(longer[0] == path[0]);
}

/// A cell under water that touches a cell of the open ocean belongs to the
/// open ocean too, and so does a cell under water on the border.
pub proof fn lemma_open_ocean_spreads(heights: Seq<i32>, sea: int, w: int, h: int, a: int, b: int)
    ensures
        open_ocean(heights, sea, w, h, a) && adjacent(w, h, a, b) && underwater(heights, sea, b)
            ==> open_ocean(heights, sea, w, h, b),
        on_border(w, h, a) && underwater(heights, sea, a) ==> open_ocean(heights, sea, w, h, a),
        open_ocean(heights, sea, w, h, a) ==> underwater(heights, sea, a),
{
    if open_ocean(heights, sea, w, h, a) {
        let path = choose|path: Seq<int>| #[trigger]
            sea_path(heights, sea, w, h, path) && path.last() == a;
        assert(underwater(heights, sea, path[path.len() - 1]));
        if adjacent(w, h, a, b) && underwater(heights, sea, b) {
            lemma_sea_path_extend(heights, sea, w, h, path, b);
            assert(sea_path(heights, sea, w, h, path.push(b)));
        }
    }
    if on_border(w, h, a) && underwater(heights, sea, a) {
        let path = seq![a];
        assert(sea_path(heights, sea, w, h, path));
        assert(path.last() == a);
    }
}

/// Where no elevation is raised, the open ocean keeps its cells.
pub proof fn lemma_lower_keeps_ocean(
    heights: Seq<i32>,
    lowered: Seq<i32>,
    sea: int,
    w: int,
    h: int,
    i: int,
)
    requires
        heights.len() == lowered.len(),
        forall|j: int| 0 <= j < heights.len() ==> #[trigger] lowered[j] <= heights[j],
        open_ocean(heights, sea, w, h, i),
    ensures
        open_ocean(lowered, sea, w, h, i),
{
    let path = choose|path: Seq<int>| #[trigger]
        sea_path(heights, sea, w, h, path) && path.last() == i;
    assert forall|k: int| 0 <= k < path.len() implies underwater(
        lowered,
        sea,
        #[trigger] path[k],
    ) by {
        assert(underwater(heights, sea, path[k]));
        assert(lowered[path[k]] <= heights[path[k]]);
    }
    assert(sea_path(lowered, sea, w, h, path));
}

/// A chain of touching cells under water that ends in the open ocean lies
/// in the open ocean with all of its cells.
pub proof fn lemma_chain_joins_ocean(
    heights: Seq<i32>,
    sea: int,
    w: int,
    h: int,
    chain: Seq<int>,
    k: int,
)
    requires
        chain.len() >= 1,
        forall|j: int| 0 < j < chain.len() ==> adjacent(w, h, chain[j - 1], #[trigger] chain[j]),
        forall|j: int| 0 <= j < chain.len() ==> underwater(heights, sea, #[trigger] chain[j]),
        open_ocean(heights, sea, w, h, chain.last()),
        0 <= k < chain.len(),
    ensures
        open_ocean(heights, sea, w, h, chain[k]),
    decreases chain.len() - k,
{
    if k < chain.len() - 1 {
        lemma_chain_joins_ocean(heights, sea, w, h, chain, k + 1);
        assert(adjacent(w, h, chain[k], chain[k + 1]));
        assert(adjacent(w, h, chain[k + 1], chain[k]));
        assert(underwater(heights, sea, chain[k]));
        lemma_open_ocean_spreads(heights, sea, w, h, chain[k + 1], chain[k]);
    }
}

/// A set of cells under water that holds the border's cells under water,
/// and with each of its cells the cells under water that touch it, holds
/// the whole open ocean.
pub proof fn lemma_closed_marks_hold_ocean(
    marks: Seq<bool>,
    heights: Seq<i32>,
    sea: int,
    w: int,
    h: int,
    path: Seq<int>,
    k: int,
)
    requires
        marks.len() == heights.len(),
        heights.len() == w * h,
        forall|i: int|
            on_border(w, h, i) && underwater(heights, sea, i) ==> #[trigger] marks[i],
        forall|a: int, b: int|
            0 <= a < marks.len() && marks[a] && #[trigger] adjacent(w, h, a, b) && underwater(
                heights,
                sea,
                b,
            ) ==> marks[b],
        sea_path(heights, sea, w, h, path),
        0 <= k < path.len(),
    ensures
        marks[path[k]],
    decreases k,
{
    assert(underwater(heights, sea, path[k]));
    if k > 0 {
        lemma_closed_marks_hold_ocean(marks, heights, sea, w, h, path, k - 1);
        assert(underwater(heights, sea, path[k - 1]));
        assert(adjacent(w, h, path[k - 1], path[k]));
    }
}

/// Says of each cell whether it belongs to the open ocean, by spreading
/// from the border's cells under water to the cells under water that touch
/// them, until no cell is left to add.
pub fn classify_ocean(height_map: &Vec<i32>, sea_level: i32, dimensions: RectDimension) -> (open:
    Vec<bool>)
    requires
        height_map.len() == dimensions.cells(),
    ensures
        classifies(
            open@,
            height_map@,
            sea_level as int,
            dimensions.width as int,
            dimensions.height as int,
        ),
{
    let n: usize = height_map.len();
    let w: usize = dimensions.width as usize;
    let h: usize = dimensions.height as usize;
    let ghost heights = height_map@;
    let ghost sea = sea_level as int;
    let ghost wi = w as int;
    let ghost hi = h as int;
    let mut open: Vec<bool> = Vec::new();
    let mut order: Vec<usize> = Vec::new();
    let mut i: usize = 0;
    while i < n
        invariant
            i <= n,
            n == height_map.len(),
            n == wi * hi,
            heights == height_map@,
            sea == sea_level,
            wi == w,
            hi == h,
            w == dimensions.width,
            h == dimensions.height,
            open.len() == i,
            order@.no_duplicates(),
            forall|k: int|
                0 <= k < order.len() ==> #[trigger] order[k] < i && open[order[k] as int],
            forall|j: int|
                0 <= j < i ==> (#[trigger] open[j] <==> on_border(wi, hi, j) && underwater(
                    heights,
                    sea,
                    j,
                )),
            forall|j: int|
                0 <= j < i && #[trigger] open[j] ==> exists|k: int|
                    0 <= k < order.len() && #[trigger] order[k] == j,
        decreases n - i,
    {
        proof {
            assert(0 < wi) by (nonlinear_arith)
                requires
                    0 <= i < wi * hi,
                    0 <= wi,
            ;
            crate::helpers::lemma_index_bound(i as int, wi, hi);
        }
        let x: usize = i % w;
        let y: usize = i / w;
        let seed: bool = (x == 0 || x == w - 1 || y == 0 || y == h - 1) && height_map[i]
            <= sea_level;
        let ghost before = order@;
        let ghost marks = open@;
        open.push(seed);
        if seed {
            order.push(i);
        }
        proof {
            assert forall|j: int| 0 <= j < i + 1 && #[trigger] open[j] implies exists|k: int|
                0 <= k < order.len() && #[trigger] order[k] == j by {
                if j < i {
                    assert(marks[j]);
                    let k = choose|k: int| 0 <= k < before.len() && #[trigger] before[k] == j;
                    assert(order[k] == j);
                } else {
                    assert(order[order.len() - 1] == j);
                }
            }
            assert forall|k: int| 0 <= k < order.len() implies #[trigger] order[k] < i + 1
                && open[order[k] as int] by {
                if k < before.len() {
                    assert(order[k] == before[k]);
                    assert(open[order[k] as int] == marks[before[k] as int]);
                }
            }
            assert forall|a: int, b: int|
                0 <= a < order.len() && 0 <= b < order.len() && a != b implies order[a]
                != order[b] by {
                if a < before.len() && b < before.len() {
                    assert(order[a] == before[a]);
                    assert(order[b] == before[b]);
                } else if a < before.len() {
                    assert(order[a] == before[a]);
                } else if b < before.len() {
                    assert(order[b] == before[b]);
                }
            }
        }
        i = i + 1;
    }
    proof {
        assert forall|j: int| 0 <= j < n && #[trigger] open[j] implies open_ocean(
            heights,
            sea,
            wi,
            hi,
            j,
        ) by {
            lemma_open_ocean_spreads(heights, sea, wi, hi, j, j);
        }
    }
    let mut head: usize = 0;
    while head < order.len()
        invariant
            head <= order.len(),
            n == height_map.len(),
            n == wi * hi,
            heights == height_map@,
            sea == sea_level,
            wi == dimensions.width,
            hi == dimensions.height,
            open.len() == n,
            order@.no_duplicates(),
            forall|k: int|
                0 <= k < order.len() ==> #[trigger] order[k] < n && open[order[k] as int],
            forall|j: int|
                on_border(wi, hi, j) && underwater(heights, sea, j) ==> #[trigger] open[j],
            forall|j: int| 0 <= j < n && #[trigger] open[j] ==> open_ocean(heights, sea, wi, hi, j),
            forall|j: int|
                0 <= j < n && #[trigger] open[j] ==> exists|k: int|
                    0 <= k < order.len() && #[trigger] order[k] == j,
            forall|k: int, b: int|
                0 <= k < head && #[trigger] adjacent(wi, hi, order[k] as int, b) && underwater(
                    heights,
                    sea,
                    b,
                ) ==> open[b],
        decreases n - head,
    {
        proof {
            lemma_distinct_below(order@, n as nat);
        }
        let cell: usize = order[head];
        let around = dimensions.neighbors(cell);
        let mut j: usize = 0;
        while j < around.len()
            invariant
                j <= around.len(),
                head < order.len(),
                cell == order[head as int],
                cell < n,
                n == height_map.len(),
                n == wi * hi,
                heights == height_map@,
                sea == sea_level,
                wi == dimensions.width,
                hi == dimensions.height,
                open.len() == n,
                order@.no_duplicates(),
                forall|k: int|
                    0 <= k < order.len() ==> #[trigger] order[k] < n && open[order[k] as int],
                forall|j: int|
                    on_border(wi, hi, j) && underwater(heights, sea, j) ==> #[trigger] open[j],
                forall|j: int|
                    0 <= j < n && #[trigger] open[j] ==> open_ocean(heights, sea, wi, hi, j),
                forall|j: int|
                    0 <= j < n && #[trigger] open[j] ==> exists|k: int|
                        0 <= k < order.len() && #[trigger] order[k] == j,
                forall|k: int, b: int|
                    0 <= k < head && #[trigger] adjacent(wi, hi, order[k] as int, b) && underwater(
                        heights,
                        sea,
                        b,
                    ) ==> open[b],
                forall|k: int|
                    0 <= k < around.len() ==> adjacent(
                        wi,
                        hi,
                        cell as int,
                        #[trigger] around[k] as int,
                    ),
                forall|b: int|
                    adjacent(wi, hi, cell as int, b) ==> exists|k: int|
                        0 <= k < around.len() && #[trigger] around[k] == b,
                forall|k: int|
                    0 <= k < j && underwater(heights, sea, #[trigger] around[k] as int)
                        ==> open[around[k] as int],
            decreases around.len() - j,
        {
            let next: usize = around[j];
            assert(adjacent(wi, hi, cell as int, next as int));
            if height_map[next] <= sea_level && !open[next] {
                let ghost before = order@;
                let ghost marks = open@;
                proof {
                    lemma_open_ocean_spreads(heights, sea, wi, hi, cell as int, next as int);
                    assert(open[cell as int]);
                }
                open.set(next, true);
                order.push(next);
                proof {
                    assert forall|k: int| 0 <= k < order.len() implies #[trigger] order[k] < n
                        && open[order[k] as int] by {
                        if k < before.len() {
                            assert(order[k] == before[k]);
                            assert(marks[before[k] as int]);
                        }
                    }
                    assert forall|a: int, b: int|
                        0 <= a < order.len() && 0 <= b < order.len() && a != b implies order[a]
                        != order[b] by {
                        if a < before.len() && b < before.len() {
                            assert(order[a] == before[a]);
                            assert(order[b] == before[b]);
                        } else if a < before.len() {
                            assert(order[a] == before[a]);
                            assert(marks[before[a] as int]);
                        } else if b < before.len() {
                            assert(order[b] == before[b]);
                            assert(marks[before[b] as int]);
                        }
                    }
                    assert forall|j: int| 0 <= j < n && #[trigger] open[j] implies exists|k: int|
                        0 <= k < order.len() && #[trigger] order[k] == j by {
                        if j == next {
                            assert(order[order.len() - 1] == j);
                        } else {
                            assert(marks[j]);
                            let k = choose|k: int|
                                0 <= k < before.len() && #[trigger] before[k] == j;
                            assert(order[k] == j);
                        }
                    }
                    assert forall|k: int, b: int|
                        0 <= k < head && #[trigger] adjacent(wi, hi, order[k] as int, b)
                            && underwater(heights, sea, b) implies open[b] by {
                        assert(order[k] == before[k]);
                        assert(adjacent(wi, hi, before[k] as int, b));
                        assert(marks[b]);
                    }
                    assert forall|j: int|
                        on_border(wi, hi, j) && underwater(heights, sea, j) implies
                        #[trigger] open[j] by {
                        assert(marks[j]);
                    }
                    assert forall|j: int| 0 <= j < n && #[trigger] open[j] implies open_ocean(
                        heights,
                        sea,
                        wi,
                        hi,
                        j,
                    ) by {
                        if j != next {
                            assert(marks[j]);
                        }
                    }
                    assert forall|k: int|
                        0 <= k < j + 1 && underwater(
                            heights,
                            sea,
                            #[trigger] around[k] as int,
                        ) implies open[around[k] as int] by {
                        if k < j {
                            assert(marks[around[k] as int]);
                        }
                    }
                }
            }
            j = j + 1;
        }
        proof {
            assert forall|k: int, b: int|
                0 <= k < head + 1 && #[trigger] adjacent(wi, hi, order[k] as int, b) && underwater(
                    heights,
                    sea,
                    b,
                ) implies open[b] by {
                if k == head {
                    let m = choose|m: int| 0 <= m < around.len() && #[trigger] around[m] == b;
                    assert(underwater(heights, sea, around[m] as int));
                }
            }
        }
        head = head + 1;
    }
    proof {
        assert forall|a: int, b: int|
            0 <= a < open.len() && open[a] && #[trigger] adjacent(wi, hi, a, b) && underwater(
                heights,
                sea,
                b,
            ) implies open[b] by {
            let k = choose|k: int| 0 <= k < order.len() && #[trigger] order[k] == a;
            assert(adjacent(wi, hi, order[k] as int, b));
        }
        assert forall|i: int| 0 <= i < open.len() implies #[trigger] open[i] == open_ocean(
            heights,
            sea,
            wi,
            hi,
            i,
        ) by {
            if open_ocean(heights, sea, wi, hi, i) {
                let path = choose|path: Seq<int>| #[trigger]
                    sea_path(heights, sea, wi, hi, path) && path.last() == i;
                lemma_closed_marks_hold_ocean(open@, heights, sea, wi, hi, path, path.len() - 1);
            }
        }
    }
    open
}

} // verus!

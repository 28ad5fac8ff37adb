//! Drainage: the cheapest way for the water of a lake to the open ocean,
//! and the carving of the river bed along it.
//!
//! A river runs over cells that touch. Each step costs the difference of
//! the two elevations. Divided by the span between the sea level and the
//! highest point this is the normalised slope; since that span is the same
//! for every step of a map, the cheapest way is the same with and without
//! the division, and the search adds up the differences themselves.
//!
//! A rise is too small to take where its normalised size lies below three
//! over that same span, which is where the rise itself lies below three
//! elevation units.
use vstd::prelude::*;
use crate::helpers::{adjacent, gap, neighbor_cells, Distance, RectDimension};
use crate::worldgen::ocean::lemma_distinct_below;
use crate::worldgen::terrain::{rivers_view, tiles_view, River};

verus! {

/// The least rise, in elevation units, that a river takes in one step. A
/// smaller rise is jitter of the terrain, and no river climbs it.
pub const MIN_CLIMB: i64 = 3;

/// A terrain as the drainage sees it: the elevations, the sea level, which
/// cells belong to the open ocean, and the width and height of the grid.
pub struct Basin {
    pub heights: Seq<i32>,
    pub sea: int,
    pub open: Seq<bool>,
    pub w: int,
    pub h: int,
}

impl Basin {
    /// Elevations and marks cover the grid cell by cell.
    pub open spec fn wf(self) -> bool {
        &&& self.heights.len() == self.w * self.h
        &&& self.open.len() == self.heights.len()
    }

    /// What the step from `a` to `b` costs: the difference in elevation.
    pub open spec fn step_cost(self, a: int, b: int) -> nat {
        gap(self.heights[a] as int, self.heights[b] as int) as nat
    }

    /// Whether the elevations and the water let a river step from `a` to
    /// `b`. It enters water only from water, or from land into the open
    /// ocean. Inside a lake it moves only to a cell of another elevation.
    /// It takes no rise of less than [`MIN_CLIMB`].
    pub open spec fn passable(self, a: int, b: int) -> bool {
        &&& self.heights[b] <= self.sea ==> self.heights[a] <= self.sea || self.open[b]
        &&& !(self.heights[a] <= self.sea && self.heights[b] <= self.sea && !self.open[a]
            && !self.open[b] && self.heights[a] == self.heights[b])
        &&& !(self.heights[a] < self.heights[b] && self.heights[b] - self.heights[a] < MIN_CLIMB)
    }

    /// Whether a river may step from `a` to `b`: the two cells touch, and
    /// the step is passable.
    pub open spec fn legal_step(self, a: int, b: int) -> bool {
        adjacent(self.w, self.h, a, b) && self.passable(a, b)
    }

    /// Whether `route` is a chain of cells of the grid in which each step
    /// is legal.
    pub open spec fn is_route(self, route: Seq<int>) -> bool {
        &&& route.len() >= 1
        &&& forall|k: int| 0 <= k < route.len() ==> 0 <= #[trigger] route[k] < self.heights.len()
        &&& forall|k: int|
            0 < k < route.len() ==> self.legal_step(route[k - 1], #[trigger] route[k])
    }

    /// What a route costs: the sum over its steps.
    pub open spec fn route_cost(self, route: Seq<int>) -> nat
        decreases route.len(),
    {
        if route.len() <= 1 {
            0
        } else {
            self.route_cost(route.drop_last()) + self.step_cost(
                route[route.len() - 2],
                route.last(),
            )
        }
    }

    /// Whether `route` drains `source`: it is a route from `source` to a
    /// cell of the open ocean.
    pub open spec fn drains(self, source: int, route: Seq<int>) -> bool {
        &&& self.is_route(route)
        &&& route[0] == source
        &&& self.open[route.last()]
    }

    /// Whether `river` is a cheapest way from `source` to the open ocean,
    /// visits no cell twice, and touches the open ocean in its last cell
    /// only.
    pub open spec fn drains_best(self, source: int, river: Seq<int>) -> bool {
        &&& self.drains(source, river)
        &&& river.no_duplicates()
        &&& forall|k: int| 0 <= k < river.len() - 1 ==> !self.open[#[trigger] river[k]]
        &&& forall|other: Seq<int>| #[trigger]
            self.drains(source, other) ==> self.route_cost(river) <= self.route_cost(other)
    }
}

/// The terrain of the given elevations, sea level, marks and dimensions, as
/// the drainage sees it.
pub open spec fn basin_of(
    heights: Seq<i32>,
    sea: int,
    open: Seq<bool>,
    dimensions: RectDimension,
) -> Basin {
    Basin { heights, sea, open, w: dimensions.width as int, h: dimensions.height as int }
}

/// A route without its last cell is a route, and costs no more.
pub proof fn lemma_route_front(b: Basin, route: Seq<int>)
    requires
        b.is_route(route),
        route.len() >= 2,
    ensures
        b.is_route(route.drop_last()),
        route.drop_last()[0] == route[0],
        route.drop_last().last() == route[route.len() - 2],
        b.legal_step(route[route.len() - 2], route.last()),
        b.route_cost(route) == b.route_cost(route.drop_last()) + b.step_cost(
            route[route.len() - 2],
            route.last(),
        ),
{
    let front = route.drop_last();
    assert forall|k: int| 0 <= k < front.len() implies 0 <= #[trigger] front[k]
        < b.heights.len() by {
        assert(front[k] == route[k]);
    }
    assert forall|k: int| 0 < k < front.len() implies b.legal_step(
        front[k - 1],
        #[trigger] front[k],
    ) by {
        assert(front[k] == route[k]);
        assert(front[k - 1] == route[k - 1]);
    }
    assert(b.legal_step(route[route.len() - 2], route[route.len() - 1]));
}

/// A route led one legal step further is a route, and costs that step more.
pub proof fn lemma_route_push(b: Basin, route: Seq<int>, next: int)
    requires
        b.wf(),
        b.is_route(route),
        b.legal_step(route.last(), next),
    ensures
        b.is_route(route.push(next)),
        route.push(next)[0] == route[0],
        route.push(next).last() == next,
        b.route_cost(route.push(next)) == b.route_cost(route) + b.step_cost(route.last(), next),
{
    let longer = route.push(next);
    assert(longer.drop_last() =~= route);
    assert forall|k: int| 0 <= k < longer.len() implies 0 <= #[trigger] longer[k]
        < b.heights.len() by {
        if k < route.len() {
            assert(longer[k] == route[k]);
        }
    }
    assert forall|k: int| 0 < k < longer.len() implies b.legal_step(
        longer[k - 1],
        #[trigger] longer[k],
    ) by {
        if k < route.len() {
            assert(longer[k] == route[k]);
            assert(longer[k - 1] == route[k - 1]);
        } else {
            assert(longer[k - 1] == route.last());
        }
    }
    assert(longer[longer.len() - 2] == route.last());
}

/// What a search knows at one moment: of each cell whether a way to it is
/// known, what the cheapest known way costs, over which cell it comes, and
/// whether the cell is settled; and the ways themselves.
pub struct Search {
    pub dist: Seq<u64>,
    pub reached: Seq<bool>,
    pub done: Seq<bool>,
    pub prev: Seq<usize>,
    pub paths: Seq<Seq<int>>,
}

/// The search from `source` over `n` cells before its first round: the
/// source is reached at no cost, and nothing is settled.
pub open spec fn search_start(n: nat, source: int) -> Search {
    Search {
        dist: Seq::new(n, |v: int| 0u64),
        reached: Seq::new(n, |v: int| v == source),
        done: Seq::new(n, |v: int| false),
        prev: Seq::new(n, |v: int| source as usize),
        paths: Seq::new(n, |v: int| seq![source]),
    }
}

/// Whether `u` is the cell that the search settles next: the cheapest of
/// the cells that are reached and not settled, and among equals the first
/// in the order of the cells.
pub open spec fn is_next(s: Search, u: int) -> bool {
    &&& 0 <= u < s.done.len()
    &&& s.reached[u]
    &&& !s.done[u]
    &&& forall|v: int|
        0 <= v < s.done.len() && #[trigger] s.reached[v] && !s.done[v] ==> s.dist[u] <= s.dist[v]
    &&& forall|v: int| 0 <= v < u && #[trigger] s.reached[v] && !s.done[v] ==> s.dist[u] < s.dist[v]
}

/// The cell that the search settles next, if one is reached and not
/// settled.
pub open spec fn next_cell(s: Search) -> Option<int> {
    if exists|u: int| is_next(s, u) {
        Some(choose|u: int| is_next(s, u))
    } else {
        None
    }
}

/// The search after the step from the settled cell `u` to `next` has been
/// weighed: where the step is passable and leads to a cell that is not
/// settled, and the way over `u` is the first or a cheaper one, it is the
/// way that the search now knows to `next`.
pub open spec fn weigh(b: Basin, s: Search, u: int, next: int) -> Search {
    let cost = s.dist[u] + b.step_cost(u, next);
    if !s.done[next] && b.passable(u, next) && (!s.reached[next] || cost < s.dist[next]) {
        Search {
            dist: s.dist.update(next, cost as u64),
            reached: s.reached.update(next, true),
            done: s.done,
            prev: s.prev.update(next, u as usize),
            paths: s.paths.update(next, s.paths[u].push(next)),
        }
    } else {
        s
    }
}

/// The search after the steps from `u` to the first `upto` of the cells
/// `around` it have been weighed, one after the other.
pub open spec fn weigh_upto(b: Basin, s: Search, u: int, around: Seq<int>, upto: int) -> Search
    decreases upto,
{
    if upto <= 0 {
        s
    } else {
        weigh(b, weigh_upto(b, s, u, around, upto - 1), u, around[upto - 1])
    }
}

/// The search after `u` has been settled and the steps from it to the
/// cells that touch it have been weighed.
pub open spec fn settle(b: Basin, s: Search, u: int) -> Search {
    weigh_upto(
        b,
        Search { done: s.done.update(u, true), ..s },
        u,
        neighbor_cells(b.w, b.h, u),
        neighbor_cells(b.w, b.h, u).len() as int,
    )
}

/// What the search finds in so many rounds at most: the way that it
/// knows to the first cell of the open ocean that it comes to settle, and
/// nothing where no cell is left to settle.
pub open spec fn search_on(b: Basin, s: Search, rounds: nat) -> Option<Seq<int>>
    decreases rounds,
{
    match next_cell(s) {
        None => None,
        Some(u) => if b.open[u] {
            Some(s.paths[u])
        } else if rounds == 0 {
            None
        } else {
            search_on(b, settle(b, s, u), (rounds - 1) as nat)
        },
    }
}

/// The river that drains `source`, if there is one: of the cheapest ways
/// to the open ocean the one that the search finds, which settles the
/// cells in the order of their cost and of their place on the grid.
pub open spec fn river_from(b: Basin, source: int) -> Option<Seq<int>> {
    search_on(b, search_start(b.heights.len(), source), b.heights.len())
}

/// A search has one cell to settle next.
proof fn lemma_next_cell(s: Search, u: int)
    requires
        is_next(s, u),
    ensures
        next_cell(s) == Some(u),
{
    let c = choose|c: int| is_next(s, c);
    assert(is_next(s, c));
    if c < u {
        assert(s.reached[c] && !s.done[c]);
    } else if u < c {
        assert(s.reached[u] && !s.done[u]);
    }
}

/// A search in which every reached cell is settled has no cell to settle.
proof fn lemma_no_next_cell(s: Search)
    requires
        forall|v: int| 0 <= v < s.done.len() && #[trigger] s.reached[v] ==> s.done[v],
    ensures
        next_cell(s) is None,
{
    if exists|u: int| is_next(s, u) {
        let u = choose|u: int| is_next(s, u);
        assert(s.reached[u]);
    }
}

/// The way that the search knows to `v` is a route from the source, costs
/// what the search says, and runs over settled cells up to `v`.
#[verifier::opaque]
spec fn way_ok(b: Basin, source: int, s: Search, v: int) -> bool {
    let p = s.paths[v];
    &&& b.is_route(p)
    &&& p[0] == source
    &&& p.last() == v
    &&& b.route_cost(p) == s.dist[v]
    &&& p.no_duplicates()
    &&& forall|k: int| 0 <= k < p.len() - 1 ==> s.done[#[trigger] p[k]] && !b.open[p[k]]
    &&& if v == source {
        p.len() == 1
    } else {
        &&& p.len() >= 2
        &&& 0 <= p[p.len() - 2] < s.done.len()
        &&& s.prev[v] == p[p.len() - 2]
        &&& s.paths[p[p.len() - 2]] == p.drop_last()
    }
}

/// From the settled cell `z` every legal step to a cell that is not settled
/// has been weighed.
#[verifier::opaque]
spec fn relaxed(b: Basin, s: Search, z: int) -> bool {
    forall|v: int|
        0 <= v < s.done.len() && #[trigger] b.legal_step(z, v) && !s.done[v] ==> s.reached[v]
            && s.dist[v] <= s.dist[z] + b.step_cost(z, v)
}

/// No route from the source to a settled cell costs less than the search
/// says of that cell.
#[verifier::opaque]
spec fn bounds_ok(b: Basin, source: int, s: Search) -> bool {
    forall|r: Seq<int>| #[trigger]
        b.is_route(r) && r[0] == source && s.done[r.last()] ==> b.route_cost(r) >= s.dist[r.last()]
}

/// The search has a record for each cell, the source is reached at no
/// cost, and a settled cell is reached and no cell of the open ocean.
spec fn frame_ok(b: Basin, source: int, s: Search) -> bool {
    let n = b.heights.len();
    &&& b.wf()
    &&& s.dist.len() == n
    &&& s.reached.len() == n
    &&& s.done.len() == n
    &&& s.prev.len() == n
    &&& s.paths.len() == n
    &&& 0 <= source < n
    &&& s.reached[source]
    &&& s.dist[source] == 0
    &&& forall|v: int| 0 <= v < n && #[trigger] s.done[v] ==> s.reached[v] && !b.open[v]
}

/// What holds of a search at every moment.
spec fn core_ok(b: Basin, source: int, s: Search) -> bool {
    &&& frame_ok(b, source, s)
    &&& forall|v: int|
        0 <= v < s.reached.len() && #[trigger] s.reached[v] ==> way_ok(b, source, s, v)
    &&& bounds_ok(b, source, s)
}

/// What holds of a search between two rounds.
spec fn search_ok(b: Basin, source: int, s: Search) -> bool {
    &&& core_ok(b, source, s)
    &&& forall|z: int| 0 <= z < s.done.len() && #[trigger] s.done[z] ==> relaxed(b, s, z)
}

/// Whether `u` is a cell that is reached and not settled, and the cheapest
/// of these.
spec fn is_nearest(s: Search, u: int) -> bool {
    &&& 0 <= u < s.done.len()
    &&& s.reached[u]
    &&& !s.done[u]
    &&& forall|v: int|
        0 <= v < s.done.len() && #[trigger] s.reached[v] && !s.done[v] ==> s.dist[u] <= s.dist[v]
}

/// A route from the source to a cell that is not settled passes a cell
/// that is reached and not settled, and costs at least as much as the
/// search knows for that cell.
proof fn lemma_route_meets_frontier(b: Basin, source: int, s: Search, r: Seq<int>)
    requires
        search_ok(b, source, s),
        b.is_route(r),
        r[0] == source,
        !s.done[r.last()],
    ensures
        exists|v: int|
            0 <= v < s.done.len() && #[trigger] s.reached[v] && !s.done[v] && s.dist[v]
                <= b.route_cost(r),
    decreases r.len(),
{
    if r.len() == 1 {
        assert(s.reached[source] && !s.done[source] && s.dist[source] <= b.route_cost(r));
    } else {
        lemma_route_front(b, r);
        let front = r.drop_last();
        let z = front.last();
        let v = r.last();
        assert(0 <= r[r.len() - 1] < s.done.len());
        assert(0 <= r[r.len() - 2] < s.done.len());
        if s.done[z] {
            assert(b.route_cost(front) >= s.dist[z]) by {
                reveal(bounds_ok);
            }
            assert(relaxed(b, s, z));
            assert(b.legal_step(z, v));
            assert(s.reached[v] && s.dist[v] <= s.dist[z] + b.step_cost(z, v)) by {
                reveal(relaxed);
            }
            assert(s.reached[v] && !s.done[v] && s.dist[v] <= b.route_cost(r));
        } else {
            lemma_route_meets_frontier(b, source, s, front);
            let x = choose|x: int|
                0 <= x < s.done.len() && #[trigger] s.reached[x] && !s.done[x] && s.dist[x]
                    <= b.route_cost(front);
            assert(s.reached[x] && !s.done[x] && s.dist[x] <= b.route_cost(r));
        }
    }
}

/// No route from the source to a cell that is not settled costs less than
/// the nearest cell that is reached and not settled.
proof fn lemma_nearest_is_least(b: Basin, source: int, s: Search, u: int, r: Seq<int>)
    requires
        search_ok(b, source, s),
        is_nearest(s, u),
        b.is_route(r),
        r[0] == source,
        !s.done[r.last()],
    ensures
        s.dist[u] <= b.route_cost(r),
{
    lemma_route_meets_frontier(b, source, s, r);
    let v = choose|v: int|
        0 <= v < s.done.len() && #[trigger] s.reached[v] && !s.done[v] && s.dist[v]
            <= b.route_cost(r);
    assert(s.dist[u] <= s.dist[v]);
}

/// Where no cell is reached and not settled, every route from the source
/// ends in a settled cell.
proof fn lemma_exhausted(b: Basin, source: int, s: Search, r: Seq<int>)
    requires
        search_ok(b, source, s),
        forall|v: int| 0 <= v < s.done.len() && #[trigger] s.reached[v] ==> s.done[v],
        b.is_route(r),
        r[0] == source,
    ensures
        s.done[r.last()],
{
    if !s.done[r.last()] {
        lemma_route_meets_frontier(b, source, s, r);
    }
}

/// The search as it starts: the source is reached at no cost, and nothing
/// is settled.
proof fn lemma_search_starts(b: Basin, source: int, s: Search)
    requires
        b.wf(),
        0 <= source < b.heights.len(),
        s.dist.len() == b.heights.len(),
        s.reached.len() == b.heights.len(),
        s.done.len() == b.heights.len(),
        s.prev.len() == b.heights.len(),
        s.paths.len() == b.heights.len(),
        forall|v: int| 0 <= v < s.done.len() ==> !#[trigger] s.done[v],
        forall|v: int| 0 <= v < s.done.len() ==> (#[trigger] s.reached[v] <==> v == source),
        s.dist[source] == 0,
        s.paths[source] == seq![source],
    ensures
        search_ok(b, source, s),
{
    let p = s.paths[source];
    assert(b.is_route(p));
    assert(way_ok(b, source, s, source)) by {
        reveal(way_ok);
    }
    assert(bounds_ok(b, source, s)) by {
        reveal(bounds_ok);
        assert forall|r: Seq<int>| #[trigger]
            b.is_route(r) && r[0] == source && s.done[r.last()] implies b.route_cost(r)
            >= s.dist[r.last()] by {
            assert(0 <= r[r.len() - 1] < b.heights.len());
        }
    }
}

/// Settling a cell, or weighing a step to a cell that is not settled,
/// keeps the bounds of the settled cells.
proof fn lemma_bounds_kept(b: Basin, source: int, s: Search, t: Search)
    requires
        bounds_ok(b, source, s),
        s.done.len() == b.heights.len(),
        t.done == s.done,
        t.dist.len() == s.dist.len(),
        s.dist.len() == s.done.len(),
        forall|v: int| 0 <= v < s.done.len() && #[trigger] s.done[v] ==> t.dist[v] == s.dist[v],
    ensures
        bounds_ok(b, source, t),
{
    reveal(bounds_ok);
    assert forall|r: Seq<int>| #[trigger]
        b.is_route(r) && r[0] == source && t.done[r.last()] implies b.route_cost(r)
        >= t.dist[r.last()] by {
        assert(0 <= r[r.len() - 1] < b.heights.len());
        assert(s.done[r.last()]);
    }
}

/// A way that the search knows stays one where more cells are settled and
/// the records along it are kept.
proof fn lemma_way_kept(b: Basin, source: int, s: Search, t: Search, v: int)
    requires
        frame_ok(b, source, s),
        0 <= v < s.done.len(),
        way_ok(b, source, s, v),
        t.done.len() == s.done.len(),
        t.paths.len() == s.paths.len(),
        t.dist.len() == s.dist.len(),
        t.prev.len() == s.prev.len(),
        forall|k: int| 0 <= k < s.done.len() && #[trigger] s.done[k] ==> t.done[k],
        forall|k: int| 0 <= k < s.done.len() && #[trigger] s.done[k] ==> t.paths[k] == s.paths[k],
        t.paths[v] == s.paths[v],
        t.dist[v] == s.dist[v],
        t.prev[v] == s.prev[v],
    ensures
        way_ok(b, source, t, v),
{
    reveal(way_ok);
    let p = s.paths[v];
    assert forall|k: int| 0 <= k < p.len() - 1 implies t.done[#[trigger] p[k]] && !b.open[p[k]] by {
        assert(s.done[p[k]]);
    }
    if v != source {
        let z = p[p.len() - 2];
        assert(s.done[z]);
    }
}

/// The way to `u`, led one legal step further to `next`, is a way that the
/// search may know for `next`.
proof fn lemma_way_new(b: Basin, source: int, s: Search, t: Search, u: int, next: int)
    requires
        frame_ok(b, source, s),
        0 <= u < s.done.len(),
        0 <= next < s.done.len(),
        s.done[u],
        !s.done[next],
        way_ok(b, source, s, u),
        b.legal_step(u, next),
        next != source,
        t.done == s.done,
        t.paths.len() == s.paths.len(),
        t.dist.len() == s.dist.len(),
        t.prev.len() == s.prev.len(),
        t.paths[next] == s.paths[u].push(next),
        t.paths[u] == s.paths[u],
        t.dist[next] == s.dist[u] + b.step_cost(u, next),
        t.prev[next] == u,
    ensures
        way_ok(b, source, t, next),
{
    reveal(way_ok);
    let pu = s.paths[u];
    lemma_route_push(b, pu, next);
    let pn = pu.push(next);
    assert(pn.drop_last() =~= pu);
    assert(pn[pn.len() - 2] == u);
    assert forall|k: int|
        0 <= k < pn.len() - 1 implies t.done[#[trigger] pn[k]] && !b.open[pn[k]] by {
        if k < pu.len() - 1 {
            assert(pn[k] == pu[k]);
            assert(s.done[pu[k]]);
        } else {
            assert(pn[k] == u);
        }
    }
}

/// Settling the nearest cell keeps what holds of the search, but that the
/// steps from the cell itself are still to be weighed.
proof fn lemma_settle(b: Basin, source: int, s: Search, t: Search, u: int)
    requires
        search_ok(b, source, s),
        is_nearest(s, u),
        !b.open[u],
        t == (Search { done: s.done.update(u, true), ..s }),
    ensures
        core_ok(b, source, t),
        forall|z: int| 0 <= z < t.done.len() && #[trigger] t.done[z] && z != u ==> relaxed(b, t, z),
{
    let n = b.heights.len();
    assert forall|v: int| 0 <= v < n && #[trigger] t.reached[v] implies way_ok(
        b,
        source,
        t,
        v,
    ) by {
        assert(s.reached[v]);
        lemma_way_kept(b, source, s, t, v);
    }
    assert(bounds_ok(b, source, t)) by {
        reveal(bounds_ok);
        assert forall|r: Seq<int>| #[trigger]
            b.is_route(r) && r[0] == source && t.done[r.last()] implies b.route_cost(r)
            >= t.dist[r.last()] by {
            assert(0 <= r[r.len() - 1] < n);
            if r.last() == u {
                lemma_nearest_is_least(b, source, s, u, r);
            } else {
                assert(s.done[r.last()]);
            }
        }
    }
    assert forall|v: int| 0 <= v < n && #[trigger] t.done[v] implies t.reached[v] && !b.open[v] by {
        if v != u {
            assert(s.done[v]);
        }
    }
    assert forall|z: int| 0 <= z < t.done.len() && #[trigger] t.done[z] && z != u implies relaxed(
        b,
        t,
        z,
    ) by {
        assert(s.done[z]);
        assert(relaxed(b, s, z));
        reveal(relaxed);
    }
}

/// Whether the step from `u` to `v` has been weighed.
spec fn weighed(b: Basin, s: Search, u: int, v: int) -> bool {
    s.reached[v] && s.dist[v] <= s.dist[u] + b.step_cost(u, v)
}

/// Weighing the step from the settled cell `u` to `next`, and taking it
/// where it is the cheaper way, keeps what holds of the search.
proof fn lemma_relax(b: Basin, source: int, s: Search, t: Search, u: int, next: int)
    requires
        core_ok(b, source, s),
        0 <= u < s.done.len(),
        0 <= next < s.done.len(),
        s.done[u],
        !s.done[next],
        b.legal_step(u, next),
        s.dist[u] + b.step_cost(u, next) <= u64::MAX,
        !s.reached[next] || s.dist[u] + b.step_cost(u, next) < s.dist[next],
        t.done == s.done,
        t.dist == s.dist.update(next, (s.dist[u] + b.step_cost(u, next)) as u64),
        t.reached == s.reached.update(next, true),
        t.prev.len() == s.prev.len(),
        t.prev[next] == u,
        forall|k: int| 0 <= k < s.prev.len() && k != next ==> #[trigger] t.prev[k] == s.prev[k],
        t.paths == s.paths.update(next, s.paths[u].push(next)),
    ensures
        core_ok(b, source, t),
        forall|z: int|
            0 <= z < s.done.len() && s.done[z] && relaxed(b, s, z) ==> #[trigger] relaxed(b, t, z),
        forall|v: int|
            0 <= v < s.done.len() && weighed(b, s, u, v) ==> #[trigger] weighed(b, t, u, v),
        weighed(b, t, u, next),
{
    let n = b.heights.len();
    assert(s.reached[u]);
    assert(next != u);
    assert(next != source) by {
        if next == source {
            assert(s.reached[next]);
            assert(s.dist[next] == 0);
        }
    }
    assert forall|v: int| 0 <= v < n && #[trigger] t.reached[v] implies way_ok(
        b,
        source,
        t,
        v,
    ) by {
        if v == next {
            lemma_way_new(b, source, s, t, u, next);
        } else {
            assert(s.reached[v]);
            lemma_way_kept(b, source, s, t, v);
        }
    }
    lemma_bounds_kept(b, source, s, t);
    assert forall|z: int|
        0 <= z < s.done.len() && s.done[z] && relaxed(b, s, z) implies #[trigger] relaxed(
        b,
        t,
        z,
    ) by {
        reveal(relaxed);
        assert forall|v: int|
            0 <= v < t.done.len() && #[trigger] b.legal_step(z, v) && !t.done[v] implies
            t.reached[v] && t.dist[v] <= t.dist[z] + b.step_cost(z, v) by {
            assert(s.reached[v] && s.dist[v] <= s.dist[z] + b.step_cost(z, v));
        }
    }
}


/// The records of a search, put together.
spec fn snapshot(
    dist: Seq<u64>,
    reached: Seq<bool>,
    done: Seq<bool>,
    prev: Seq<usize>,
    paths: Seq<Seq<int>>,
) -> Search {
    Search { dist, reached, done, prev, paths }
}

/// No step costs as much as this.
const STEP_LIMIT: u64 = 0x1_0000_0000;

/// Whether the elevations and the water let a river step from `a` to `b`.
fn step_allowed(
    height_map: &Vec<i32>,
    sea_level: i32,
    open: &Vec<bool>,
    a: usize,
    b: usize,
    Ghost(basin): Ghost<Basin>,
) -> (ok: bool)
    requires
        a < height_map.len(),
        b < height_map.len(),
        open.len() == height_map.len(),
        basin.heights == height_map@,
        basin.sea == sea_level,
        basin.open == open@,
    ensures
        ok == basin.passable(a as int, b as int),
{
    let from: i32 = height_map[a];
    let to: i32 = height_map[b];
    if to <= sea_level && !(from <= sea_level || open[b]) {
        return false;
    }
    if from <= sea_level && to <= sea_level && !open[a] && !open[b] && from == to {
        return false;
    }
    if from < to && (to as i64 - from as i64) < MIN_CLIMB {
        return false;
    }
    true
}

/// What the step from `a` to `b` costs.
fn cost_of_step(height_map: &Vec<i32>, a: usize, b: usize) -> (cost: u64)
    requires
        a < height_map.len(),
        b < height_map.len(),
    ensures
        cost == gap(height_map[a as int] as int, height_map[b as int] as int),
        cost < STEP_LIMIT,
{
    let from: i64 = height_map[a] as i64;
    let to: i64 = height_map[b] as i64;
    <i64 as Distance>::distance(from, to) as u64
}

/// The cell that is reached and not settled and the cheapest of these, if
/// there is one.
fn nearest(dist: &Vec<u64>, reached: &Vec<bool>, done: &Vec<bool>) -> (best: Option<usize>)
    requires
        reached.len() == dist.len(),
        done.len() == dist.len(),
    ensures
        match best {
            Some(u) => u < dist.len() && reached[u as int] && !done[u as int] && (forall|v: int|
                0 <= v < dist.len() && #[trigger] reached[v] && !done[v] ==> dist[u as int]
                    <= dist[v]) && (forall|v: int|
                0 <= v < u && #[trigger] reached[v] && !done[v] ==> dist[u as int] < dist[v]),
            None => forall|v: int| 0 <= v < dist.len() && #[trigger] reached[v] ==> done[v],
        },
{
    let mut best: Option<usize> = None;
    let mut i: usize = 0;
    while i < dist.len()
        invariant
            i <= dist.len(),
            reached.len() == dist.len(),
            done.len() == dist.len(),
            match best {
                Some(u) => u < i && reached[u as int] && !done[u as int] && (forall|v: int|
                    0 <= v < i && #[trigger] reached[v] && !done[v] ==> dist[u as int] <= dist[v])
                    && (forall|v: int|
                    0 <= v < u && #[trigger] reached[v] && !done[v] ==> dist[u as int] < dist[v]),
                None => forall|v: int| 0 <= v < i && #[trigger] reached[v] ==> done[v],
            },
        decreases dist.len() - i,
    {
        if reached[i] && !done[i] {
            match best {
                Some(u) => {
                    if dist[i] < dist[u] {
                        best = Some(i);
                    }
                },
                None => {
                    best = Some(i);
                },
            }
        }
        i = i + 1;
    }
    best
}

/// The way that the search knows to `last`, cell by cell from the source.
fn trace(
    prev: &Vec<usize>,
    source: usize,
    last: usize,
    Ghost(b): Ghost<Basin>,
    Ghost(s): Ghost<Search>,
) -> (tiles: Vec<u32>)
    requires
        core_ok(b, source as int, s),
        s.prev == prev@,
        last < prev.len(),
        s.reached[last as int],
        prev.len() <= 65025,
    ensures
        tiles_view(tiles@) == s.paths[last as int],
{
    let ghost full = s.paths[last as int];
    let mut back: Vec<u32> = Vec::new();
    let mut cur: usize = last;
    proof {
        assert(full.take(full.len() as int) =~= full);
        assert(way_ok(b, source as int, s, last as int));
        reveal(way_ok);
    }
    while cur != source
        invariant
            core_ok(b, source as int, s),
            s.prev == prev@,
            prev.len() <= 65025,
            cur < prev.len(),
            s.reached[cur as int],
            full == s.paths[last as int],
            back.len() < full.len(),
            s.paths[cur as int] == full.take(full.len() - back.len()),
            forall|k: int| 0 <= k < back.len() ==> #[trigger] back[k] == full[full.len() - 1 - k],
        decreases full.len() - back.len(),
    {
        let ghost p = s.paths[cur as int];
        proof {
            assert(way_ok(b, source as int, s, cur as int));
            reveal(way_ok);
            assert(p.last() == cur);
            assert(p.drop_last() =~= full.take(full.len() - back.len() - 1));
            let z = p[p.len() - 2];
            assert(s.done[z]);
            assert(s.reached[z]);
        }
        back.push(cur as u32);
        cur = prev[cur];
    }
    proof {
        assert(way_ok(b, source as int, s, cur as int));
        reveal(way_ok);
        assert(s.paths[cur as int].len() == 1);
        assert(s.paths[cur as int][0] == source);
        assert(full.take(full.len() - back.len())[0] == full[0]);
    }
    back.push(source as u32);
    let mut tiles: Vec<u32> = Vec::new();
    let mut k: usize = back.len();
    while k > 0
        invariant
            k <= back.len(),
            back.len() == full.len(),
            tiles.len() == back.len() - k,
            forall|j: int| 0 <= j < back.len() ==> #[trigger] back[j] == full[full.len() - 1 - j],
            forall|j: int| 0 <= j < tiles.len() ==> #[trigger] tiles[j] == full[j],
        decreases k,
    {
        k = k - 1;
        tiles.push(back[k]);
    }
    assert(tiles_view(tiles@) =~= full);
    tiles
}

/// Finds the cheapest way for a river from `source` to the open ocean,
/// over legal steps only, by settling cell after cell in the order of what
/// the way to it costs. Each cell is settled once at most.
///
/// Returns no river exactly where no route leads from `source` to a cell
/// of the open ocean.
pub fn find_river(
    height_map: &Vec<i32>,
    sea_level: i32,
    open: &Vec<bool>,
    dimensions: RectDimension,
    source: usize,
) -> (found: Option<River>)
    requires
        height_map.len() == dimensions.cells(),
        open.len() == height_map.len(),
        source < height_map.len(),
    ensures
        match found {
            Some(river) => basin_of(height_map@, sea_level as int, open@, dimensions).drains_best(
                source as int,
                river@,
            ),
            None => forall|route: Seq<int>|
                !#[trigger] basin_of(height_map@, sea_level as int, open@, dimensions).drains(
                    source as int,
                    route,
                ),
        },
        match found {
            Some(river) => river_from(
                basin_of(height_map@, sea_level as int, open@, dimensions),
                source as int,
            ) == Some(river@),
            None => river_from(
                basin_of(height_map@, sea_level as int, open@, dimensions),
                source as int,
            ) is None,
        },
{
    let n: usize = height_map.len();
    let ghost b = basin_of(height_map@, sea_level as int, open@, dimensions);
    let mut dist: Vec<u64> = vec![0u64; n];
    let mut reached: Vec<bool> = vec![false; n];
    let mut done: Vec<bool> = vec![false; n];
    let mut prev: Vec<usize> = vec![source; n];
    let mut order: Vec<usize> = Vec::new();
    let ghost mut paths: Seq<Seq<int>> = Seq::new(n as nat, |v: int| seq![source as int]);
    reached.set(source, true);
    proof {
        assert(dimensions.cells() <= 65025) by (nonlinear_arith)
            requires
                dimensions.cells() == dimensions.width as int * dimensions.height as int,
                dimensions.width <= 255,
                dimensions.height <= 255,
        ;
        lemma_search_starts(b, source as int, snapshot(dist@, reached@, done@, prev@, paths));
        let first = search_start(n as nat, source as int);
        assert(dist@ =~= first.dist);
        assert(reached@ =~= first.reached);
        assert(done@ =~= first.done);
        assert(prev@ =~= first.prev);
        assert(paths =~= first.paths);
        assert(snapshot(dist@, reached@, done@, prev@, paths) == first);
    }
    loop
        invariant
            river_from(b, source as int) == search_on(
                b,
                snapshot(dist@, reached@, done@, prev@, paths),
                (n - order.len()) as nat,
            ),
            n == height_map.len(),
            n <= 65025,
            open.len() == n,
            n == dimensions.cells(),
            source < n,
            b == basin_of(height_map@, sea_level as int, open@, dimensions),
            search_ok(b, source as int, snapshot(dist@, reached@, done@, prev@, paths)),
            order@.no_duplicates(),
            forall|k: int|
                0 <= k < order.len() ==> #[trigger] order[k] < n && done[order[k] as int],
            forall|v: int|
                0 <= v < n && #[trigger] reached[v] ==> dist[v] <= order.len() * STEP_LIMIT,
        decreases n - order.len(),
    {
        let ghost s = snapshot(dist@, reached@, done@, prev@, paths);
        proof {
            lemma_distinct_below(order@, n as nat);
        }
        match nearest(&dist, &reached, &done) {
            None => {
                proof {
                    lemma_no_next_cell(s);
                    assert forall|route: Seq<int>| !#[trigger] b.drains(source as int, route) by {
                        if b.drains(source as int, route) {
                            lemma_exhausted(b, source as int, s, route);
                            assert(0 <= route[route.len() - 1] < n);
                        }
                    }
                }
                return None;
            },
            Some(u) => {
                assert(is_nearest(s, u as int));
                proof {
                    assert(is_next(s, u as int));
                    lemma_next_cell(s, u as int);
                }
                if open[u] {
                    let tiles = trace(&prev, source, u, Ghost(b), Ghost(s));
                    let river = River::new(tiles);
                    proof {
                        let p = s.paths[u as int];
                        assert(way_ok(b, source as int, s, u as int));
                        reveal(way_ok);
                        assert forall|other: Seq<int>| #[trigger]
                            b.drains(source as int, other) implies b.route_cost(p) <= b.route_cost(
                            other,
                        ) by {
                            assert(0 <= other[other.len() - 1] < n);
                            lemma_nearest_is_least(b, source as int, s, u as int, other);
                        }
                        assert(b.drains_best(source as int, p));
                    }
                    return Some(river);
                }
                let ghost before = order@;
                done.set(u, true);
                order.push(u);
                let ghost settled = snapshot(dist@, reached@, done@, prev@, paths);
                proof {
                    assert(settled.done =~= s.done.update(u as int, true));
                    lemma_settle(b, source as int, s, settled, u as int);
                    assert forall|a: int, c: int|
                        0 <= a < order.len() && 0 <= c < order.len() && a != c implies order[a]
                        != order[c] by {
                        if a < before.len() {
                            assert(order[a] == before[a]);
                            assert(s.done[before[a] as int]);
                        }
                        if c < before.len() {
                            assert(order[c] == before[c]);
                            assert(s.done[before[c] as int]);
                        }
                    }
                    assert forall|k: int| 0 <= k < order.len() implies #[trigger] order[k] < n
                        && done[order[k] as int] by {
                        if k < before.len() {
                            assert(order[k] == before[k]);
                            assert(s.done[before[k] as int]);
                        }
                    }
                    lemma_distinct_below(order@, n as nat);
                    assert(before.len() * STEP_LIMIT + STEP_LIMIT == order.len() * STEP_LIMIT)
                        by (nonlinear_arith)
                        requires
                            order.len() == before.len() + 1,
                    ;
                    assert(order.len() * STEP_LIMIT <= 65025 * STEP_LIMIT) by (nonlinear_arith)
                        requires
                            order.len() <= 65025,
                    ;
                }
                let around = dimensions.neighbors(u);
                let ghost cells = neighbor_cells(b.w, b.h, u as int);
                proof {
                    assert(b.open[u as int] == open[u as int]);
                    assert(search_on(b, s, (n - before.len()) as nat) == search_on(
                        b,
                        settle(b, s, u as int),
                        (n - order.len()) as nat,
                    ));
                    assert(settled == (Search { done: s.done.update(u as int, true), ..s }));
                }
                let mut j: usize = 0;
                while j < around.len()
                    invariant
                        j <= around.len(),
                        cells == neighbor_cells(b.w, b.h, u as int),
                        around.len() == cells.len(),
                        forall|k: int| 0 <= k < around.len() ==> #[trigger] around[k] == cells[k],
                        snapshot(dist@, reached@, done@, prev@, paths) == weigh_upto(
                            b,
                            settled,
                            u as int,
                            cells,
                            j as int,
                        ),
                        n == height_map.len(),
                        n <= 65025,
                        open.len() == n,
                        source < n,
                        u < n,
                        b == basin_of(height_map@, sea_level as int, open@, dimensions),
                        done[u as int],
                        core_ok(b, source as int, snapshot(dist@, reached@, done@, prev@, paths)),
                        forall|z: int|
                            0 <= z < n && #[trigger] done[z] && z != u ==> relaxed(
                                b,
                                snapshot(dist@, reached@, done@, prev@, paths),
                                z,
                            ),
                        forall|k: int|
                            0 <= k < j && b.legal_step(u as int, #[trigger] around[k] as int)
                                && !done[around[k] as int] ==> weighed(
                                b,
                                snapshot(dist@, reached@, done@, prev@, paths),
                                u as int,
                                around[k] as int,
                            ),
                        forall|k: int|
                            0 <= k < around.len() ==> adjacent(
                                dimensions.width as int,
                                dimensions.height as int,
                                u as int,
                                #[trigger] around[k] as int,
                            ),
                        forall|c: int|
                            adjacent(dimensions.width as int, dimensions.height as int, u as int, c)
                                ==> exists|k: int|
                                0 <= k < around.len() && #[trigger] around[k] == c,
                        order@.no_duplicates(),
                        order.len() <= n,
                        forall|k: int|
                            0 <= k < order.len() ==> #[trigger] order[k] < n
                                && done[order[k] as int],
                        forall|v: int|
                            0 <= v < n && #[trigger] reached[v] ==> dist[v] <= order.len()
                                * STEP_LIMIT,
                        dist[u as int] + STEP_LIMIT <= order.len() * STEP_LIMIT,
                        order.len() * STEP_LIMIT <= 65025 * STEP_LIMIT,
                    decreases around.len() - j,
                {
                    let next: usize = around[j];
                    let ghost now = snapshot(dist@, reached@, done@, prev@, paths);
                    assert(cells[j as int] == next);
                    assert(adjacent(
                        dimensions.width as int,
                        dimensions.height as int,
                        u as int,
                        next as int,
                    ));
                    if !done[next] && step_allowed(height_map, sea_level, open, u, next, Ghost(b)) {
                        let cost: u64 = dist[u] + cost_of_step(height_map, u, next);
                        assert(b.legal_step(u as int, next as int));
                        if !reached[next] || cost < dist[next] {
                            dist.set(next, cost);
                            reached.set(next, true);
                            prev.set(next, u);
                            proof {
                                paths = paths.update(
                                    next as int,
                                    paths[u as int].push(next as int),
                                );
                                let then = snapshot(dist@, reached@, done@, prev@, paths);
                                lemma_relax(b, source as int, now, then, u as int, next as int);
                                assert forall|z: int|
                                    0 <= z < n && #[trigger] done[z] && z != u implies relaxed(
                                    b,
                                    then,
                                    z,
                                ) by {
                                    assert(relaxed(b, now, z));
                                }
                                assert forall|k: int|
                                    0 <= k < j + 1 && b.legal_step(
                                        u as int,
                                        #[trigger] around[k] as int,
                                    ) && !done[around[k] as int] implies weighed(
                                    b,
                                    then,
                                    u as int,
                                    around[k] as int,
                                ) by {
                                    if k < j {
                                        assert(weighed(b, now, u as int, around[k] as int));
                                    }
                                }
                            }
                        }
                    }
                    assert(snapshot(dist@, reached@, done@, prev@, paths) == weigh(
                        b,
                        now,
                        u as int,
                        next as int,
                    ));
                    j = j + 1;
                }
                proof {
                    let end = snapshot(dist@, reached@, done@, prev@, paths);
                    assert(end == settle(b, s, u as int));
                    assert(relaxed(b, end, u as int)) by {
                        reveal(relaxed);
                        assert forall|v: int|
                            0 <= v < end.done.len() && #[trigger] b.legal_step(u as int, v)
                                && !end.done[v] implies end.reached[v] && end.dist[v]
                            <= end.dist[u as int] + b.step_cost(u as int, v) by {
                            let k = choose|k: int|
                                0 <= k < around.len() && #[trigger] around[k] == v;
                            assert(b.legal_step(u as int, around[k] as int));
                            assert(weighed(b, end, u as int, around[k] as int));
                        }
                    }
                    assert forall|z: int|
                        0 <= z < end.done.len() && #[trigger] end.done[z] implies relaxed(
                        b,
                        end,
                        z,
                    ) by {
                        if z != u {
                            assert(done[z]);
                        }
                    }
                }
            },
        }
    }
}


/// The elevations after the bed of `river` is carved: from the source on,
/// each cell that lies higher than the cell before it is lowered to that
/// cell's elevation, so that the bed nowhere rises on its way to the ocean.
pub open spec fn carved(heights: Seq<i32>, river: Seq<int>) -> Seq<i32>
    decreases river.len(),
{
    if river.len() <= 1 {
        heights
    } else {
        let before = carved(heights, river.drop_last());
        let level = before[river[river.len() - 2]];
        if before[river.last()] > level {
            before.update(river.last(), level)
        } else {
            before
        }
    }
}

/// Whether each cell of `river` is a cell of a grid of `n` cells.
pub open spec fn on_map(river: Seq<int>, n: int) -> bool {
    forall|k: int| 0 <= k < river.len() ==> 0 <= #[trigger] river[k] < n
}

/// Carving lowers and never raises; it leaves the cells off the river as
/// they are; and it leaves no cell of the river above the elevation that
/// the source had.
pub proof fn lemma_carved(heights: Seq<i32>, river: Seq<int>)
    requires
        on_map(river, heights.len() as int),
    ensures
        carved(heights, river).len() == heights.len(),
        forall|i: int|
            0 <= i < heights.len() ==> #[trigger] carved(heights, river)[i] <= heights[i],
        forall|i: int|
            0 <= i < heights.len() && (forall|k: int| 0 <= k < river.len() ==> river[k] != i)
                ==> #[trigger] carved(heights, river)[i] == heights[i],
        forall|k: int|
            0 <= k < river.len() ==> carved(heights, river)[#[trigger] river[k]]
                <= heights[river[0]],
    decreases river.len(),
{
    if river.len() > 1 {
        let front = river.drop_last();
        assert forall|k: int| 0 <= k < front.len() implies 0 <= #[trigger] front[k]
            < heights.len() by {
            assert(front[k] == river[k]);
        }
        lemma_carved(heights, front);
        let before = carved(heights, front);
        let after = carved(heights, river);
        assert(front[0] == river[0]);
        assert(front[front.len() - 1] == river[river.len() - 2]);
        assert(0 <= river[river.len() - 1] < heights.len());
        assert forall|k: int| 0 <= k < river.len() implies after[#[trigger] river[k]]
            <= heights[river[0]] by {
            if k < front.len() {
                assert(front[k] == river[k]);
                assert(before[front[k]] <= heights[front[0]]);
            }
        }
        assert forall|i: int|
            0 <= i < heights.len() && (forall|k: int|
                0 <= k < river.len() ==> river[k] != i) implies #[trigger] after[i]
            == heights[i] by {
            assert forall|k: int| 0 <= k < front.len() implies front[k] != i by {
                assert(front[k] == river[k]);
            }
            assert(river[river.len() - 1] != i);
        }
    }
}

/// Whether the bed of `river` nowhere rises on its way: whether no cell of
/// it lies higher than the cell before it.
pub open spec fn settled(heights: Seq<i32>, river: Seq<int>) -> bool {
    forall|k: int| 0 < k < river.len() ==> heights[#[trigger] river[k]] <= heights[river[k - 1]]
}

/// Whether the bed of none of `rivers` rises anywhere.
pub open spec fn beds_settled(heights: Seq<i32>, rivers: Seq<Seq<int>>) -> bool {
    forall|r: int| 0 <= r < rivers.len() ==> settled(heights, #[trigger] rivers[r])
}

/// Whether `low` is a terrain of the cells of `high` in which no cell lies
/// higher than in `high`.
pub open spec fn no_higher(low: Seq<i32>, high: Seq<i32>) -> bool {
    &&& low.len() == high.len()
    &&& forall|i: int| 0 <= i < low.len() ==> #[trigger] low[i] <= high[i]
}

/// Whether every terrain that raises no cell of `heights` and in which no
/// bed rises lies nowhere above `carved`.
pub open spec fn least_carving(heights: Seq<i32>, rivers: Seq<Seq<int>>, carved: Seq<i32>) -> bool {
    forall|other: Seq<i32>|
        no_higher(other, heights) && #[trigger] beds_settled(other, rivers) ==> no_higher(
            other,
            carved,
        )
}

/// Whether `carved` is the terrain `heights` with the beds of `rivers`
/// carved: no cell is raised, no bed rises anywhere on its way to the
/// ocean, and no more is taken away than that asks for. There is one such
/// terrain, and it does not depend on the order of the rivers.
pub open spec fn is_carving(heights: Seq<i32>, rivers: Seq<Seq<int>>, carved: Seq<i32>) -> bool {
    &&& no_higher(carved, heights)
    &&& beds_settled(carved, rivers)
    &&& least_carving(heights, rivers, carved)
}

/// A terrain has one carving.
pub proof fn lemma_carving_unique(
    heights: Seq<i32>,
    rivers: Seq<Seq<int>>,
    one: Seq<i32>,
    other: Seq<i32>,
)
    requires
        is_carving(heights, rivers, one),
        is_carving(heights, rivers, other),
    ensures
        one == other,
{
    assert(no_higher(one, other));
    assert(no_higher(other, one));
    assert(one =~= other);
}

/// Along a bed that nowhere rises no cell lies above the source.
pub proof fn lemma_settled_below_source(heights: Seq<i32>, river: Seq<int>, k: int)
    requires
        settled(heights, river),
        0 <= k < river.len(),
    ensures
        heights[river[k]] <= heights[river[0]],
    decreases k,
{
    if k > 0 {
        lemma_settled_below_source(heights, river, k - 1);
        assert(heights[river[k]] <= heights[river[k - 1]]);
    }
}

/// Where the carving of a bed changes nothing, the bed nowhere rises.
proof fn lemma_carve_fixed(heights: Seq<i32>, river: Seq<int>)
    requires
        on_map(river, heights.len() as int),
        carved(heights, river) == heights,
    ensures
        settled(heights, river),
    decreases river.len(),
{
    if river.len() > 1 {
        let front = river.drop_last();
        assert forall|k: int| 0 <= k < front.len() implies 0 <= #[trigger] front[k]
            < heights.len() by {
            assert(front[k] == river[k]);
        }
        lemma_carved(heights, front);
        let before = carved(heights, front);
        let last = river.last();
        let level = before[river[river.len() - 2]];
        assert(0 <= river[river.len() - 1] < heights.len());
        assert(0 <= river[river.len() - 2] < heights.len());
        assert forall|i: int| 0 <= i < heights.len() implies before[i] == heights[i] by {
            if before[last] > level {
                assert(carved(heights, river)[i] == before.update(last, level)[i]);
            }
        }
        assert(before =~= heights);
        lemma_carve_fixed(heights, front);
        assert forall|k: int| 0 < k < river.len() implies heights[#[trigger] river[k]]
            <= heights[river[k - 1]] by {
            if k < front.len() {
                assert(front[k] == river[k]);
                assert(front[k - 1] == river[k - 1]);
            } else if before[last] > level {
                assert(carved(heights, river)[last] == level);
            }
        }
    }
}

/// The carving of a bed takes no cell below a terrain that lay no higher
/// before and in which that bed nowhere rises.
proof fn lemma_carved_keeps_above(heights: Seq<i32>, river: Seq<int>, other: Seq<i32>)
    requires
        on_map(river, heights.len() as int),
        no_higher(other, heights),
        settled(other, river),
    ensures
        no_higher(other, carved(heights, river)),
    decreases river.len(),
{
    lemma_carved(heights, river);
    if river.len() > 1 {
        let front = river.drop_last();
        assert forall|k: int| 0 <= k < front.len() implies 0 <= #[trigger] front[k]
            < heights.len() by {
            assert(front[k] == river[k]);
        }
        assert forall|k: int| 0 < k < front.len() implies other[#[trigger] front[k]]
            <= other[front[k - 1]] by {
            assert(front[k] == river[k]);
            assert(front[k - 1] == river[k - 1]);
        }
        lemma_carved_keeps_above(heights, front, other);
        let before = carved(heights, front);
        let last = river[river.len() - 1];
        let prev = river[river.len() - 2];
        assert(0 <= last < heights.len());
        assert(0 <= prev < heights.len());
        assert(other[last] <= other[prev]);
        assert(other[prev] <= before[prev]);
    }
}

/// How far the cells of a terrain lie above the lowest elevation that
/// there is, taken together.
pub open spec fn total_height(heights: Seq<i32>) -> nat
    decreases heights.len(),
{
    if heights.len() == 0 {
        0
    } else {
        total_height(heights.drop_last()) + (heights.last() - i32::MIN) as nat
    }
}

/// A terrain that lies nowhere higher than another and somewhere lower
/// lies lower taken together.
proof fn lemma_total_height(low: Seq<i32>, high: Seq<i32>)
    requires
        no_higher(low, high),
    ensures
        total_height(low) <= total_height(high),
        low != high ==> total_height(low) < total_height(high),
    decreases low.len(),
{
    if low.len() > 0 {
        let a = low.drop_last();
        let b = high.drop_last();
        assert forall|i: int| 0 <= i < a.len() implies #[trigger] a[i] <= b[i] by {
            assert(a[i] == low[i]);
            assert(b[i] == high[i]);
        }
        lemma_total_height(a, b);
        assert(low[low.len() - 1] <= high[high.len() - 1]);
        if low != high {
            if a == b && low.last() == high.last() {
                assert(low =~= a.push(low.last()));
                assert(high =~= b.push(high.last()));
            }
        }
    } else {
        assert(low =~= high);
    }
}

/// Carves the bed of `river` into the elevations, and says whether that
/// changed them.
pub fn carve(height_map: &mut Vec<i32>, river: &River) -> (changed: bool)
    requires
        on_map(river@, old(height_map).len() as int),
    ensures
        final(height_map)@ == carved(old(height_map)@, river@),
        changed <==> final(height_map)@ != old(height_map)@,
{
    let tiles = river.tiles();
    let ghost start = height_map@;
    let ghost way = river@;
    assert(way.len() == tiles.len());
    if tiles.len() <= 1 {
        return false;
    }
    let mut changed: bool = false;
    let mut k: usize = 1;
    assert(way.take(1).len() == 1);
    while k < tiles.len()
        invariant
            1 <= k <= tiles.len(),
            way == tiles_view(tiles@),
            way == river@,
            on_map(way, start.len() as int),
            height_map.len() == start.len(),
            height_map@ == carved(start, way.take(k as int)),
            changed <==> height_map@ != start,
        decreases tiles.len() - k,
    {
        proof {
            let part = way.take(k + 1);
            assert(part.drop_last() =~= way.take(k as int));
            assert(part[part.len() - 2] == way[k - 1]);
            assert(part.last() == way[k as int]);
            assert(0 <= way[k - 1] < start.len());
            assert(0 <= way[k as int] < start.len());
            let part_before = way.take(k as int);
            assert forall|j: int| 0 <= j < part_before.len() implies 0 <= #[trigger] part_before[j]
                < start.len() by {
                assert(part_before[j] == way[j]);
            }
            lemma_carved(start, way.take(k as int));
        }
        let from: usize = tiles[k - 1] as usize;
        let to: usize = tiles[k] as usize;
        let level: i32 = height_map[from];
        if height_map[to] > level {
            height_map.set(to, level);
            changed = true;
            assert(height_map[to as int] < start[to as int]);
        }
        k = k + 1;
    }
    assert(way.take(k as int) =~= way);
    changed
}

/// Carves the beds of all the rivers into the elevations: carves bed after
/// bed, and again, until no bed rises anywhere, so that a bed which runs
/// through the source of another one is taken as low as that source comes
/// to lie.
pub fn carve_beds(height_map: &mut Vec<i32>, rivers: &Vec<River>)
    requires
        forall|r: int|
            0 <= r < rivers.len() ==> on_map((#[trigger] rivers[r])@, old(height_map).len() as int),
    ensures
        is_carving(old(height_map)@, rivers_view(rivers@), final(height_map)@),
{
    let ghost start = height_map@;
    let ghost ways = rivers_view(rivers@);
    let mut done: bool = false;
    while !done
        invariant
            ways == rivers_view(rivers@),
            forall|r: int| 0 <= r < ways.len() ==> on_map(#[trigger] ways[r], start.len() as int),
            no_higher(height_map@, start),
            least_carving(start, ways, height_map@),
            done ==> beds_settled(height_map@, ways),
        decreases
                total_height(height_map@) + if done {
                    0int
                } else {
                    1int
                },
    {
        let ghost round = height_map@;
        let mut changed: bool = false;
        let mut j: usize = 0;
        while j < rivers.len()
            invariant
                j <= rivers.len(),
                ways == rivers_view(rivers@),
                forall|r: int|
                    0 <= r < ways.len() ==> on_map(#[trigger] ways[r], start.len() as int),
                no_higher(round, start),
                no_higher(height_map@, round),
                least_carving(start, ways, height_map@),
                changed <==> height_map@ != round,
                !changed ==> forall|r: int| 0 <= r < j ==> settled(round, #[trigger] ways[r]),
            decreases rivers.len() - j,
        {
            let ghost before = height_map@;
            assert(ways[j as int] == rivers[j as int]@);
            let lowered = carve(height_map, &rivers[j]);
            proof {
                lemma_carved(before, ways[j as int]);
                assert forall|other: Seq<i32>|
                    no_higher(other, start) && #[trigger] beds_settled(
                        other,
                        ways,
                    ) implies no_higher(other, height_map@) by {
                    assert(no_higher(other, before));
                    assert(settled(other, ways[j as int]));
                    lemma_carved_keeps_above(before, ways[j as int], other);
                }
                if !lowered {
                    lemma_carve_fixed(before, ways[j as int]);
                } else {
                    assert(height_map@ != round) by {
                        if height_map@ == round {
                            assert(before =~= round);
                        }
                    }
                }
            }
            changed = changed || lowered;
            j = j + 1;
        }
        proof {
            lemma_total_height(height_map@, round);
        }
        if !changed {
            done = true;
        }
    }
}

} // verus!

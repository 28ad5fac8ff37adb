//! Helper functions and structures that are used throughout the codebase:
//! the row-major grid mapper, neighbourhoods, distances and dimensions.
use vstd::prelude::*;

verus! {

/// A tuple `(x, y)` meant to represent a point in space.
pub type Point<A> = (A, A);

/// Why the grid mapper refused an index or a coordinate pair.
#[derive(Debug, Clone, Copy, PartialEq, Eq, Structural)]
pub enum GridError {
    /// The index or the point does not lie on the grid.
    OutOfBounds,
}

/// The row-major index of the point `(x, y)` on a grid `w` cells wide.
pub open spec fn cell_index(x: int, y: int, w: int) -> int {
    y * w + x
}

/// The point `(x, y)` of the row-major index `i` on a grid `w` cells wide.
pub open spec fn cell_point(i: int, w: int) -> (int, int) {
    (i % w, i / w)
}

/// Whether `(x, y)` lies on the grid of `w` by `h` cells.
pub open spec fn on_grid(x: int, y: int, w: int, h: int) -> bool {
    0 <= x < w && 0 <= y < h
}

/// Whether `a` and `b` are two different cells of the `w` by `h` grid that
/// touch, by an edge or by a corner.
pub open spec fn adjacent(w: int, h: int, a: int, b: int) -> bool {
    &&& 0 <= a < w * h
    &&& 0 <= b < w * h
    &&& a != b
    &&& -1 <= a % w - b % w <= 1
    &&& -1 <= a / w - b / w <= 1
}

/// Whether the cell `i` lies on the outer ring of the `w` by `h` grid.
pub open spec fn on_border(w: int, h: int, i: int) -> bool {
    &&& 0 <= i < w * h
    &&& (i % w == 0 || i % w == w - 1 || i / w == 0 || i / w == h - 1)
}

/// The eight points around `(x, y)`, in the order in which
/// [`points_around`] lists them.
pub open spec fn around(x: int, y: int) -> Seq<(int, int)> {
    seq![
        (x - 1, y),
        (x - 1, y - 1),
        (x - 1, y + 1),
        (x, y + 1),
        (x, y - 1),
        (x + 1, y - 1),
        (x + 1, y),
        (x + 1, y + 1),
    ]
}

/// An index below `w * h` has its quotient by `w` below `h`, and the other
/// way round.
pub proof fn lemma_index_bound(i: int, w: int, h: int)
    requires
        0 <= i,
        0 < w,
        0 <= h,
    ensures
        i < w * h <==> i / w < h,
        0 <= i % w < w,
        i == (i / w) * w + i % w,
        0 <= i / w,
{
    vstd::arithmetic::div_mod::lemma_fundamental_div_mod(i, w);
    vstd::arithmetic::div_mod::lemma_mod_pos_bound(i, w);
    vstd::arithmetic::div_mod::lemma_div_pos_is_pos(i, w);
    let q = i / w;
    let r = i % w;
    assert(w * q == q * w) by (nonlinear_arith);
    if q < h {
        assert((q + 1) * w <= h * w) by (nonlinear_arith)
            requires
                q + 1 <= h,
                0 < w,
        ;
        assert((q + 1) * w == q * w + w) by (nonlinear_arith);
        assert(h * w == w * h) by (nonlinear_arith);
    } else {
        assert(h * w <= q * w) by (nonlinear_arith)
            requires
                h <= q,
                0 < w,
        ;
        assert(h * w == w * h) by (nonlinear_arith);
    }
}

/// The index of a point of the grid is made of its two coordinates alone.
pub proof fn lemma_cell_index_parts(x: int, y: int, w: int)
    requires
        0 <= x < w,
        0 <= y,
    ensures
        cell_index(x, y, w) % w == x,
        cell_index(x, y, w) / w == y,
        0 <= cell_index(x, y, w),
{
    vstd::arithmetic::div_mod::lemma_fundamental_div_mod_converse(y * w + x, w, y, x);
    assert(y * w == w * y) by (nonlinear_arith);
    assert(0 <= y * w) by (nonlinear_arith)
        requires
            0 <= y,
            0 < w,
    ;
}

/// From a point of the grid to its index and back gives the point again.
pub proof fn lemma_point_index_point(x: int, y: int, w: int, h: int)
    requires
        on_grid(x, y, w, h),
    ensures
        0 <= cell_index(x, y, w) < w * h,
        cell_point(cell_index(x, y, w), w) == (x, y),
{
    lemma_cell_index_parts(x, y, w);
    lemma_index_bound(cell_index(x, y, w), w, h);
}

/// From an index of the grid to its point and back gives the index again.
pub proof fn lemma_index_point_index(i: int, w: int, h: int)
    requires
        0 <= i < w * h,
        0 <= w,
        0 <= h,
    ensures
        on_grid(cell_point(i, w).0, cell_point(i, w).1, w, h),
        cell_index(cell_point(i, w).0, cell_point(i, w).1, w) == i,
{
    assert(0 < w) by (nonlinear_arith)
        requires
            0 <= i < w * h,
            0 <= w,
    ;
    lemma_index_bound(i, w, h);
}

/// The cells of the `w` by `h` grid among the first `upto` of the eight
/// points around the cell `i`, in the order of the points.
pub open spec fn neighbors_upto(w: int, h: int, i: int, upto: int) -> Seq<int>
    decreases upto,
{
    if upto <= 0 {
        Seq::empty()
    } else {
        let point = around(i % w, i / w)[upto - 1];
        if on_grid(point.0, point.1, w, h) {
            neighbors_upto(w, h, i, upto - 1).push(cell_index(point.0, point.1, w))
        } else {
            neighbors_upto(w, h, i, upto - 1)
        }
    }
}

/// The cells of the `w` by `h` grid that touch the cell `i`, in the order
/// of the eight points around it. A cell that is none of the grid touches
/// none.
pub open spec fn neighbor_cells(w: int, h: int, i: int) -> Seq<int> {
    if 0 <= i < w * h {
        neighbors_upto(w, h, i, 8)
    } else {
        Seq::empty()
    }
}

/// Every point that touches `(x, y)` is one of the eight around it.
pub proof fn lemma_around_complete(x: int, y: int, px: int, py: int)
    requires
        -1 <= px - x <= 1,
        -1 <= py - y <= 1,
        px != x || py != y,
    ensures
        exists|k: int| 0 <= k < 8 && #[trigger] around(x, y)[k] == (px, py),
{
    let a = around(x, y);
    if px == x - 1 {
        if py == y {
            assert(a[0] == (px, py));
        } else if py == y - 1 {
            assert(a[1] == (px, py));
        } else {
            assert(a[2] == (px, py));
        }
    } else if px == x {
        if py == y + 1 {
            assert(a[3] == (px, py));
        } else {
            assert(a[4] == (px, py));
        }
    } else {
        if py == y - 1 {
            assert(a[5] == (px, py));
        } else if py == y {
            assert(a[6] == (px, py));
        } else {
            assert(a[7] == (px, py));
        }
    }
}

/// Each of the eight points around `(x, y)` touches it.
pub proof fn lemma_around_sound(x: int, y: int, k: int)
    requires
        0 <= k < 8,
    ensures
        -1 <= around(x, y)[k].0 - x <= 1,
        -1 <= around(x, y)[k].1 - y <= 1,
        around(x, y)[k].0 != x || around(x, y)[k].1 != y,
{
}

/// Takes an index and the width and height of a rectangular array, and
/// converts the index to its `(x, y)` location, row by row.
pub fn index_to_point(i: usize, w: usize, h: usize) -> (r: Result<Point<usize>, GridError>)
    ensures
        i < w * h ==> r == Ok::<Point<usize>, GridError>(
            (cell_point(i as int, w as int).0 as usize, cell_point(i as int, w as int).1 as usize),
        ),
        i < w * h ==> on_grid(
            cell_point(i as int, w as int).0,
            cell_point(i as int, w as int).1,
            w as int,
            h as int,
        ),
        i >= w * h ==> r == Err::<Point<usize>, GridError>(GridError::OutOfBounds),
{
    if w == 0 {
        assert(w * h == 0) by (nonlinear_arith)
            requires
                w == 0,
        ;
        return Err(GridError::OutOfBounds);
    }
    proof {
        lemma_index_bound(i as int, w as int, h as int);
    }
    if i / w >= h {
        return Err(GridError::OutOfBounds);
    }
    Ok((i % w, i / w))
}

/// Takes an `x`, a `y` and a width, and converts the point to its index in
/// a rectangular array laid out row by row.
pub fn point_to_index(x: usize, y: usize, w: usize) -> (r: Result<usize, GridError>)
    ensures
        x < w && cell_index(x as int, y as int, w as int) <= usize::MAX ==> r == Ok::<
            usize,
            GridError,
        >(cell_index(x as int, y as int, w as int) as usize),
        !(x < w && cell_index(x as int, y as int, w as int) <= usize::MAX) ==> r == Err::<
            usize,
            GridError,
        >(GridError::OutOfBounds),
{
    if x >= w {
        return Err(GridError::OutOfBounds);
    }
    match y.checked_mul(w) {
        None => Err(GridError::OutOfBounds),
        Some(row) => match row.checked_add(x) {
            None => Err(GridError::OutOfBounds),
            Some(i) => Ok(i),
        },
    }
}

/// Returns all of the points surrounding a given point.
pub fn points_around(x: i64, y: i64) -> (r: [Point<i64>; 8])
    requires
        i64::MIN < x < i64::MAX,
        i64::MIN < y < i64::MAX,
    ensures
        forall|k: int|
            0 <= k < 8 ==> (#[trigger] r[k]).0 == around(x as int, y as int)[k].0 && r[k].1
                == around(x as int, y as int)[k].1,
{
    [
        (x - 1, y),
        (x - 1, y - 1),
        (x - 1, y + 1),
        (x, y + 1),
        (x, y - 1),
        (x + 1, y - 1),
        (x + 1, y),
        (x + 1, y + 1),
    ]
}

/// How far two integers lie apart.
pub open spec fn gap(a: int, b: int) -> int {
    if a > b {
        a - b
    } else {
        b - a
    }
}

/// The distance between two values of one numeric type.
pub trait Distance: Sized {
    /// The value as a mathematical integer.
    spec fn value(self) -> int;

    /// Whether the type holds the integer `d`.
    spec fn holds(d: int) -> bool;

    /// The larger of the two minus the smaller.
    fn distance(a: Self, b: Self) -> (r: Self)
        requires
            Self::holds(gap(a.value(), b.value())),
        ensures
            r.value() == gap(a.value(), b.value()),
    ;
}

impl Distance for u8 {
    open spec fn value(self) -> int {
        self as int
    }

    open spec fn holds(d: int) -> bool {
        0 <= d <= u8::MAX
    }

    fn distance(a: Self, b: Self) -> (r: Self) {
        if a > b {
            a - b
        } else {
            b - a
        }
    }
}

impl Distance for u32 {
    open spec fn value(self) -> int {
        self as int
    }

    open spec fn holds(d: int) -> bool {
        0 <= d <= u32::MAX
    }

    fn distance(a: Self, b: Self) -> (r: Self) {
        if a > b {
            a - b
        } else {
            b - a
        }
    }
}

impl Distance for u64 {
    open spec fn value(self) -> int {
        self as int
    }

    open spec fn holds(d: int) -> bool {
        0 <= d <= u64::MAX
    }

    fn distance(a: Self, b: Self) -> (r: Self) {
        if a > b {
            a - b
        } else {
            b - a
        }
    }
}

impl Distance for usize {
    open spec fn value(self) -> int {
        self as int
    }

    open spec fn holds(d: int) -> bool {
        0 <= d <= usize::MAX
    }

    fn distance(a: Self, b: Self) -> (r: Self) {
        if a > b {
            a - b
        } else {
            b - a
        }
    }
}

impl Distance for i32 {
    open spec fn value(self) -> int {
        self as int
    }

    open spec fn holds(d: int) -> bool {
        i32::MIN <= d <= i32::MAX
    }

    fn distance(a: Self, b: Self) -> (r: Self) {
        if a > b {
            a - b
        } else {
            b - a
        }
    }
}

impl Distance for i64 {
    open spec fn value(self) -> int {
        self as int
    }

    open spec fn holds(d: int) -> bool {
        i64::MIN <= d <= i64::MAX
    }

    fn distance(a: Self, b: Self) -> (r: Self) {
        if a > b {
            a - b
        } else {
            b - a
        }
    }
}

/// A rectangle with a height and width.
#[derive(Debug, Clone, Copy, PartialEq, Eq, Structural)]
pub struct RectDimension {
    pub width: u8,
    pub height: u8,
}

impl RectDimension {
    pub fn new(width: u8, height: u8) -> (r: Self)
        ensures
            r.width == width,
            r.height == height,
    {
        RectDimension { width, height }
    }

    /// The number of cells, as a mathematical integer.
    pub open spec fn cells(self) -> int {
        self.width as int * self.height as int
    }

    pub fn area(&self) -> (r: usize)
        ensures
            r as int == self.cells(),
            r <= 65025,
    {
        assert(self.width as int * self.height as int <= 65025) by (nonlinear_arith)
            requires
                self.width <= 255,
                self.height <= 255,
        ;
        assert(0 <= self.width as int * self.height as int) by (nonlinear_arith);
        self.width as usize * self.height as usize
    }

    /// The index of the point `(x, y)` of this rectangle, row by row.
    pub fn point_to_index(&self, x: usize, y: usize) -> (r: Result<usize, GridError>)
        ensures
            on_grid(x as int, y as int, self.width as int, self.height as int) ==> r == Ok::<
                usize,
                GridError,
            >(cell_index(x as int, y as int, self.width as int) as usize),
            on_grid(x as int, y as int, self.width as int, self.height as int) ==> cell_index(
                x as int,
                y as int,
                self.width as int,
            ) < self.cells(),
            !on_grid(x as int, y as int, self.width as int, self.height as int) ==> r == Err::<
                usize,
                GridError,
            >(GridError::OutOfBounds),
    {
        if y >= self.height as usize {
            return Err(GridError::OutOfBounds);
        }
        if x >= self.width as usize {
            return Err(GridError::OutOfBounds);
        }
        proof {
            lemma_point_index_point(x as int, y as int, self.width as int, self.height as int);
            assert(self.width as int * self.height as int <= 65025) by (nonlinear_arith)
                requires
                    self.width <= 255,
                    self.height <= 255,
            ;
        }
        point_to_index(x, y, self.width as usize)
    }

    /// The cells of this rectangle that touch the cell `i`, by an edge or
    /// by a corner. A cell that is none of the rectangle touches none.
    pub fn neighbors(&self, i: usize) -> (r: Vec<usize>)
        ensures
            r.len() == neighbor_cells(self.width as int, self.height as int, i as int).len(),
            forall|k: int|
                0 <= k < r.len() ==> #[trigger] r[k] == neighbor_cells(
                    self.width as int,
                    self.height as int,
                    i as int,
                )[k],
            r.len() <= 8,
            forall|k: int|
                0 <= k < r.len() ==> adjacent(
                    self.width as int,
                    self.height as int,
                    i as int,
                    #[trigger] r[k] as int,
                ),
            forall|n: int|
                adjacent(self.width as int, self.height as int, i as int, n) ==> exists|k: int|
                    0 <= k < r.len() && #[trigger] r[k] == n,
    {
        if i >= self.area() {
            return Vec::new();
        }
        let w: usize = self.width as usize;
        let h: usize = self.height as usize;
        let ghost wi = w as int;
        let ghost hi = h as int;
        proof {
            assert(0 < wi) by (nonlinear_arith)
                requires
                    0 <= i < wi * hi,
                    0 <= wi,
            ;
            lemma_index_bound(i as int, wi, hi);
        }
        let x: usize = i % w;
        let y: usize = i / w;
        let points = points_around(x as i64, y as i64);
        let mut r: Vec<usize> = Vec::new();
        let mut k: usize = 0;
        while k < 8
            invariant
                k <= 8,
                r.len() <= k,
                w == self.width,
                h == self.height,
                wi == w,
                hi == h,
                0 < w <= 255,
                0 < h <= 255,
                i < wi * hi,
                x == i % w,
                y == i / w,
                x < w,
                y < h,
                forall|j: int|
                    0 <= j < 8 ==> (#[trigger] points[j]).0 == around(x as int, y as int)[j].0
                        && points[j].1 == around(x as int, y as int)[j].1,
                forall|j: int|
                    0 <= j < r.len() ==> adjacent(wi, hi, i as int, #[trigger] r[j] as int),
                r.len() == neighbors_upto(wi, hi, i as int, k as int).len(),
                forall|j: int|
                    0 <= j < r.len() ==> #[trigger] r[j] == neighbors_upto(
                        wi,
                        hi,
                        i as int,
                        k as int,
                    )[j],
                forall|j: int|
                    0 <= j < k && on_grid(
                        (#[trigger] around(x as int, y as int)[j]).0,
                        around(x as int, y as int)[j].1,
                        wi,
                        hi,
                    ) ==> exists|m: int|
                        0 <= m < r.len() && #[trigger] r[m] == cell_index(
                            around(x as int, y as int)[j].0,
                            around(x as int, y as int)[j].1,
                            wi,
                        ),
            decreases 8 - k,
        {
            let p = points[k];
            let ghost before = r@;
            if 0 <= p.0 && p.0 < w as i64 && 0 <= p.1 && p.1 < h as i64 {
                proof {
                    lemma_around_sound(x as int, y as int, k as int);
                    lemma_point_index_point(p.0 as int, p.1 as int, wi, hi);
                    lemma_cell_index_parts(p.0 as int, p.1 as int, wi);
                    assert(wi * hi <= 65025) by (nonlinear_arith)
                        requires
                            0 < wi <= 255,
                            0 < hi <= 255,
                    ;
                }
                let n: usize = p.1 as usize * w + p.0 as usize;
                r.push(n);
                assert(r[r.len() - 1] == n);
            }
            proof {
                assert forall|j: int|
                    0 <= j < k + 1 && on_grid(
                        (#[trigger] around(x as int, y as int)[j]).0,
                        around(x as int, y as int)[j].1,
                        wi,
                        hi,
                    ) implies exists|m: int|
                    0 <= m < r.len() && #[trigger] r[m] == cell_index(
                        around(x as int, y as int)[j].0,
                        around(x as int, y as int)[j].1,
                        wi,
                    ) by {
                    if j < k {
                        let m = choose|m: int|
                            0 <= m < before.len() && #[trigger] before[m] == cell_index(
                                around(x as int, y as int)[j].0,
                                around(x as int, y as int)[j].1,
                                wi,
                            );
                        assert(r[m] == before[m]);
                    } else {
                        assert(r[r.len() - 1] == cell_index(
                            around(x as int, y as int)[j].0,
                            around(x as int, y as int)[j].1,
                            wi,
                        ));
                    }
                }
            }
            k = k + 1;
        }
        proof {
            assert forall|n: int| adjacent(wi, hi, i as int, n) implies exists|m: int|
                0 <= m < r.len() && #[trigger] r[m] == n by {
                lemma_index_bound(n, wi, hi);
                lemma_around_complete(x as int, y as int, n % wi, n / wi);
                let j = choose|j: int|
                    0 <= j < 8 && #[trigger] around(x as int, y as int)[j] == (n % wi, n / wi);
                assert(on_grid(
                    around(x as int, y as int)[j].0,
                    around(x as int, y as int)[j].1,
                    wi,
                    hi,
                ));
                assert(cell_index(n % wi, n / wi, wi) == n);
            }
        }
        r
    }

    /// The point `(x, y)` of the index `i` of this rectangle, row by row.
    pub fn index_to_point(&self, i: usize) -> (r: Result<Point<usize>, GridError>)
        ensures
            i < self.cells() ==> r == Ok::<Point<usize>, GridError>(
                (
                    cell_point(i as int, self.width as int).0 as usize,
                    cell_point(i as int, self.width as int).1 as usize,
                ),
            ),
            i < self.cells() ==> on_grid(
                cell_point(i as int, self.width as int).0,
                cell_point(i as int, self.width as int).1,
                self.width as int,
                self.height as int,
            ),
            i >= self.cells() ==> r == Err::<Point<usize>, GridError>(GridError::OutOfBounds),
    {
        index_to_point(i, self.width as usize, self.height as usize)
    }
}

} // verus!

//! A 2-D occupancy grid ("cave" map) generator: random noise is seeded into a
//! fixed-size grid and then relaxed by a local majority-rule cellular
//! automaton into organic-looking cave structures.
//!
//! Cell states are `u8` values: `0` is floor, `1` is wall; any other value is
//! tolerated but never produced by the automaton, and counts as occupied when
//! neighbours are counted.

use vstd::prelude::*;

verus! {

/// A fixed-size 2-D grid of cell states, stored row-major in a flat buffer.
pub struct CellularMap {
    width: u32,
    height: u32,
    map: Vec<u8>,
}

/// Selects the evolution rule set. Only `Default` has defined behaviour;
/// `Cleaning` is a reserved extension point and currently evolves exactly as
/// `Default` does.
pub enum EvolveStrategy {
    Default,
    Cleaning,
}

impl View for CellularMap {
    type V = Seq<u8>;

    /// The cell states as a flat row-major sequence.
    closed spec fn view(&self) -> Seq<u8> {
        self.map@
    }
}

/// A position counts as occupied if it lies outside a `w`-by-`h` grid, or if
/// its stored state is non-zero. Treating out-of-grid positions as occupied
/// is what keeps the border stable under evolution.
pub open spec fn occupied_at(cells: Seq<u8>, w: int, h: int, r: int, c: int) -> bool {
    !(0 <= r < h && 0 <= c < w) || cells[r * w + c] != 0
}

/// Occupied positions in row `row`, columns `c0 .. c0 + n`, the position
/// `(cr, cc)` itself excluded from the count.
pub open spec fn row_wall_count(
    cells: Seq<u8>,
    w: int,
    h: int,
    cr: int,
    cc: int,
    row: int,
    c0: int,
    n: int,
) -> int
    decreases n,
{
    if n <= 0 {
        0
    } else {
        row_wall_count(cells, w, h, cr, cc, row, c0, n - 1) + if (row != cr || c0 + n - 1 != cc)
            && occupied_at(cells, w, h, row, c0 + n - 1) {
            1int
        } else {
            0int
        }
    }
}

/// Occupied positions in the rectangle of rows `r0 .. r0 + m` and columns
/// `c0 .. c0 + n`, the position `(cr, cc)` itself excluded from the count.
pub open spec fn rect_wall_count(
    cells: Seq<u8>,
    w: int,
    h: int,
    cr: int,
    cc: int,
    r0: int,
    m: int,
    c0: int,
    n: int,
) -> int
    decreases m,
{
    if m <= 0 {
        0
    } else {
        rect_wall_count(cells, w, h, cr, cc, r0, m - 1, c0, n) + row_wall_count(
            cells,
            w,
            h,
            cr,
            cc,
            r0 + m - 1,
            c0,
            n,
        )
    }
}

/// Occupied positions in the square window of horizontal radius `sx` and
/// vertical radius `sy` around `(r, c)`, the center itself excluded;
/// out-of-grid positions count as occupied.
pub open spec fn window_wall_count(
    cells: Seq<u8>,
    w: int,
    h: int,
    r: int,
    c: int,
    sx: int,
    sy: int,
) -> int {
    rect_wall_count(cells, w, h, r, c, r - sy, 2 * sy + 1, c - sx, 2 * sx + 1)
}

/// The state of cell `(r, c)` after one step of the standard automaton rule:
/// a wall survives with at least 3 occupied neighbours in its 3-by-3 window;
/// a floor becomes wall with at least 5 occupied neighbours in its 3-by-3
/// window, or with at most 2 in its 5-by-5 window.
pub open spec fn evolved_cell(cells: Seq<u8>, w: int, h: int, r: int, c: int) -> u8 {
    let n1 = window_wall_count(cells, w, h, r, c, 1, 1);
    let n2 = window_wall_count(cells, w, h, r, c, 2, 2);
    if cells[r * w + c] == 1 {
        if n1 >= 3 {
            1
        } else {
            0
        }
    } else {
        if n1 >= 5 || n2 <= 2 {
            1
        } else {
            0
        }
    }
}

/// Relies on rand::random_range: a uniform draw from the given range using
/// the thread-local generator, here an integer in `[0, 100)`.
#[verifier::external_body]
fn random_percent() -> (value: u32)
    ensures
        value < 100,
{
    rand::random_range(0u32..100u32)
}

/// `0 <= r * w + c < w * h` for any position `(r, c)` inside a `w`-by-`h` grid.
proof fn lemma_row_major_in_range(r: int, c: int, w: int, h: int)
    requires
        0 <= r < h,
        0 <= c < w,
    ensures
        0 <= r * w + c < w * h,
{
    assert(0 <= r * w + c < w * h) by (nonlinear_arith)
        requires
            0 <= r < h,
            0 <= c < w,
    ;
}

/// Row-major indexing is strictly monotone in lexicographic position order,
/// so two distinct in-range positions never share a buffer index.
proof fn lemma_row_major_lt(r1: int, c1: int, r2: int, c2: int, w: int)
    requires
        0 <= c1 < w,
        0 <= c2 < w,
        0 <= r1,
        r1 < r2 || (r1 == r2 && c1 < c2),
    ensures
        r1 * w + c1 < r2 * w + c2,
{
    assert(r1 * w + c1 < r2 * w + c2) by (nonlinear_arith)
        requires
            0 <= c1 < w,
            0 <= c2 < w,
            0 <= r1,
            r1 < r2 || (r1 == r2 && c1 < c2),
    ;
}

/// In a grid whose every cell is occupied, a row segment of `n` positions
/// counts `n` occupied positions, less one when the excluded center lies in
/// the segment.
proof fn lemma_row_wall_count_all_occupied(
    cells: Seq<u8>,
    w: int,
    h: int,
    cr: int,
    cc: int,
    row: int,
    c0: int,
    n: int,
)
    requires
        n >= 0,
        forall|r: int, c: int| #[trigger] occupied_at(cells, w, h, r, c),
    ensures
        row_wall_count(cells, w, h, cr, cc, row, c0, n) == n - (if row == cr && c0 <= cc < c0 + n {
            1int
        } else {
            0int
        }),
    decreases n,
{
    if n > 0 {
        lemma_row_wall_count_all_occupied(cells, w, h, cr, cc, row, c0, n - 1);
        assert(occupied_at(cells, w, h, row, c0 + n - 1));
    }
}

/// In a grid whose every cell is occupied, an `m`-by-`n` rectangle counts
/// `m * n` occupied positions, less one when the excluded center lies in the
/// rectangle.
#[verifier::rlimit(50)]
#[verifier::spinoff_prover]
proof fn lemma_rect_wall_count_all_occupied(
    cells: Seq<u8>,
    w: int,
    h: int,
    cr: int,
    cc: int,
    r0: int,
    m: int,
    c0: int,
    n: int,
)
    requires
        m >= 0,
        n >= 0,
        forall|r: int, c: int| #[trigger] occupied_at(cells, w, h, r, c),
    ensures
        rect_wall_count(cells, w, h, cr, cc, r0, m, c0, n) == m * n - (if r0 <= cr < r0 + m && c0
            <= cc < c0 + n {
            1int
        } else {
            0int
        }),
    decreases m,
{
    if m > 0 {
        lemma_rect_wall_count_all_occupied(cells, w, h, cr, cc, r0, m - 1, c0, n);
        lemma_row_wall_count_all_occupied(cells, w, h, cr, cc, r0 + m - 1, c0, n);
        assert(m * n == (m - 1) * n + n) by (nonlinear_arith);
        assert(rect_wall_count(cells, w, h, cr, cc, r0, m, c0, n) == rect_wall_count(
            cells,
            w,
            h,
            cr,
            cc,
            r0,
            m - 1,
            c0,
            n,
        ) + row_wall_count(cells, w, h, cr, cc, r0 + m - 1, c0, n));
        if c0 <= cc < c0 + n {
            if cr == r0 + m - 1 {
                assert(rect_wall_count(cells, w, h, cr, cc, r0, m - 1, c0, n) == (m - 1) * n);
                assert(row_wall_count(cells, w, h, cr, cc, r0 + m - 1, c0, n) == n - 1);
            } else if r0 <= cr < r0 + m - 1 {
                assert(rect_wall_count(cells, w, h, cr, cc, r0, m - 1, c0, n) == (m - 1) * n - 1);
                assert(row_wall_count(cells, w, h, cr, cc, r0 + m - 1, c0, n) == n);
            }
        }
    }
}

/// One evolution step is a pure function of the grid state when the step
/// begins: two structurally identical maps (same dimensions, same cell
/// contents) evolve every cell to the same new state.
pub proof fn lemma_evolve_deterministic(g1: CellularMap, g2: CellularMap)
    requires
        g1.spec_width() == g2.spec_width(),
        g1.spec_height() == g2.spec_height(),
        g1@ == g2@,
    ensures
        forall|r: int, c: int| g1.next_cell(r, c) == g2.next_cell(r, c),
{
}

/// A map of all walls, at least 5 cells wide and high, evolves to all walls:
/// every cell sees 8 occupied neighbours in its 3-by-3 window (out-of-grid
/// positions included), so the "stay wall" rule applies everywhere.
pub proof fn lemma_all_walls_stable(g: CellularMap)
    requires
        g.wf(),
        g.spec_width() >= 5,
        g.spec_height() >= 5,
        forall|r: int, c: int| g.in_bounds(r, c) ==> g.cell(r, c) == 1,
    ensures
        forall|r: int, c: int| g.in_bounds(r, c) ==> g.next_cell(r, c) == 1,
{
    let w = g.spec_width() as int;
    let h = g.spec_height() as int;
    assert forall|rr: int, cc: int| #[trigger] occupied_at(g@, w, h, rr, cc) by {
        if 0 <= rr < h && 0 <= cc < w {
            assert(g.cell(rr, cc) == 1);
        }
    }
    assert forall|r: int, c: int| g.in_bounds(r, c) implies g.next_cell(r, c) == 1 by {
        lemma_rect_wall_count_all_occupied(g@, w, h, r, c, r - 1, 3, c - 1, 3);
        assert(g.count_window(r, c, 1, 1) == 8);
        assert(g.cell(r, c) == 1);
    }
}

impl CellularMap {
    /// The fixed width.
    pub closed spec fn spec_width(self) -> u32 {
        self.width
    }

    /// The fixed height.
    pub closed spec fn spec_height(self) -> u32 {
        self.height
    }

    /// The grid is well formed: the flat buffer holds exactly one state per
    /// cell, and the cell count fits the `u32` index arithmetic.
    pub open spec fn wf(self) -> bool {
        &&& self@.len() == self.spec_width() * self.spec_height()
        &&& self.spec_width() * self.spec_height() <= u32::MAX
    }

    /// Whether `(r, c)` is a valid 0-indexed position of this grid.
    pub open spec fn in_bounds(self, r: int, c: int) -> bool {
        0 <= r < self.spec_height() && 0 <= c < self.spec_width()
    }

    /// The stored state of the cell at row `r`, column `c`.
    pub open spec fn cell(self, r: int, c: int) -> u8
        recommends
            self.in_bounds(r, c),
    {
        self@[r * self.spec_width() + c]
    }

    /// Whether the position `(r, c)` counts as occupied for neighbour
    /// counting: outside the grid, or holding a non-zero state.
    pub open spec fn occupied(self, r: int, c: int) -> bool {
        occupied_at(self@, self.spec_width() as int, self.spec_height() as int, r, c)
    }

    /// Whether `(r, c)` lies on the outermost ring of the grid.
    pub open spec fn spec_on_border(self, r: int, c: int) -> bool {
        r == 0 || c == 0 || r == self.spec_height() - 1 || c == self.spec_width() - 1
    }

    /// Occupied positions in the window of horizontal radius `sx` and
    /// vertical radius `sy` around `(r, c)`, the center itself excluded.
    pub open spec fn count_window(self, r: int, c: int, sx: int, sy: int) -> int {
        window_wall_count(
            self@,
            self.spec_width() as int,
            self.spec_height() as int,
            r,
            c,
            sx,
            sy,
        )
    }

    /// The state the cell at `(r, c)` takes after one evolution step.
    pub open spec fn next_cell(self, r: int, c: int) -> u8 {
        evolved_cell(self@, self.spec_width() as int, self.spec_height() as int, r, c)
    }

    /// Create a new map of the given dimensions with every cell set to `0`.
    ///
    /// `w * h` must fit in `u32`: the flat buffer is addressed with `u32`
    /// arithmetic. Zero-sized maps are permitted; they simply have no cells.
    pub fn new(w: u32, h: u32) -> (result: CellularMap)
        requires
            w * h <= u32::MAX,
        ensures
            result.wf(),
            result.spec_width() == w,
            result.spec_height() == h,
            forall|r: int, c: int| result.in_bounds(r, c) ==> result.cell(r, c) == 0,
    {
        let total: u32 = w * h;
        let mut arraymap: Vec<u8> = Vec::with_capacity(total as usize);
        let mut i: u32 = 0;
        while i < total
            invariant
                i <= total,
                arraymap@.len() == i,
                forall|j: int| 0 <= j < i ==> arraymap@[j] == 0,
            decreases total - i,
        {
            arraymap.push(0);
            i = i + 1;
        }
        let result = CellularMap { width: w, height: h, map: arraymap };
        proof {
            assert forall|r: int, c: int| result.in_bounds(r, c) implies result.cell(r, c) == 0 by {
                lemma_row_major_in_range(r, c, w as int, h as int);
            }
        }
        result
    }

    /// Get the map width.
    pub fn get_width(&self) -> (w: u32)
        ensures
            w == self.spec_width(),
    {
        self.width
    }

    /// Get the map height.
    pub fn get_height(&self) -> (h: u32)
        ensures
            h == self.spec_height(),
    {
        self.height
    }

    /// Row-major buffer index of the position `(r, c)`.
    fn get_index(&self, r: u32, c: u32) -> (idx: usize)
        requires
            self.wf(),
            r < self.spec_height(),
            c < self.spec_width(),
        ensures
            idx == r * self.spec_width() + c,
            idx < self@.len(),
    {
        proof {
            lemma_row_major_in_range(r as int, c as int, self.width as int, self.height as int);
        }
        (c + r * self.width) as usize
    }

    /// Get the state of the cell in position `(r, c)`.
    pub fn get_element(&self, r: u32, c: u32) -> (state: u8)
        requires
            self.wf(),
            r < self.spec_height(),
            c < self.spec_width(),
        ensures
            state == self.cell(r as int, c as int),
    {
        let index = self.get_index(r, c);
        self.map[index]
    }

    /// Check if a given position `(r, c)` is out of bound.
    fn is_out_of_bound(&self, r: u32, c: u32) -> (b: bool)
        ensures
            b == !self.in_bounds(r as int, c as int),
    {
        r >= self.height || c >= self.width
    }

    /// Check if a given position `(r, c)` counts as a wall for neighbour
    /// counting: out of bound, or holding a non-zero state.
    fn is_wall(&self, r: u32, c: u32) -> (b: bool)
        requires
            self.wf(),
        ensures
            b == self.occupied(r as int, c as int),
    {
        if self.is_out_of_bound(r, c) {
            true
        } else {
            let index = self.get_index(r, c);
            self.map[index] != 0
        }
    }

    /// Check if a given position `(r, c)` is on the map border.
    fn is_on_border(&self, r: u32, c: u32) -> (b: bool)
        requires
            r < self.spec_height(),
            c < self.spec_width(),
        ensures
            b == self.spec_on_border(r as int, c as int),
    {
        c == 0 || r == 0 || c + 1 == self.width || r + 1 == self.height
    }

    /// Count the occupied positions in the window of horizontal radius
    /// `scopex` and vertical radius `scopey` around `(r, c)`, excluding the
    /// center cell itself; positions outside the grid count as occupied.
    pub fn count_adjacent_wall(&self, r: u32, c: u32, scopex: u32, scopey: u32) -> (count: u32)
        requires
            self.wf(),
            r < self.spec_height(),
            c < self.spec_width(),
            (2 * scopex + 1) * (2 * scopey + 1) <= u32::MAX,
        ensures
            count == self.count_window(r as int, c as int, scopex as int, scopey as int),
    {
        proof {
            assert(2 * scopex + 1 <= u32::MAX && 2 * scopey + 1 <= u32::MAX) by (nonlinear_arith)
                requires
                    (2 * scopex + 1) * (2 * scopey + 1) <= u32::MAX,
            ;
        }
        let nx: u32 = 2 * scopex + 1;
        let ny: u32 = 2 * scopey + 1;
        let mut count: u32 = 0;
        let mut dy: u32 = 0;
        while dy < ny
            invariant
                self.wf(),
                r < self.spec_height(),
                c < self.spec_width(),
                nx == 2 * scopex + 1,
                ny == 2 * scopey + 1,
                nx * ny <= u32::MAX,
                dy <= ny,
                count <= dy * nx,
                count == rect_wall_count(
                    self@,
                    self.spec_width() as int,
                    self.spec_height() as int,
                    r as int,
                    c as int,
                    r - scopey,
                    dy as int,
                    c - scopex,
                    nx as int,
                ),
            decreases ny - dy,
        {
            let row: i64 = r as i64 + dy as i64 - scopey as i64;
            let mut dx: u32 = 0;
            while dx < nx
                invariant
                    self.wf(),
                    r < self.spec_height(),
                    c < self.spec_width(),
                    nx == 2 * scopex + 1,
                    ny == 2 * scopey + 1,
                    nx * ny <= u32::MAX,
                    dy < ny,
                    dx <= nx,
                    row == r + dy - scopey,
                    count <= dy * nx + dx,
                    count == rect_wall_count(
                        self@,
                        self.spec_width() as int,
                        self.spec_height() as int,
                        r as int,
                        c as int,
                        r - scopey,
                        dy as int,
                        c - scopex,
                        nx as int,
                    ) + row_wall_count(
                        self@,
                        self.spec_width() as int,
                        self.spec_height() as int,
                        r as int,
                        c as int,
                        row as int,
                        c - scopex,
                        dx as int,
                    ),
                decreases nx - dx,
            {
                let col: i64 = c as i64 + dx as i64 - scopex as i64;
                let occ: bool = if 0 <= row && row < self.height as i64 && 0 <= col && col
                    < self.width as i64 {
                    self.is_wall(row as u32, col as u32)
                } else {
                    true
                };
                proof {
                    assert(occ == occupied_at(
                        self@,
                        self.spec_width() as int,
                        self.spec_height() as int,
                        row as int,
                        col as int,
                    ));
                }
                if (row != r as i64 || col != c as i64) && occ {
                    proof {
                        assert(count + 1 <= nx * ny) by (nonlinear_arith)
                            requires
                                dy < ny,
                                dx < nx,
                                count <= dy * nx + dx,
                        ;
                    }
                    count = count + 1;
                }
                dx = dx + 1;
            }
            proof {
                assert((dy + 1) * nx == dy * nx + nx) by (nonlinear_arith);
            }
            dy = dy + 1;
        }
        count
    }

    /// What `random_fill` guarantees of the cell at `(r, c)` when it was
    /// called with wall probability `wall_prob`: border cells are walls, the
    /// middle row is floor, and every other cell is floor or wall — surely
    /// floor at probability `0`, surely wall at probability `100` or more.
    pub open spec fn fill_ok(self, r: int, c: int, wall_prob: u32) -> bool {
        if self.spec_on_border(r, c) {
            self.cell(r, c) == 1
        } else if r == self.spec_height() / 2 {
            self.cell(r, c) == 0
        } else {
            &&& self.cell(r, c) == 0 || self.cell(r, c) == 1
            &&& wall_prob == 0 ==> self.cell(r, c) == 0
            &&& wall_prob >= 100 ==> self.cell(r, c) == 1
        }
    }

    /// Re-randomize the whole map: every border cell becomes a wall, the
    /// middle row (`height / 2`) stays a floor corridor, and every other
    /// cell independently becomes a wall with probability `wall_prob`
    /// percent, floor otherwise.
    pub fn random_fill(&mut self, wall_prob: u32)
        requires
            old(self).wf(),
        ensures
            final(self).wf(),
            final(self).spec_width() == old(self).spec_width(),
            final(self).spec_height() == old(self).spec_height(),
            forall|r: int, c: int|
                final(self).in_bounds(r, c) ==> #[trigger] final(self).fill_ok(r, c, wall_prob),
    {
        let mut r: u32 = 0;
        while r < self.height
            invariant
                self.wf(),
                self.spec_width() == old(self).spec_width(),
                self.spec_height() == old(self).spec_height(),
                r <= self.spec_height(),
                forall|rr: int, cc: int|
                    0 <= rr < r && 0 <= cc < self.spec_width() ==> self.fill_ok(rr, cc, wall_prob),
            decreases self.spec_height() - r,
        {
            let mut c: u32 = 0;
            while c < self.width
                invariant
                    self.wf(),
                    self.spec_width() == old(self).spec_width(),
                    self.spec_height() == old(self).spec_height(),
                    r < self.spec_height(),
                    c <= self.spec_width(),
                    forall|rr: int, cc: int|
                        0 <= rr < self.spec_height() && 0 <= cc < self.spec_width() && (rr < r || (
                        rr == r && cc < c)) ==> self.fill_ok(rr, cc, wall_prob),
                decreases self.spec_width() - c,
            {
                let state: u8 = if self.is_on_border(r, c) {
                    1
                } else if r == self.height / 2 {
                    0
                } else {
                    let value = random_percent();
                    if value < wall_prob {
                        1
                    } else {
                        0
                    }
                };
                let ghost prev = *self;
                self.set_element(r, c, state);
                proof {
                    assert forall|rr: int, cc: int|
                        0 <= rr < self.spec_height() && 0 <= cc < self.spec_width() && (rr < r || (
                        rr == r && cc < c + 1)) implies self.fill_ok(rr, cc, wall_prob) by {
                        if rr != r || cc != c {
                            assert(self.cell(rr, cc) == prev.cell(rr, cc));
                            assert(prev.fill_ok(rr, cc, wall_prob));
                        }
                    }
                }
                c = c + 1;
            }
            r = r + 1;
        }
    }

    /// Apply the wall evolution rule to the position `(r, c)`, reading the
    /// current grid only.
    fn place_logic(&self, r: u32, c: u32) -> (state: u8)
        requires
            self.wf(),
            r < self.spec_height(),
            c < self.spec_width(),
        ensures
            state == self.next_cell(r as int, c as int),
    {
        proof {
            assert((2 * 1u32 + 1) * (2 * 1u32 + 1) <= u32::MAX) by (nonlinear_arith);
            assert((2 * 2u32 + 1) * (2 * 2u32 + 1) <= u32::MAX) by (nonlinear_arith);
        }
        let num_wall1 = self.count_adjacent_wall(r, c, 1, 1);
        let num_wall2 = self.count_adjacent_wall(r, c, 2, 2);

        let index = self.get_index(r, c);
        if self.map[index] == 1u8 {
            if num_wall1 >= 3 {
                1
            } else {
                0
            }
        } else {
            if num_wall1 >= 5 || num_wall2 <= 2 {
                1
            } else {
                0
            }
        }
    }

    /// Evolve the map one step with the standard rule set.
    pub fn evolve_default(&mut self)
        requires
            old(self).wf(),
        ensures
            final(self).wf(),
            final(self).spec_width() == old(self).spec_width(),
            final(self).spec_height() == old(self).spec_height(),
            forall|r: int, c: int|
                final(self).in_bounds(r, c) ==> final(self).cell(r, c) == old(self).next_cell(
                    r,
                    c,
                ),
    {
        self.evolve(EvolveStrategy::Default)
    }

    /// Evolve the map one step according to the automaton rules: every cell's
    /// new state is computed from the grid as it stood when the call began.
    ///
    /// The `Cleaning` strategy is reserved and currently behaves exactly as
    /// `Default` does.
    pub fn evolve(&mut self, _strategy: EvolveStrategy)
        requires
            old(self).wf(),
        ensures
            final(self).wf(),
            final(self).spec_width() == old(self).spec_width(),
            final(self).spec_height() == old(self).spec_height(),
            forall|r: int, c: int|
                final(self).in_bounds(r, c) ==> final(self).cell(r, c) == old(self).next_cell(
                    r,
                    c,
                ),
    {
        let mut next: Vec<u8> = Vec::with_capacity(self.map.len());
        let mut r: u32 = 0;
        while r < self.height
            invariant
                *self == *old(self),
                self.wf(),
                r <= self.spec_height(),
                next@.len() == r * self.spec_width(),
                forall|rr: int, cc: int|
                    0 <= rr < r && 0 <= cc < self.spec_width() ==> next@[rr * self.spec_width()
                        + cc] == self.next_cell(rr, cc),
            decreases self.spec_height() - r,
        {
            let mut c: u32 = 0;
            while c < self.width
                invariant
                    *self == *old(self),
                    self.wf(),
                    r < self.spec_height(),
                    c <= self.spec_width(),
                    next@.len() == r * self.spec_width() + c,
                    forall|rr: int, cc: int|
                        0 <= rr < self.spec_height() && 0 <= cc < self.spec_width() && (rr < r || (
                        rr == r && cc < c)) ==> next@[rr * self.spec_width() + cc]
                            == self.next_cell(rr, cc),
                decreases self.spec_width() - c,
            {
                let value = self.place_logic(r, c);
                proof {
                    lemma_row_major_in_range(
                        r as int,
                        c as int,
                        self.spec_width() as int,
                        self.spec_height() as int,
                    );
                }
                next.push(value);
                proof {
                    assert forall|rr: int, cc: int|
                        0 <= rr < self.spec_height() && 0 <= cc < self.spec_width() && (rr < r || (
                        rr == r && cc < c + 1)) implies next@[rr * self.spec_width() + cc]
                        == self.next_cell(rr, cc) by {
                        if rr < r || (rr == r && cc < c) {
                            lemma_row_major_lt(
                                rr,
                                cc,
                                r as int,
                                c as int,
                                self.spec_width() as int,
                            );
                            lemma_row_major_in_range(
                                rr,
                                cc,
                                self.spec_width() as int,
                                self.spec_height() as int,
                            );
                        }
                    }
                }
                c = c + 1;
            }
            proof {
                assert((r + 1) * self.spec_width() == r * self.spec_width() + self.spec_width())
                    by (nonlinear_arith);
            }
            r = r + 1;
        }
        proof {
            assert(next@.len() == self.spec_width() * self.spec_height()) by (nonlinear_arith)
                requires
                    next@.len() == self.spec_height() * self.spec_width(),
            ;
        }
        self.map = next;
        proof {
            assert forall|r: int, c: int| final(self).in_bounds(r, c) implies final(self).cell(
                r,
                c,
            ) == old(self).next_cell(r, c) by {
                lemma_row_major_in_range(
                    r,
                    c,
                    old(self).spec_width() as int,
                    old(self).spec_height() as int,
                );
            }
        }
    }

    /// Set the cell in position `(r, c)` to the given state, leaving every
    /// other cell and the dimensions unchanged.
    pub fn set_element(&mut self, r: u32, c: u32, state: u8)
        requires
            old(self).wf(),
            r < old(self).spec_height(),
            c < old(self).spec_width(),
        ensures
            final(self).wf(),
            final(self).spec_width() == old(self).spec_width(),
            final(self).spec_height() == old(self).spec_height(),
            final(self).cell(r as int, c as int) == state,
            forall|rr: int, cc: int|
                final(self).in_bounds(rr, cc) && (rr != r || cc != c)
                    ==> final(self).cell(rr, cc) == old(self).cell(rr, cc),
    {
        let index = self.get_index(r, c);
        self.map[index] = state;
        proof {
            assert forall|rr: int, cc: int|
                final(self).in_bounds(rr, cc) && (rr != r || cc != c)
                    implies final(self).cell(rr, cc) == old(self).cell(rr, cc) by {
                lemma_row_major_in_range(rr, cc, self.width as int, self.height as int);
                if rr < r || (rr == r && cc < c) {
                    lemma_row_major_lt(rr, cc, r as int, c as int, self.width as int);
                } else {
                    lemma_row_major_lt(r as int, c as int, rr, cc, self.width as int);
                }
            }
        }
    }
}

} // verus!

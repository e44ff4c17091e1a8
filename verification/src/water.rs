//! A raster that tells water apart from ordinary low ground, over a British
//! National Grid area.

use vstd::prelude::*;
use crate::ieee::Double;

verus! {

/// Water bodies with fewer vertices than this (closing vertex included) have no
/// area.
pub const MIN_RING: usize = 4;

/// A boolean "is water here" grid. Cell (0, 0) has its south-west corner at
/// (`e0`, `n0`); cells are `cell` metres wide.
pub struct WaterMask {
    pub e0: Double,
    pub n0: Double,
    pub cell: Double,
    pub nx: usize,
    pub ny: usize,
    pub bits: Vec<bool>,
}

/// One row of cell centres cut by a polygon: the row's northing, and for each
/// vertex the easting at which the edge from the vertex before it crosses that
/// northing.
#[derive(Debug)]
pub struct Row {
    pub n: Double,
    pub cross: Vec<Double>,
}

/// A polygon against the block of cells around it: the northings of its
/// vertices, the block's south-west cell, the eastings of its columns' centres
/// and its rows.
#[derive(Debug)]
pub struct Patch {
    pub ys: Vec<Double>,
    pub cx0: usize,
    pub cy0: usize,
    pub es: Vec<Double>,
    pub rows: Vec<Row>,
}

/// The edge into vertex `i` passes east of easting `e` on this row.
pub open spec fn crosses(ys: Seq<Double>, row: Row, e: Double, i: int) -> bool {
    let j = if i == 0 {
        ys.len() - 1
    } else {
        i - 1
    };
    row.n.below(ys[i]) != row.n.below(ys[j]) && e.below(row.cross@[i])
}

/// How many of the edges into the first `k` vertices pass east of `e`.
pub open spec fn crossings(ys: Seq<Double>, row: Row, e: Double, k: int) -> nat
    decreases k,
{
    if k <= 0 {
        0
    } else {
        crossings(ys, row, e, k - 1) + if crosses(ys, row, e, k - 1) {
            1nat
        } else {
            0nat
        }
    }
}

/// A point is inside a polygon when an odd number of edges pass east of it.
pub open spec fn inside(ys: Seq<Double>, row: Row, e: Double) -> bool {
    crossings(ys, row, e, ys.len() as int) % 2 == 1
}

impl Patch {
    pub open spec fn valid(self) -> bool {
        forall|r: int|
            0 <= r < self.rows.len() ==> #[trigger] self.rows@[r].cross.len() == self.ys.len()
    }

    /// The centre of cell (`cx`, `cy`) lies in the polygon.
    pub open spec fn wets(self, cx: int, cy: int) -> bool {
        &&& self.ys.len() >= MIN_RING
        &&& self.cx0 <= cx < self.cx0 + self.es.len()
        &&& self.cy0 <= cy < self.cy0 + self.rows.len()
        &&& inside(self.ys@, self.rows@[cy - self.cy0], self.es@[cx - self.cx0])
    }
}

/// The centre of cell (`cx`, `cy`) lies in one of the polygons.
pub open spec fn in_some(polys: Seq<Patch>, cx: int, cy: int) -> bool {
    exists|k: int| 0 <= k < polys.len() && #[trigger] polys[k].wets(cx, cy)
}

/// Whether the point at easting `e` on this row lies in the polygon.
fn point_in_poly(ys: &Vec<Double>, row: &Row, e: Double) -> (r: bool)
    requires
        ys.len() > 0,
        row.cross.len() == ys.len(),
    ensures
        r == inside(ys@, *row, e),
{
    let mut odd = false;
    let mut j: usize = ys.len() - 1;
    let mut i: usize = 0;
    while i < ys.len()
        invariant
            ys.len() > 0,
            row.cross.len() == ys.len(),
            i <= ys.len(),
            j == if i == 0 {
                ys.len() - 1
            } else {
                i - 1
            },
            odd == (crossings(ys@, *row, e, i as int) % 2 == 1),
        decreases ys.len() - i,
    {
        if row.n.lt(ys[i]) != row.n.lt(ys[j]) && e.lt(row.cross[i]) {
            odd = !odd;
        }
        j = i;
        i = i + 1;
    }
    odd
}

proof fn lemma_cell(nx: int, ny: int, x: int, y: int)
    requires
        0 <= x < nx,
        0 <= y < ny,
    ensures
        0 <= y * nx + x < nx * ny,
        (y * nx + x) / nx == y,
        (y * nx + x) % nx == x,
        0 <= y * nx <= nx * ny,
{
    assert(y * nx + x < nx * ny && y * nx <= nx * ny && y * nx >= 0) by (nonlinear_arith)
        requires
            0 <= x < nx,
            0 <= y < ny,
    ;
    vstd::arithmetic::div_mod::lemma_fundamental_div_mod_converse(y * nx + x, nx, y, x);
}

/// `v` is within `buf` of `w`.
pub open spec fn near(v: int, w: int, buf: int) -> bool {
    -buf <= v - w <= buf
}

/// Cell (`x`, `y`) is within `buf` of one of the cells along a line, both ways.
pub open spec fn beside(cells: Seq<(i64, i64)>, x: int, y: int, buf: int) -> bool {
    exists|k: int|
        0 <= k < cells.len() && near(x, (#[trigger] cells[k]).0 as int, buf) && near(
            y,
            cells[k].1 as int,
            buf,
        )
}

impl WaterMask {
    pub open spec fn valid(self) -> bool {
        self.bits.len() == self.nx * self.ny
    }

    /// Cell (`cx`, `cy`) is on the grid and holds water.
    pub open spec fn wet(self, cx: int, cy: int) -> bool {
        &&& 0 <= cx < self.nx
        &&& 0 <= cy < self.ny
        &&& self.bits@[cy * self.nx + cx]
    }

    /// The same grid, whatever it holds.
    pub open spec fn like(self, other: WaterMask) -> bool {
        &&& self.e0 == other.e0
        &&& self.n0 == other.n0
        &&& self.cell == other.cell
        &&& self.nx == other.nx
        &&& self.ny == other.ny
        &&& self.valid() == other.valid()
    }

    fn mark(&mut self, cx: usize, cy: usize)
        requires
            old(self).valid(),
            cx < old(self).nx,
            cy < old(self).ny,
        ensures
            final(self).like(*old(self)),
            forall|x: int, y: int| #[trigger]
                final(self).wet(x, y) == (old(self).wet(x, y) || (x == cx && y == cy)),
    {
        let ghost before = *self;
        proof {
            lemma_cell(self.nx as int, self.ny as int, cx as int, cy as int);
        }
        self.bits.set(cy * self.nx + cx, true);
        proof {
            assert forall|x: int, y: int| #[trigger] self.wet(x, y) == (before.wet(x, y) || (x == cx && y
                == cy)) by {
                if 0 <= x < self.nx && 0 <= y < self.ny {
                    lemma_cell(self.nx as int, self.ny as int, x, y);
                }
            }
        }
    }

    /// Rasterise polygons (holes not handled) into a grid of `nx`×`ny` cells.
    /// Cells that a patch has beyond the grid are left out.
    pub fn from_polygons(
        e0: Double,
        n0: Double,
        cell: Double,
        nx: usize,
        ny: usize,
        polys: &Vec<Patch>,
    ) -> (m: WaterMask)
        requires
            nx * ny <= usize::MAX,
            forall|k: int| 0 <= k < polys.len() ==> #[trigger] polys@[k].valid(),
        ensures
            m.valid(),
            m.e0 == e0 && m.n0 == n0 && m.cell == cell,
            m.nx == nx && m.ny == ny,
            forall|x: int, y: int| #[trigger]
                m.wet(x, y) == (0 <= x < nx && 0 <= y < ny && in_some(polys@, x, y)),
    {
        let mut bits: Vec<bool> = Vec::new();
        let total: usize = nx * ny;
        while bits.len() < total
            invariant
                bits.len() <= total,
                forall|i: int| 0 <= i < bits.len() ==> !#[trigger] bits@[i],
            decreases total - bits.len(),
        {
            bits.push(false);
        }
        let mut m = WaterMask { e0, n0, cell, nx, ny, bits };
        let ghost blank = m;
        proof {
            assert forall|x: int, y: int| !#[trigger] m.wet(x, y) by {
                if 0 <= x < nx && 0 <= y < ny {
                    lemma_cell(nx as int, ny as int, x, y);
                }
            }
        }
        let mut k: usize = 0;
        while k < polys.len()
            invariant
                k <= polys.len(),
                m.like(blank),
                m.valid(),
                m.nx == nx && m.ny == ny,
                forall|i: int| 0 <= i < polys.len() ==> #[trigger] polys@[i].valid(),
                forall|x: int, y: int| #[trigger]
                    m.wet(x, y) == (0 <= x < nx && 0 <= y < ny && exists|i: int|
                        0 <= i < k && #[trigger] polys@[i].wets(x, y)),
            decreases polys.len() - k,
        {
            let p = &polys[k];
            let ghost before = m;
            if p.ys.len() >= MIN_RING {
                m.fill(p);
            }
            proof {
                assert forall|x: int, y: int| #[trigger]
                    m.wet(x, y) == (0 <= x < nx && 0 <= y < ny && exists|i: int|
                        0 <= i < k + 1 && #[trigger] polys@[i].wets(x, y)) by {
                    assert(before.wet(x, y) == (0 <= x < nx && 0 <= y < ny && exists|i: int|
                        0 <= i < k && #[trigger] polys@[i].wets(x, y)));
                    assert(*p == polys@[k as int]);
                    if exists|i: int| 0 <= i < k + 1 && #[trigger] polys@[i].wets(x, y) {
                        let i = choose|i: int| 0 <= i < k + 1 && #[trigger] polys@[i].wets(x, y);
                        if i < k {
                            assert(polys@[i].wets(x, y));
                        }
                    }
                }
            }
            k = k + 1;
        }
        m
    }

    fn fill(&mut self, p: &Patch)
        requires
            old(self).valid(),
            p.valid(),
            p.ys.len() >= MIN_RING,
        ensures
            final(self).like(*old(self)),
            forall|x: int, y: int| #[trigger]
                final(self).wet(x, y) == (old(self).wet(x, y) || (0 <= x < old(self).nx && 0 <= y
                    < old(self).ny && p.wets(x, y))),
    {
        let ghost before = *self;
        let mut r: usize = 0;
        while r < p.rows.len() && r < self.ny && p.cy0 < self.ny - r
            invariant
                r <= p.rows.len(),
                r <= self.ny,
                r > 0 ==> p.cy0 + r <= self.ny,
                p.valid(),
                p.ys.len() >= MIN_RING,
                before.valid(),
                self.like(before),
                forall|x: int, y: int| #[trigger]
                    self.wet(x, y) == (before.wet(x, y) || (0 <= x < before.nx && 0 <= y < before.ny
                        && p.wets(x, y) && y < p.cy0 + r)),
            decreases p.rows.len() - r,
        {
            let row = &p.rows[r];
            let cy: usize = p.cy0 + r;
            let mut c: usize = 0;
            while c < p.es.len() && c < self.nx && p.cx0 < self.nx - c
                invariant
                    c <= p.es.len(),
                    c <= self.nx,
                    c > 0 ==> p.cx0 + c <= self.nx,
                    r < p.rows.len(),
                    cy == p.cy0 + r,
                    cy < self.ny,
                    *row == p.rows@[r as int],
                    p.valid(),
                    p.ys.len() >= MIN_RING,
                    before.valid(),
                    self.like(before),
                    forall|x: int, y: int| #[trigger]
                        self.wet(x, y) == (before.wet(x, y) || (0 <= x < before.nx && 0 <= y
                            < before.ny && p.wets(x, y) && (y < cy || y == cy && x < p.cx0 + c))),
                decreases p.es.len() - c,
            {
                let ghost here = *self;
                let cx: usize = p.cx0 + c;
                let hit = point_in_poly(&p.ys, row, p.es[c]);
                proof {
                    assert(hit == p.wets(cx as int, cy as int));
                }
                if hit {
                    self.mark(cx, cy);
                }
                proof {
                    assert forall|x: int, y: int| #[trigger]
                        self.wet(x, y) == (before.wet(x, y) || (0 <= x < before.nx && 0 <= y
                            < before.ny && p.wets(x, y) && (y < cy || y == cy && x < p.cx0 + c + 1))) by {
                        assert(here.wet(x, y) == (before.wet(x, y) || (0 <= x < before.nx && 0 <= y
                            < before.ny && p.wets(x, y) && (y < cy || y == cy && x < p.cx0 + c))));
                    }
                }
                c = c + 1;
            }
            r = r + 1;
        }
    }

    /// Stamp a polyline (e.g. a river centreline) into the mask, marking every
    /// cell it passes through plus `buf` cells either side. `cells` lists the
    /// cells along the line.
    pub fn add_line(&mut self, cells: &Vec<(i64, i64)>, buf: i64)
        requires
            old(self).valid(),
        ensures
            final(self).like(*old(self)),
            forall|x: int, y: int| #[trigger]
                final(self).wet(x, y) == (old(self).wet(x, y) || (0 <= x < old(self).nx && 0 <= y
                    < old(self).ny && beside(cells@, x, y, buf as int))),
    {
        let ghost before = *self;
        let mut k: usize = 0;
        while k < cells.len()
            invariant
                k <= cells.len(),
                before.valid(),
                self.like(before),
                forall|x: int, y: int| #[trigger]
                    self.wet(x, y) == (before.wet(x, y) || (0 <= x < before.nx && 0 <= y < before.ny
                        && exists|i: int|
                        0 <= i < k && near(x, (#[trigger] cells@[i]).0 as int, buf as int) && near(
                            y,
                            cells@[i].1 as int,
                            buf as int,
                        ))),
            decreases cells.len() - k,
        {
            let ghost here = *self;
            self.stamp(cells[k].0, cells[k].1, buf);
            proof {
                assert forall|x: int, y: int| #[trigger]
                    self.wet(x, y) == (before.wet(x, y) || (0 <= x < before.nx && 0 <= y < before.ny
                        && exists|i: int|
                        0 <= i < k + 1 && near(x, (#[trigger] cells@[i]).0 as int, buf as int)
                            && near(y, cells@[i].1 as int, buf as int))) by {
                    assert(here.wet(x, y) == (before.wet(x, y) || (0 <= x < before.nx && 0 <= y
                        < before.ny && exists|i: int|
                        0 <= i < k && near(x, (#[trigger] cells@[i]).0 as int, buf as int) && near(
                            y,
                            cells@[i].1 as int,
                            buf as int,
                        ))));
                    let c = cells@[k as int];
                    assert(self.wet(x, y) == (here.wet(x, y) || (0 <= x < here.nx && 0 <= y < here.ny
                        && near(x, c.0 as int, buf as int) && near(y, c.1 as int, buf as int))));
                }
            }
            k = k + 1;
        }
    }

    fn stamp(&mut self, cx: i64, cy: i64, buf: i64)
        requires
            old(self).valid(),
        ensures
            final(self).like(*old(self)),
            forall|x: int, y: int| #[trigger]
                final(self).wet(x, y) == (old(self).wet(x, y) || (0 <= x < old(self).nx && 0 <= y
                    < old(self).ny && near(x, cx as int, buf as int) && near(y, cy as int, buf as int))),
    {
        let ghost before = *self;
        let mut dy: i128 = -(buf as i128);
        while dy <= buf as i128
            invariant
                -(buf as int) <= dy,
                -0x1_0000_0000_0000_0000 <= dy <= 0x1_0000_0000_0000_0000,
                before.valid(),
                self.like(before),
                forall|x: int, y: int| #[trigger]
                    self.wet(x, y) == (before.wet(x, y) || (0 <= x < before.nx && 0 <= y < before.ny
                        && near(x, cx as int, buf as int) && near(y, cy as int, buf as int) && y < cy
                        + dy)),
            decreases buf + 1 - dy,
        {
            let gy: i128 = cy as i128 + dy;
            let mut dx: i128 = -(buf as i128);
            while dx <= buf as i128
                invariant
                    -(buf as int) <= dx,
                    -0x1_0000_0000_0000_0000 <= dx <= 0x1_0000_0000_0000_0000,
                    gy == cy + dy,
                    -(buf as int) <= dy <= buf,
                    before.valid(),
                    self.like(before),
                    forall|x: int, y: int| #[trigger]
                        self.wet(x, y) == (before.wet(x, y) || (0 <= x < before.nx && 0 <= y
                            < before.ny && near(x, cx as int, buf as int) && near(
                            y,
                            cy as int,
                            buf as int,
                        ) && (y < gy || y == gy && x < cx + dx))),
                decreases buf + 1 - dx,
            {
                let ghost here = *self;
                let gx: i128 = cx as i128 + dx;
                if gx >= 0 && gy >= 0 && gx < self.nx as i128 && gy < self.ny as i128 {
                    self.mark(gx as usize, gy as usize);
                }
                proof {
                    assert forall|x: int, y: int| #[trigger]
                        self.wet(x, y) == (before.wet(x, y) || (0 <= x < before.nx && 0 <= y
                            < before.ny && near(x, cx as int, buf as int) && near(
                            y,
                            cy as int,
                            buf as int,
                        ) && (y < gy || y == gy && x < cx + dx + 1))) by {
                        assert(here.wet(x, y) == (before.wet(x, y) || (0 <= x < before.nx && 0 <= y
                            < before.ny && near(x, cx as int, buf as int) && near(
                            y,
                            cy as int,
                            buf as int,
                        ) && (y < gy || y == gy && x < cx + dx))));
                    }
                }
                dx = dx + 1;
            }
            dy = dy + 1;
        }
    }

    /// Whether the cell in column `cx`, row `cy` holds water; off the grid there
    /// is none.
    pub fn is_water(&self, cx: i64, cy: i64) -> (r: bool)
        requires
            self.valid(),
        ensures
            r == self.wet(cx as int, cy as int),
    {
        if cx < 0 || cy < 0 {
            return false;
        }
        if cx as u64 >= self.nx as u64 || cy as u64 >= self.ny as u64 {
            return false;
        }
        let (x, y) = (cx as usize, cy as usize);
        proof {
            lemma_cell(self.nx as int, self.ny as int, x as int, y as int);
        }
        self.bits[y * self.nx + x]
    }
}

/// The edges of a polygon that cross the row east of `e`: one end lies north of
/// the row, the other does not, and the crossing is farther east.
pub open spec fn edges_east(ys: Seq<Double>, row: Row, e: Double) -> Set<int> {
    Set::new(
        |i: int|
            0 <= i < ys.len() && row.n.below(ys[i]) != row.n.below(
                ys[if i == 0 {
                    ys.len() - 1
                } else {
                    i - 1
                }],
            ) && e.below(row.cross@[i]),
    )
}

proof fn lemma_crossings(ys: Seq<Double>, row: Row, e: Double, k: int)
    requires
        0 <= k <= ys.len(),
    ensures
        ({
            let first = edges_east(ys, row, e).intersect(Set::new(|i: int| i < k));
            first.finite() && crossings(ys, row, e, k) == first.len()
        }),
    decreases k,
{
    let all = edges_east(ys, row, e);
    let first = all.intersect(Set::new(|i: int| i < k));
    if k > 0 {
        lemma_crossings(ys, row, e, k - 1);
        let before = all.intersect(Set::new(|i: int| i < k - 1));
        if crosses(ys, row, e, k - 1) {
            assert(first =~= before.insert(k - 1));
        } else {
            assert(first =~= before);
        }
    } else {
        assert(first =~= Set::empty());
    }
}

/// Even-odd rule: a point lies in a polygon exactly where the number of edges that
/// cross its row farther east is odd.
pub proof fn inside_is_an_odd_number_of_edges(ys: Seq<Double>, row: Row, e: Double)
    ensures
        edges_east(ys, row, e).finite(),
        inside(ys, row, e) <==> edges_east(ys, row, e).len() % 2 == 1,
{
    lemma_crossings(ys, row, e, ys.len() as int);
    assert(edges_east(ys, row, e).intersect(Set::new(|i: int| i < ys.len())) =~= edges_east(
        ys,
        row,
        e,
    ));
}

/// Stepping east past one crossing always changes the answer.
pub proof fn a_crossing_toggles(ys: Seq<Double>, row: Row, west: Double, east: Double, i: int)
    requires
        edges_east(ys, row, west).contains(i),
        edges_east(ys, row, east) == edges_east(ys, row, west).remove(i),
    ensures
        inside(ys, row, east) != inside(ys, row, west),
{
    inside_is_an_odd_number_of_edges(ys, row, west);
    inside_is_an_odd_number_of_edges(ys, row, east);
}

/// East of all crossings, and on rows that no edge crosses, nothing is inside.
pub proof fn nothing_is_inside_beyond_the_last_crossing(ys: Seq<Double>, row: Row, e: Double)
    requires
        forall|i: int| 0 <= i < ys.len() ==> !e.below(#[trigger] row.cross@[i]),
    ensures
        !inside(ys, row, e),
{
    inside_is_an_odd_number_of_edges(ys, row, e);
    assert(edges_east(ys, row, e) =~= Set::empty());
}

/// A polygon wets exactly the cells of its own block whose centres lie inside it; with
/// fewer than four vertices it wets none.
pub proof fn polygons_wet_their_own_cells(p: Patch, column: int, row: int)
    requires
        0 <= column < p.es.len(),
        0 <= row < p.rows.len(),
    ensures
        p.wets(p.cx0 + column, p.cy0 + row) <==> p.ys.len() >= 4 && edges_east(
            p.ys@,
            p.rows@[row],
            p.es@[column],
        ).len() % 2 == 1,
        !p.wets(p.cx0 - 1 - column, p.cy0 + row),
        !p.wets(p.cx0 + p.es.len() + column, p.cy0 + row),
        !p.wets(p.cx0 + column, p.cy0 - 1 - row),
        !p.wets(p.cx0 + column, p.cy0 + p.rows.len() + row),
{
    inside_is_an_odd_number_of_edges(p.ys@, p.rows@[row], p.es@[column]);
    assert(p.cx0 + column - p.cx0 == column && p.cy0 + row - p.cy0 == row);
}

/// Cells are near a line's cell exactly within the buffer either side, and alike on both.
pub proof fn buffers_reach_either_side(v: int, w: int, buf: int)
    ensures
        near(v, w, buf) <==> w - buf <= v && v <= w + buf,
        near(v, w, buf) == near(w, v, buf),
        buf == 0 ==> (near(v, w, buf) <==> v == w),
{
}

/// Cells lie row by row from the south-west; off the grid nothing is wet.
pub proof fn cells_lie_row_by_row(m: WaterMask, cx: int, cy: int)
    requires
        m.valid(),
    ensures
        0 <= cx < m.nx && 0 <= cy < m.ny ==> 0 <= cy * m.nx + cx < m.bits.len() && m.wet(cx, cy)
            == m.bits@[cy * m.nx + cx],
        cx < 0 || cx >= m.nx || cy < 0 || cy >= m.ny ==> !m.wet(cx, cy),
{
    if 0 <= cx < m.nx && 0 <= cy < m.ny {
        lemma_cell(m.nx as int, m.ny as int, cx, cy);
    }
}

/// The centre of cell (`x`, `y`) has an odd number of the polygon's edges east of it, and the
/// polygon has four vertices or more.
pub open spec fn surrounds(p: Patch, x: int, y: int) -> bool {
    &&& p.ys.len() >= 4
    &&& p.cx0 <= x < p.cx0 + p.es.len()
    &&& p.cy0 <= y < p.cy0 + p.rows.len()
    &&& edges_east(p.ys@, p.rows@[y - p.cy0], p.es@[x - p.cx0]).len() % 2 == 1
}

/// A cell of a rasterised mask is wet exactly where its centre lies in one of the polygons:
/// where an odd number of that polygon's edges pass east of it.
pub proof fn masks_are_wet_inside_polygons(
    e0: Double,
    n0: Double,
    cell: Double,
    nx: usize,
    ny: usize,
    polys: &Vec<Patch>,
    m: WaterMask,
    x: int,
    y: int,
)
    requires
        call_ensures(WaterMask::from_polygons, (e0, n0, cell, nx, ny, polys), m),
        0 <= x < nx,
        0 <= y < ny,
    ensures
        m.wet(x, y) <==> exists|k: int| 0 <= k < polys.len() && surrounds(#[trigger] polys@[k], x, y),
        m.nx == nx && m.ny == ny && m.e0 == e0 && m.n0 == n0 && m.cell == cell,
{
    assert forall|k: int| 0 <= k < polys.len() implies surrounds(#[trigger] polys@[k], x, y)
        == polys@[k].wets(x, y) by {
        let p = polys@[k];
        inside_is_an_odd_number_of_edges(p.ys@, p.rows@[y - p.cy0], p.es@[x - p.cx0]);
    }
    if m.wet(x, y) {
        let k = choose|k: int| 0 <= k < polys.len() && #[trigger] polys@[k].wets(x, y);
        assert(surrounds(polys@[k], x, y));
    }
    if exists|k: int| 0 <= k < polys.len() && surrounds(#[trigger] polys@[k], x, y) {
        let k = choose|k: int| 0 <= k < polys.len() && surrounds(#[trigger] polys@[k], x, y);
        assert(polys@[k].wets(x, y));
    }
}

/// Off the grid there is no water.
pub proof fn water_is_on_the_grid(m: &WaterMask, cx: i64, cy: i64, r: bool)
    requires
        m.valid(),
        call_ensures(WaterMask::is_water, (m, cx, cy), r),
    ensures
        cx < 0 || cy < 0 || cx >= m.nx || cy >= m.ny ==> !r,
        0 <= cx < m.nx && 0 <= cy < m.ny ==> r == m.bits@[cy * m.nx + cx],
{
}

/// A line wets the square of cells around each of its own, and no others: one more cell adds
/// exactly its square.
pub proof fn lines_wet_squares(cells: Seq<(i64, i64)>, c: (i64, i64), x: int, y: int, buf: int)
    ensures
        beside(cells.push(c), x, y, buf) <==> beside(cells, x, y, buf) || {
            &&& c.0 - buf <= x && x <= c.0 + buf
            &&& c.1 - buf <= y && y <= c.1 + buf
        },
        !beside(Seq::empty(), x, y, buf),
{
    let all = cells.push(c);
    if beside(cells, x, y, buf) {
        let k = choose|k: int|
            0 <= k < cells.len() && near(x, (#[trigger] cells[k]).0 as int, buf) && near(
                y,
                cells[k].1 as int,
                buf,
            );
        assert(all[k] == cells[k]);
    }
    if beside(all, x, y, buf) {
        let k = choose|k: int|
            0 <= k < all.len() && near(x, (#[trigger] all[k]).0 as int, buf) && near(
                y,
                all[k].1 as int,
                buf,
            );
        if k < cells.len() {
            assert(all[k] == cells[k]);
        }
    }
    assert(all[cells.len() as int] == c);
}

}

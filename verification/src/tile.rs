//! Slippy-map tile addresses (XYZ scheme, Web Mercator): the clamped address a
//! position falls in, the TMS row flip that MBTiles uses, the window of tiles
//! that covers a viewport, and the order and pace at which that window loads.

use vstd::prelude::*;
use vstd::arithmetic::power2::pow2;
use crate::order::{Ranked, stable_sort};

verus! {

/// MVT geometry is expressed in this integer tile-local extent (0..=4096).
pub const TILE_EXTENT: u32 = 4096;

/// Zoom limit for archives that do not declare one.
pub const MAX_SLIPPY_ZOOM: u8 = 14;

/// New tiles decoded and uploaded per frame; the rest stream over later frames.
pub const TILE_BUDGET_PER_FRAME: usize = 4;

/// A slippy-map tile address. `x` counts east from the antimeridian, `y` counts
/// south from the north (XYZ convention).
#[derive(Debug, Clone, Copy, PartialEq, Eq, Structural, Hash)]
pub struct Tile {
    pub z: u8,
    pub x: u32,
    pub y: u32,
}

/// `v` brought into `0..=max`.
pub open spec fn clamped(v: int, max: int) -> int {
    if v < 0 {
        0
    } else if v > max {
        max
    } else {
        v
    }
}

impl Tile {
    /// The address names a tile that exists at its zoom.
    pub open spec fn valid(self) -> bool {
        &&& self.z < 32
        &&& self.x < pow2(self.z as nat)
        &&& self.y < pow2(self.z as nat)
    }

    /// The same tile with its row counted from the south.
    pub open spec fn flipped(self) -> Tile {
        Tile { z: self.z, x: self.x, y: (pow2(self.z as nat) - 1 - self.y) as u32 }
    }

    pub fn new(z: u8, x: u32, y: u32) -> (t: Tile)
        ensures
            t == (Tile { z, x, y }),
    {
        Tile { z, x, y }
    }

    /// Number of tiles per axis at this zoom: `2^z`.
    pub fn count_per_axis(z: u8) -> (n: u32)
        requires
            z < 32,
        ensures
            n == pow2(z as nat),
    {
        proof {
            lemma_axis_fits(z);
            vstd::bits::lemma_u32_shl_is_mul(1, z as u32);
        }
        1u32 << z
    }

    /// The tile at zoom `z` that holds the position whose fractional tile
    /// coordinates round down to (`column`, `row`). Positions off the map go to
    /// the nearest tile.
    pub fn containing(column: i64, row: i64, z: u8) -> (t: Tile)
        requires
            z < 32,
        ensures
            t.z == z,
            t.x == clamped(column as int, pow2(z as nat) - 1),
            t.y == clamped(row as int, pow2(z as nat) - 1),
            t.valid(),
    {
        let n: u32 = Self::count_per_axis(z);
        proof {
            lemma_axis_fits(z);
        }
        Tile { z, x: clamp_index(column, n - 1), y: clamp_index(row, n - 1) }
    }

    /// Convert this XYZ row to the TMS row MBTiles stores it under: `2^z-1 - y`.
    pub fn tms_y(self) -> (row: u32)
        requires
            self.z < 32,
            self.y < pow2(self.z as nat),
        ensures
            row == pow2(self.z as nat) - 1 - self.y,
            row < pow2(self.z as nat),
    {
        Self::count_per_axis(self.z) - 1 - self.y
    }
}

proof fn lemma_axis_fits(z: u8)
    requires
        z < 32,
    ensures
        1 <= pow2(z as nat) <= 0x8000_0000,
{
    vstd::arithmetic::power2::lemma2_to64();
    vstd::arithmetic::power2::lemma_pow2_pos(z as nat);
    if z < 31 {
        vstd::arithmetic::power2::lemma_pow2_strictly_increases(z as nat, 31);
    }
}

fn clamp_index(v: i64, max: u32) -> (r: u32)
    ensures
        r == clamped(v as int, max as int),
{
    if v < 0 {
        0
    } else if v > max as i64 {
        max
    } else {
        v as u32
    }
}

/// The slippy zoom nearest to the wanted (already rounded) level, within what
/// the archive holds.
pub fn slippy_zoom(wanted: i64, maxz: u8) -> (z: u8)
    ensures
        z == clamped(wanted as int, maxz as int),
{
    clamp_index(wanted, maxz as u32) as u8
}

/// A rectangle of tile indices at one zoom, both corners included.
#[derive(Debug, Clone, Copy, PartialEq, Eq, Structural)]
pub struct Window {
    pub z: u8,
    pub x0: u32,
    pub y0: u32,
    pub x1: u32,
    pub y1: u32,
}

/// The tile range covering a viewport at zoom `z`, from the rounded-down tile
/// coordinates of its north-west and south-east corners.
pub fn visible_tiles(z: u8, nw: (i64, i64), se: (i64, i64)) -> (w: Window)
    requires
        z < 32,
    ensures
        w.z == z,
        w.x0 == clamped(nw.0 as int, pow2(z as nat) - 1),
        w.y0 == clamped(nw.1 as int, pow2(z as nat) - 1),
        w.x1 == clamped(se.0 as int, pow2(z as nat) - 1),
        w.y1 == clamped(se.1 as int, pow2(z as nat) - 1),
        forall|t: Tile| w.holds(t) ==> #[trigger] t.valid(),
{
    let a = Tile::containing(nw.0, nw.1, z);
    let b = Tile::containing(se.0, se.1, z);
    Window { z, x0: a.x, y0: a.y, x1: b.x, y1: b.y }
}

impl Window {
    pub open spec fn holds(self, t: Tile) -> bool {
        &&& t.z == self.z
        &&& self.x0 <= t.x <= self.x1
        &&& self.y0 <= t.y <= self.y1
    }

    /// Four times the squared distance of a tile from the window's middle.
    pub open spec fn off_centre(self, t: Tile) -> int {
        let dx = 2 * t.x - self.x0 - self.x1;
        let dy = 2 * t.y - self.y0 - self.y1;
        dx * dx + dy * dy
    }

    /// `a` fills before `b`: nearer the middle, or as near and earlier in
    /// reading order.
    pub open spec fn fills_before(self, a: Tile, b: Tile) -> bool {
        ||| self.off_centre(a) < self.off_centre(b)
        ||| self.off_centre(a) == self.off_centre(b) && (a.y < b.y || a.y == b.y && a.x < b.x)
    }

    /// `row` starts the window's tiles in reading order and stops before tile
    /// column `x` of row `y`.
    spec fn read_up_to(self, row: Seq<Tile>, x: int, y: int) -> bool {
        &&& forall|t: Tile| #[trigger]
            row.contains(t) <==> self.holds(t) && (t.y < y || t.y == y && t.x < x)
        &&& forall|i: int, j: int|
            #![trigger row[i], row[j]]
            0 <= i < j < row.len() ==> row[i].y < row[j].y || row[i].y == row[j].y && row[i].x
                < row[j].x
    }

    /// The tiles in reading order: west to east, row after row southwards.
    fn reading_order(&self) -> (row: Vec<Tile>)
        ensures
            self.read_up_to(row@, 0, self.y1 + 1),
    {
        let mut row: Vec<Tile> = Vec::new();
        let mut y: u64 = self.y0 as u64;
        while y <= self.y1 as u64
            invariant
                self.y0 <= y,
                y <= self.y1 + 1 || y == self.y0,
                self.read_up_to(row@, self.x0 as int, y as int),
            decreases self.y1 + 1 - y,
        {
            let mut x: u64 = self.x0 as u64;
            while x <= self.x1 as u64
                invariant
                    self.y0 <= y <= self.y1,
                    self.x0 <= x,
                    self.read_up_to(row@, x as int, y as int),
                decreases self.x1 + 1 - x,
            {
                let ghost before = row@;
                let t = Tile { z: self.z, x: x as u32, y: y as u32 };
                row.push(t);
                proof {
                    assert forall|u: Tile| #[trigger] row@.contains(u) <==> self.holds(u) && (u.y
                        < y || u.y == y && u.x < x + 1) by {
                        if before.contains(u) {
                            let i = choose|i: int| 0 <= i < before.len() && before[i] == u;
                            assert(row@[i] == u);
                        }
                        assert(row@[before.len() as int] == t);
                        if self.holds(u) && u.y == y && u.x == x {
                            assert(u == t);
                        }
                    }
                    assert forall|i: int| 0 <= i < before.len() implies #[trigger] before[i].y < y
                        || before[i].y == y && before[i].x < x by {
                        assert(before.contains(before[i]));
                    }
                }
                x = x + 1;
            }
            y = y + 1;
        }
        proof {
            assert forall|t: Tile| #[trigger] row@.contains(t) <==> self.holds(t) && (t.y < self.y1
                + 1 || t.y == self.y1 + 1 && t.x < 0) by {}
        }
        row
    }

    /// The window's tiles from the middle outwards, so the middle of the view
    /// fills first; ties go in reading order.
    pub fn centre_out(&self) -> (want: Vec<Tile>)
        ensures
            want@.no_duplicates(),
            forall|t: Tile| #[trigger] want@.contains(t) <==> self.holds(t),
            forall|i: int, j: int|
                #![trigger want@[i], want@[j]]
                0 <= i < j < want.len() ==> self.fills_before(want@[i], want@[j]),
    {
        let row = self.reading_order();
        let mut ranks: Vec<OffCentre> = Vec::new();
        let mut i: usize = 0;
        while i < row.len()
            invariant
                i <= row.len(),
                ranks.len() == i,
                forall|k: int| 0 <= k < i ==> #[trigger] ranks@[k].d == self.off_centre(row@[k]),
            decreases row.len() - i,
        {
            let t = row[i];
            let dx: i128 = 2 * t.x as i128 - self.x0 as i128 - self.x1 as i128;
            let dy: i128 = 2 * t.y as i128 - self.y0 as i128 - self.y1 as i128;
            proof {
                lemma_square_small(dx as int);
                lemma_square_small(dy as int);
            }
            ranks.push(OffCentre { d: dx * dx + dy * dy });
            i = i + 1;
        }
        let order = stable_sort(&ranks);
        let mut want: Vec<Tile> = Vec::new();
        let mut k: usize = 0;
        while k < order.len()
            invariant
                k <= order.len(),
                want.len() == k,
                order.len() == row.len(),
                forall|j: int| 0 <= j < order.len() ==> #[trigger] order@[j] < row.len(),
                forall|j: int| 0 <= j < k ==> #[trigger] want@[j] == row@[order@[j] as int],
            decreases order.len() - k,
        {
            want.push(row[order[k]]);
            k = k + 1;
        }
        proof {
            assert forall|t: Tile| #[trigger] want@.contains(t) <==> self.holds(t) by {
                if want@.contains(t) {
                    let j = choose|j: int| 0 <= j < want.len() && want@[j] == t;
                    assert(row@.contains(row@[order@[j] as int]));
                }
                if self.holds(t) {
                    assert(row@.contains(t));
                    let p = choose|p: int| 0 <= p < row.len() && row@[p] == t;
                    assert(order@.contains(p as usize));
                    let j = choose|j: int| 0 <= j < order.len() && order@[j] == p as usize;
                    assert(want@[j] == t);
                }
            }
            assert forall|i: int, j: int|
                #![trigger want@[i], want@[j]]
                0 <= i < j < want.len() implies self.fills_before(want@[i], want@[j]) by {
                let (a, b) = (order@[i], order@[j]);
                assert(crate::order::stands_before(ranks@, a, b));
                assert(ranks@[a as int].d == self.off_centre(row@[a as int]));
                assert(ranks@[b as int].d == self.off_centre(row@[b as int]));
            }
        }
        want
    }
}

proof fn lemma_square_small(d: int)
    requires
        -0x2_0000_0000 <= d <= 0x2_0000_0000,
    ensures
        0 <= d * d <= 0x4_0000_0000_0000_0000,
{
    assert(0 <= d * d <= 0x2_0000_0000 * 0x2_0000_0000) by (nonlinear_arith)
        requires
            -0x2_0000_0000 <= d <= 0x2_0000_0000,
    ;
}

struct OffCentre {
    d: i128,
}

impl Ranked for OffCentre {
    closed spec fn precedes(&self, other: &Self) -> bool {
        self.d <= other.d
    }

    proof fn total(a: &Self, b: &Self) {
    }

    proof fn transitive(a: &Self, b: &Self, c: &Self) {
    }

    fn ranks_before(&self, other: &Self) -> (r: bool) {
        self.d <= other.d
    }
}

/// What one frame does about the tiles it wants.
pub struct FramePlan {
    /// Positions of the wanted tiles to load now.
    pub load: Vec<usize>,
    /// Tiles are left over, so another frame has to follow.
    pub more: bool,
}

/// The positions in `cached`, in order, that hold `false`.
pub open spec fn missing(cached: Seq<bool>) -> Seq<int>
    decreases cached.len(),
{
    if cached.len() == 0 {
        Seq::empty()
    } else if cached.last() {
        missing(cached.drop_last())
    } else {
        missing(cached.drop_last()).push(cached.len() - 1)
    }
}

/// Plan a frame: load the first missing tiles, as many as the budget allows.
/// `cached` says of each wanted tile whether it is already there.
pub fn plan_frame(cached: &Vec<bool>) -> (plan: FramePlan)
    ensures
        plan.more == (missing(cached@).len() > TILE_BUDGET_PER_FRAME),
        plan.load.len() == if plan.more { TILE_BUDGET_PER_FRAME as nat } else { missing(cached@).len() },
        forall|i: int| 0 <= i < plan.load.len() ==> #[trigger] plan.load@[i] == missing(cached@)[i],
{
    let mut load: Vec<usize> = Vec::new();
    let mut more = false;
    let mut i: usize = 0;
    while i < cached.len()
        invariant
            i <= cached.len(),
            load.len() <= TILE_BUDGET_PER_FRAME,
            more == (missing(cached@.take(i as int)).len() > TILE_BUDGET_PER_FRAME),
            more ==> load.len() == TILE_BUDGET_PER_FRAME,
            !more ==> load.len() == missing(cached@.take(i as int)).len(),
            forall|k: int| 0 <= k < load.len() ==> #[trigger] load@[k] == missing(cached@.take(i as int))[k],
        decreases cached.len() - i,
    {
        proof {
            assert(cached@.take(i as int + 1).drop_last() =~= cached@.take(i as int));
        }
        if !cached[i] {
            if load.len() >= TILE_BUDGET_PER_FRAME {
                more = true;
            } else {
                load.push(i);
            }
        }
        i = i + 1;
    }
    proof {
        assert(cached@.take(i as int) =~= cached@);
    }
    FramePlan { load, more }
}

/// The tile is one of the four that tile `parent` splits into one zoom deeper.
pub open spec fn quarters(child: Tile, parent: Tile) -> bool {
    &&& child.z == parent.z + 1
    &&& child.x as int / 2 == parent.x
    &&& child.y as int / 2 == parent.y
}

/// Zooms nest: whatever the position, on the map or off it, its tile one zoom
/// deeper is one of the four quarters of its tile. (Halving a fractional
/// coordinate that rounds down to `column` gives one that rounds down to
/// `column / 2`.)
pub proof fn zooms_nest(column: int, row: int, z: u8, outer: Tile, inner: Tile)
    requires
        z < 31,
        outer.z == z,
        outer.x == clamped(column / 2, pow2(z as nat) - 1),
        outer.y == clamped(row / 2, pow2(z as nat) - 1),
        inner.z == z + 1,
        inner.x == clamped(column, pow2((z + 1) as nat) - 1),
        inner.y == clamped(row, pow2((z + 1) as nat) - 1),
    ensures
        quarters(inner, outer),
        outer.valid(),
        inner.valid(),
{
    lemma_axis_fits(z);
    lemma_axis_fits((z + 1) as u8);
    vstd::arithmetic::power2::lemma_pow2_unfold((z + 1) as nat);
}

/// The row flip is its own inverse, and stays on the map.
pub proof fn tms_flip_is_involutive(t: Tile)
    requires
        t.valid(),
    ensures
        t.flipped().valid(),
        t.flipped().flipped() == t,
{
    lemma_axis_fits(t.z);
}

/// `missing` lists exactly the positions that hold `false`, in increasing order.
pub proof fn missing_is_exact(cached: Seq<bool>)
    ensures
        forall|p: int| #[trigger] missing(cached).contains(p) <==> 0 <= p < cached.len() && !cached[p],
        forall|i: int, j: int|
            #![trigger missing(cached)[i], missing(cached)[j]]
            0 <= i < j < missing(cached).len() ==> missing(cached)[i] < missing(cached)[j],
    decreases cached.len(),
{
    if cached.len() > 0 {
        let rest = cached.drop_last();
        let m = missing(rest);
        missing_is_exact(rest);
        assert forall|p: int| #[trigger] missing(cached).contains(p) <==> 0 <= p < cached.len() && !cached[p] by {
            assert(m.contains(p) <==> 0 <= p < rest.len() && !rest[p]);
            if !cached.last() {
                if m.contains(p) {
                    let i = choose|i: int| 0 <= i < m.len() && m[i] == p;
                    assert(m.push(cached.len() - 1)[i] == p);
                }
                assert(m.push(cached.len() - 1)[m.len() as int] == cached.len() - 1);
            }
        }
        assert forall|i: int, j: int|
            #![trigger missing(cached)[i], missing(cached)[j]]
            0 <= i < j < missing(cached).len() implies missing(cached)[i] < missing(cached)[j] by {
            if j == m.len() {
                assert(m.contains(m[i]));
            }
        }
    }
}

/// What is there after a frame has loaded the first `k` missing tiles.
pub open spec fn after_frame(cached: Seq<bool>, k: int) -> Seq<bool> {
    Seq::new(cached.len(), |p: int| cached[p] || missing(cached).take(k).contains(p))
}

/// Frames make progress: once the first `k` missing tiles are loaded, exactly the
/// others are missing still, in the same order. So the frames that follow one
/// another load every tile, each once.
pub proof fn frames_load_every_tile(cached: Seq<bool>, k: int)
    requires
        0 <= k <= missing(cached).len(),
    ensures
        missing(after_frame(cached, k)) == missing(cached).skip(k),
{
    let m = missing(cached);
    let now = after_frame(cached, k);
    missing_is_exact(cached);
    missing_is_exact(now);
    assert forall|p: int| missing(now).contains(p) <==> m.skip(k).contains(p) by {
        if missing(now).contains(p) {
            assert(m.contains(p));
            let i = choose|i: int| 0 <= i < m.len() && m[i] == p;
            if i < k {
                assert(m.take(k)[i] == p);
            }
            assert(m.skip(k)[i - k] == p);
        }
        if m.skip(k).contains(p) {
            let j = choose|j: int| 0 <= j < m.skip(k).len() && m.skip(k)[j] == p;
            assert(m[j + k] == p);
            assert(m.contains(p));
            if m.take(k).contains(p) {
                let i = choose|i: int| 0 <= i < m.take(k).len() && m.take(k)[i] == p;
                assert(m[i] == p);
            }
        }
    }
    lemma_increasing_unique(missing(now), m.skip(k));
}

spec fn increasing(s: Seq<int>) -> bool {
    forall|i: int, j: int| #![trigger s[i], s[j]] 0 <= i < j < s.len() ==> s[i] < s[j]
}

proof fn lemma_increasing_unique(a: Seq<int>, b: Seq<int>)
    requires
        increasing(a),
        increasing(b),
        forall|p: int| a.contains(p) <==> b.contains(p),
    ensures
        a == b,
    decreases a.len(),
{
    if a.len() == 0 {
        if b.len() > 0 {
            assert(b.contains(b[0]));
        }
        assert(a =~= b);
    } else {
        assert(a.contains(a[0]));
        assert(b.len() > 0);
        let (x, y) = (a.drop_last(), b.drop_last());
        assert(a.contains(a.last()) && b.contains(b.last()));
        assert(a.last() == b.last());
        assert forall|p: int| x.contains(p) <==> y.contains(p) by {
            if x.contains(p) {
                let i = choose|i: int| 0 <= i < x.len() && x[i] == p;
                assert(a[i] == p);
                assert(a.contains(p) && b.contains(p));
                let j = choose|j: int| 0 <= j < b.len() && b[j] == p;
                assert(y[j] == p);
            }
            if y.contains(p) {
                let j = choose|j: int| 0 <= j < y.len() && y[j] == p;
                assert(b[j] == p);
                assert(b.contains(p) && a.contains(p));
                let i = choose|i: int| 0 <= i < a.len() && a[i] == p;
                assert(x[i] == p);
            }
        }
        lemma_increasing_unique(x, y);
        assert(a =~= x.push(a.last()));
        assert(b =~= y.push(b.last()));
    }
}

/// Clamping brings a number to the nearest one in range: a number in range stays,
/// and no number in range is nearer to one outside.
pub proof fn clamping_goes_to_the_nearest(v: int, max: int, other: int)
    requires
        0 <= other <= max,
    ensures
        0 <= clamped(v, max) <= max,
        0 <= v <= max ==> clamped(v, max) == v,
        v < clamped(v, max) ==> clamped(v, max) <= other,
        clamped(v, max) < v ==> other <= clamped(v, max),
{
}

/// A window is a full rectangle: it holds exactly the tiles of its zoom between its
/// corners, edges included.
pub proof fn windows_are_rectangles(w: Window, t: Tile)
    ensures
        w.holds(t) <==> t.z == w.z && w.x0 <= t.x && t.x <= w.x1 && w.y0 <= t.y && t.y <= w.y1,
{
}

/// The distance by which tiles fill is the straight one: with a tile in the middle of
/// the window, four times the sum of the squared steps from it along both axes.
pub proof fn distances_are_straight(w: Window, centre: Tile, t: Tile)
    requires
        2 * centre.x == w.x0 + w.x1,
        2 * centre.y == w.y0 + w.y1,
    ensures
        w.off_centre(t) == 4 * ((t.x - centre.x) * (t.x - centre.x) + (t.y - centre.y) * (t.y
            - centre.y)),
        w.off_centre(centre) == 0,
        w.off_centre(t) == 0 ==> t.x == centre.x && t.y == centre.y,
{
    let (dx, dy) = (t.x - centre.x, t.y - centre.y);
    assert((2 * dx) * (2 * dx) == 4 * (dx * dx)) by (nonlinear_arith);
    assert((2 * dy) * (2 * dy) == 4 * (dy * dy)) by (nonlinear_arith);
    assert(2 * t.x - w.x0 - w.x1 == 2 * dx);
    assert(2 * t.y - w.y0 - w.y1 == 2 * dy);
    assert(0 * 0 == 0int) by (nonlinear_arith);
    assert(dx * dx >= 0 && dy * dy >= 0) by (nonlinear_arith);
    assert(dx * dx == 0 ==> dx == 0) by (nonlinear_arith);
    assert(dy * dy == 0 ==> dy == 0) by (nonlinear_arith);
}

/// Tiles that mirror each other in the middle of the window are as far from it.
pub proof fn distances_mirror(w: Window, a: Tile, b: Tile)
    requires
        a.x + b.x == w.x0 + w.x1,
        a.y == b.y || a.y + b.y == w.y0 + w.y1,
    ensures
        w.off_centre(a) == w.off_centre(b),
{
    let (dx, dy) = (2 * a.x - w.x0 - w.x1, 2 * a.y - w.y0 - w.y1);
    assert(dx * dx == (-dx) * (-dx)) by (nonlinear_arith);
    assert(dy * dy == (-dy) * (-dy)) by (nonlinear_arith);
    assert(2 * b.x - w.x0 - w.x1 == -dx);
}

/// Of two tiles the nearer to the middle fills first; of two as near the northern,
/// and in one row the western one.
pub proof fn nearer_tiles_fill_first(w: Window, a: Tile, b: Tile)
    ensures
        w.off_centre(a) < w.off_centre(b) ==> w.fills_before(a, b) && !w.fills_before(b, a),
        w.off_centre(a) == w.off_centre(b) && a.y < b.y ==> w.fills_before(a, b) && !w.fills_before(
            b,
            a,
        ),
        w.off_centre(a) == w.off_centre(b) && a.y == b.y ==> w.fills_before(a, b) == (a.x < b.x),
{
}

/// A position on the map falls in the tile of its own column and row, and one off the map
/// in the nearest; there are twice as many tiles per axis at each zoom.
pub proof fn positions_fall_in_their_tile(column: i64, row: i64, z: u8, t: Tile)
    requires
        z < 32,
        call_ensures(Tile::containing, (column, row, z), t),
    ensures
        t.z == z && t.x < pow2(z as nat) && t.y < pow2(z as nat),
        0 <= column < pow2(z as nat) ==> t.x == column,
        0 <= row < pow2(z as nat) ==> t.y == row,
        column < 0 ==> t.x == 0,
        row < 0 ==> t.y == 0,
        column >= pow2(z as nat) ==> t.x == pow2(z as nat) - 1,
        row >= pow2(z as nat) ==> t.y == pow2(z as nat) - 1,
{
    lemma_axis_fits(z);
}

/// The number of tiles per axis doubles with the zoom, from one.
pub proof fn each_zoom_doubles_the_tiles(z: u8, n: u32, m: u32)
    requires
        z < 31,
        call_ensures(Tile::count_per_axis, (z,), n),
        call_ensures(Tile::count_per_axis, ((z + 1) as u8,), m),
    ensures
        m == 2 * n,
        z == 0 ==> n == 1,
{
    vstd::arithmetic::power2::lemma_pow2_unfold((z + 1) as nat);
    vstd::arithmetic::power2::lemma2_to64();
}

/// Rows counted from the north and from the south add up to the last row.
pub proof fn rows_from_both_ends_add_up(t: Tile, row: u32, n: u32)
    requires
        t.valid(),
        call_ensures(Tile::tms_y, (t,), row),
        call_ensures(Tile::count_per_axis, (t.z,), n),
    ensures
        row + t.y == n - 1,
        row == t.flipped().y,
{
    lemma_axis_fits(t.z);
}

/// The zoom is the wanted one, within what the archive holds.
pub proof fn zooms_stay_in_the_archive(wanted: i64, maxz: u8, z: u8)
    requires
        call_ensures(slippy_zoom, (wanted, maxz), z),
    ensures
        z <= maxz,
        0 <= wanted <= maxz ==> z == wanted,
        wanted < 0 ==> z == 0,
        wanted > maxz ==> z == maxz,
{
}

/// A window over a viewport on the map holds exactly the tiles from the one corner's to the
/// other's.
pub proof fn windows_cover_the_viewport(
    z: u8,
    nw: (i64, i64),
    se: (i64, i64),
    w: Window,
    t: Tile,
)
    requires
        z < 32,
        call_ensures(visible_tiles, (z, nw, se), w),
        0 <= nw.0 <= se.0 < pow2(z as nat),
        0 <= nw.1 <= se.1 < pow2(z as nat),
    ensures
        w.holds(t) <==> t.z == z && nw.0 <= t.x <= se.0 && nw.1 <= t.y <= se.1,
{
    lemma_axis_fits(z);
}

/// A window's tiles come from its middle outwards, each once: no tile of the window is
/// nearer to the middle than one listed before it.
pub proof fn windows_fill_from_the_middle(w: &Window, want: Vec<Tile>, i: int, j: int)
    requires
        call_ensures(Window::centre_out, (w,), want),
        0 <= i < j < want.len(),
    ensures
        want@[i] != want@[j],
        w.holds(want@[i]) && w.holds(want@[j]),
        ({
            let (a, b) = (want@[i], want@[j]);
            let (ax, ay) = (2 * a.x - w.x0 - w.x1, 2 * a.y - w.y0 - w.y1);
            let (bx, by) = (2 * b.x - w.x0 - w.x1, 2 * b.y - w.y0 - w.y1);
            &&& ax * ax + ay * ay <= bx * bx + by * by
            &&& ax * ax + ay * ay == bx * bx + by * by ==> a.y < b.y || a.y == b.y && a.x < b.x
        }),
        forall|t: Tile|
            t.z == w.z && w.x0 <= t.x <= w.x1 && w.y0 <= t.y <= w.y1 ==> #[trigger] want@.contains(t),
{
    assert(want@.contains(want@[i]) && want@.contains(want@[j]));
}

/// A frame loads at most four tiles: the first that are missing, in order; another frame
/// follows exactly if more than four are.
pub proof fn frames_load_the_first_missing(cached: &Vec<bool>, plan: FramePlan, p: int)
    requires
        call_ensures(plan_frame, (cached,), plan),
        0 <= p < cached.len(),
        !cached@[p],
    ensures
        plan.load.len() <= 4,
        forall|i: int|
            0 <= i < plan.load.len() ==> (#[trigger] plan.load@[i]) < cached.len() && !cached@[plan.load@[i] as int],
        forall|i: int, j: int|
            0 <= i < j < plan.load.len() ==> #[trigger] plan.load@[i] < #[trigger] plan.load@[j],
        (exists|i: int| 0 <= i < plan.load.len() && #[trigger] plan.load@[i] == p) || {
            &&& plan.more && plan.load.len() == 4
            &&& forall|i: int| 0 <= i < plan.load.len() ==> #[trigger] plan.load@[i] < p
        },
        plan.more <==> missing(cached@).len() > 4,
{
    let m = missing(cached@);
    missing_is_exact(cached@);
    assert forall|i: int| 0 <= i < plan.load.len() implies (#[trigger] plan.load@[i]) < cached.len()
        && !cached@[plan.load@[i] as int] by {
        assert(m.contains(m[i]));
    }
    assert forall|i: int, j: int| 0 <= i < j < plan.load.len() implies #[trigger] plan.load@[i]
        < #[trigger] plan.load@[j] by {
        assert(m[i] < m[j]);
    }
    assert(m.contains(p));
    let k = choose|k: int| 0 <= k < m.len() && m[k] == p;
    if k < plan.load.len() {
        assert(plan.load@[k] == p);
    } else {
        assert forall|i: int| 0 <= i < plan.load.len() implies #[trigger] plan.load@[i] < p by {
            assert(m[i] < m[k]);
        }
    }
}

}

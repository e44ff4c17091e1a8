//! What a tile's features become on the map: stroked lines, filled polygons with
//! holes, place-name labels, and the water bodies that the panorama looks for.

use vstd::prelude::*;
use crate::mvt::{Feature, GeomKind, VectorTile};
use crate::text::same_text;

verus! {

/// The layers that are drawn: areas are filled underneath, lines stroked on top.
#[derive(Debug, Clone, Copy, PartialEq, Eq, Structural)]
pub enum Style {
    Woodland,
    Greenspaces,
    Surfacewater,
    Buildings,
    Roads,
    Waterlines,
    Contours,
}

/// The style of a layer by its name; `None` to skip it.
pub open spec fn styled(name: Seq<char>) -> Option<Style> {
    if name == "woodland"@ {
        Some(Style::Woodland)
    } else if name == "greenspaces"@ {
        Some(Style::Greenspaces)
    } else if name == "surfacewater"@ {
        Some(Style::Surfacewater)
    } else if name == "buildings"@ {
        Some(Style::Buildings)
    } else if name == "roads"@ {
        Some(Style::Roads)
    } else if name == "waterlines"@ {
        Some(Style::Waterlines)
    } else if name == "contours"@ {
        Some(Style::Contours)
    } else {
        None
    }
}

/// Per-layer style, or `None` to skip.
pub fn style(name: &str) -> (r: Option<Style>)
    ensures
        r == styled(name@),
{
    if same_text(name, "woodland") {
        Some(Style::Woodland)
    } else if same_text(name, "greenspaces") {
        Some(Style::Greenspaces)
    } else if same_text(name, "surfacewater") {
        Some(Style::Surfacewater)
    } else if same_text(name, "buildings") {
        Some(Style::Buildings)
    } else if same_text(name, "roads") {
        Some(Style::Roads)
    } else if same_text(name, "waterlines") {
        Some(Style::Waterlines)
    } else if same_text(name, "contours") {
        Some(Style::Contours)
    } else {
        None
    }
}

impl Style {
    pub open spec fn fills(self) -> bool {
        self is Woodland || self is Greenspaces || self is Surfacewater || self is Buildings
    }

    /// Whether the layer's polygons are filled (else its lines are stroked).
    pub fn is_fill(self) -> (r: bool)
        ensures
            r == self.fills(),
    {
        match self {
            Style::Woodland | Style::Greenspaces | Style::Surfacewater | Style::Buildings => true,
            Style::Roads | Style::Waterlines | Style::Contours => false,
        }
    }
}

/// A ring without its explicit closing vertex.
pub open spec fn opened(ring: Seq<(i32, i32)>) -> Seq<(i32, i32)> {
    if ring.len() >= 2 && ring.first() == ring.last() {
        ring.drop_last()
    } else {
        ring
    }
}

/// How many vertices a ring has without its explicit closing vertex.
pub fn open_ring(ring: &Vec<(i32, i32)>) -> (n: usize)
    ensures
        n == opened(ring@).len(),
        n <= ring.len(),
        ring@.take(n as int) == opened(ring@),
{
    if ring.len() >= 2 {
        let (ax, ay) = ring[0];
        let (bx, by) = ring[ring.len() - 1];
        if ax == bx && ay == by {
            proof {
                assert(ring@.take(ring.len() - 1) =~= ring@.drop_last());
            }
            return ring.len() - 1;
        }
    }
    proof {
        assert(ring@.take(ring.len() as int) =~= ring@);
    }
    ring.len()
}

/// The shoelace sum over the edges that leave the first `k` vertices.
pub open spec fn shoelace(ring: Seq<(i32, i32)>, k: int) -> int
    decreases k,
{
    if k <= 0 {
        0
    } else {
        let a = ring[k - 1];
        let b = ring[k % ring.len() as int];
        shoelace(ring, k - 1) + a.0 * b.1 - b.0 * a.1
    }
}

/// Twice the signed area of a ring in tile coordinates (y down): exterior rings
/// are clockwise and have a positive one.
pub open spec fn doubled_area(ring: Seq<(i32, i32)>) -> int {
    if ring.len() < 3 {
        0
    } else {
        shoelace(ring, ring.len() as int)
    }
}

proof fn lemma_product(x: i32, y: i32)
    ensures
        -0x4000_0000_0000_0000 <= x * y <= 0x4000_0000_0000_0000,
{
    assert(-0x4000_0000_0000_0000 <= x * y <= 0x4000_0000_0000_0000) by (nonlinear_arith)
        requires
            -0x8000_0000 <= x <= 0x8000_0000,
            -0x8000_0000 <= y <= 0x8000_0000,
    ;
}

/// Twice the signed area of the ring of the first `n` vertices.
pub fn signed_area(ring: &Vec<(i32, i32)>, n: usize) -> (a: i128)
    requires
        n <= ring.len(),
    ensures
        a == doubled_area(ring@.take(n as int)),
{
    let ghost r = ring@.take(n as int);
    if n < 3 {
        return 0;
    }
    let mut a: i128 = 0;
    let mut i: usize = 0;
    while i < n
        invariant
            3 <= n <= ring.len(),
            r == ring@.take(n as int),
            i <= n,
            a == shoelace(r, i as int),
            -0x8000_0000_0000_0000 * i <= a <= 0x8000_0000_0000_0000 * i,
        decreases n - i,
    {
        let j: usize = if i + 1 < n {
            i + 1
        } else {
            0
        };
        let (ax, ay) = ring[i];
        let (bx, by) = ring[j];
        proof {
            assert((i + 1) % (n as int) == j) by {
                if i + 1 < n {
                    vstd::arithmetic::div_mod::lemma_small_mod((i + 1) as nat, n as nat);
                } else {
                    vstd::arithmetic::div_mod::lemma_mod_self_0(n as int);
                }
            }
            assert(r[i as int] == (ax, ay) && r[j as int] == (bx, by));
            lemma_product(ax, by);
            lemma_product(bx, ay);
        }
        a = a + ax as i128 * by as i128 - bx as i128 * ay as i128;
        i = i + 1;
    }
    a
}

/// Rings with fewer vertices enclose nothing.
pub open spec fn usable(ring: Seq<(i32, i32)>) -> bool {
    opened(ring).len() >= 3
}

pub open spec fn exterior(ring: Seq<(i32, i32)>) -> bool {
    doubled_area(opened(ring)) > 0
}

/// The first `n` rings grouped into polygons, as positions: an exterior ring
/// starts a polygon, and the others are holes of the polygon before them (where
/// there is none they start one). Unusable rings are left out.
pub open spec fn grouped(parts: Seq<Vec<(i32, i32)>>, n: int) -> Seq<Seq<usize>>
    decreases n,
{
    if n <= 0 {
        Seq::empty()
    } else {
        let g = grouped(parts, n - 1);
        let ring = parts[n - 1]@;
        let at = (n - 1) as usize;
        if !usable(ring) {
            g
        } else if exterior(ring) || g.len() == 0 {
            g.push(seq![at])
        } else {
            g.drop_last().push(g.last().push(at))
        }
    }
}

pub open spec fn group_views(groups: Seq<Vec<usize>>) -> Seq<Seq<usize>> {
    groups.map_values(|g: Vec<usize>| g@)
}

/// Group a feature's rings into polygons.
pub fn group_rings(parts: &Vec<Vec<(i32, i32)>>) -> (groups: Vec<Vec<usize>>)
    ensures
        group_views(groups@) == grouped(parts@, parts.len() as int),
{
    let mut groups: Vec<Vec<usize>> = Vec::new();
    let mut i: usize = 0;
    proof {
        assert(group_views(groups@) =~= Seq::empty());
    }
    while i < parts.len()
        invariant
            i <= parts.len(),
            group_views(groups@) == grouped(parts@, i as int),
        decreases parts.len() - i,
    {
        let n = open_ring(&parts[i]);
        if n >= 3 {
            let ghost before = groups@;
            let outer = signed_area(&parts[i], n) > 0;
            if !outer && groups.len() > 0 {
                if let Some(last) = groups.pop() {
                    let mut g = last;
                    let ghost rest = groups@;
                    proof {
                        assert(group_views(before).last() == g@);
                        assert(group_views(rest) =~= group_views(before).drop_last());
                    }
                    g.push(i);
                    groups.push(g);
                    proof {
                        assert(group_views(groups@) =~= group_views(rest).push(
                            group_views(before).last().push(i),
                        ));
                    }
                }
            } else {
                let mut g: Vec<usize> = Vec::new();
                g.push(i);
                proof {
                    assert(g@ =~= seq![i]);
                }
                groups.push(g);
                proof {
                    assert(group_views(groups@) =~= group_views(before).push(seq![i]));
                }
            }
        }
        i = i + 1;
    }
    groups
}

/// The usable rings among the first `n`, in order.
pub open spec fn usable_rings(parts: Seq<Vec<(i32, i32)>>, n: int) -> Seq<usize>
    decreases n,
{
    if n <= 0 {
        Seq::empty()
    } else if usable(parts[n - 1]@) {
        usable_rings(parts, n - 1).push((n - 1) as usize)
    } else {
        usable_rings(parts, n - 1)
    }
}

/// All groups, one after the other.
pub open spec fn joined(groups: Seq<Seq<usize>>) -> Seq<usize>
    decreases groups.len(),
{
    if groups.len() == 0 {
        Seq::empty()
    } else {
        joined(groups.drop_last()) + groups.last()
    }
}

/// Grouping loses no usable ring, repeats none and keeps their order.
pub proof fn grouping_keeps_rings(parts: Seq<Vec<(i32, i32)>>, n: int)
    requires
        0 <= n,
    ensures
        joined(grouped(parts, n)) == usable_rings(parts, n),
    decreases n,
{
    if n > 0 {
        grouping_keeps_rings(parts, n - 1);
        let g = grouped(parts, n - 1);
        let ring = parts[n - 1]@;
        let at = (n - 1) as usize;
        if usable(ring) {
            if exterior(ring) || g.len() == 0 {
                assert(g.push(seq![at]).drop_last() =~= g);
                assert(joined(g) + seq![at] =~= joined(g).push(at));
            } else {
                let h = g.drop_last().push(g.last().push(at));
                assert(h.drop_last() =~= g.drop_last());
                assert(joined(g.drop_last()) + g.last().push(at) =~= (joined(g.drop_last())
                    + g.last()).push(at));
            }
        }
    }
}

/// In every polygon all rings but the first are holes, and the first is an
/// exterior one in every polygon but perhaps the first.
pub proof fn groups_start_with_exterior(parts: Seq<Vec<(i32, i32)>>, n: int, k: int)
    requires
        0 <= n <= parts.len() <= usize::MAX,
        0 <= k < grouped(parts, n).len(),
    ensures
        grouped(parts, n)[k].len() > 0,
        k > 0 ==> exterior(parts[grouped(parts, n)[k][0] as int]@),
        forall|i: int|
            0 < i < grouped(parts, n)[k].len() ==> !exterior(
                parts[#[trigger] grouped(parts, n)[k][i] as int]@,
            ),
    decreases n,
{
    let g = grouped(parts, n - 1);
    let ring = parts[n - 1]@;
    if k < g.len() {
        groups_start_with_exterior(parts, n - 1, k);
    }
    if usable(ring) && !(exterior(ring) || g.len() == 0) && k == g.len() - 1 {
        let last = g.last();
        assert(grouped(parts, n)[k] == last.push((n - 1) as usize));
        assert forall|i: int| 0 < i < grouped(parts, n)[k].len() implies !exterior(
            parts[#[trigger] grouped(parts, n)[k][i] as int]@,
        ) by {
            if i < last.len() {
                assert(grouped(parts, n)[k][i] == last[i]);
            }
        }
    }
}

/// A polygon's vertices, ring after ring, and where its holes begin.
#[derive(Debug)]
pub struct Flat {
    pub points: Vec<(i32, i32)>,
    pub holes: Vec<usize>,
}

/// The vertices of the first `n` rings of a polygon, ring after ring.
pub open spec fn flat_points(
    parts: Seq<Vec<(i32, i32)>>,
    poly: Seq<usize>,
    n: int,
) -> Seq<(i32, i32)>
    decreases n,
{
    if n <= 0 {
        Seq::empty()
    } else {
        flat_points(parts, poly, n - 1) + opened(parts[poly[n - 1] as int]@)
    }
}

/// Where the rings after the first begin among those vertices.
pub open spec fn flat_holes(parts: Seq<Vec<(i32, i32)>>, poly: Seq<usize>, n: int) -> Seq<usize>
    decreases n,
{
    if n <= 1 {
        Seq::empty()
    } else {
        flat_holes(parts, poly, n - 1).push(flat_points(parts, poly, n - 1).len() as usize)
    }
}

proof fn lemma_flat_prefix(
    parts: Seq<Vec<(i32, i32)>>,
    poly: Seq<usize>,
    k: int,
    n: int,
)
    requires
        0 <= k <= n,
    ensures
        flat_points(parts, poly, k).len() <= flat_points(parts, poly, n).len(),
        flat_points(parts, poly, n).take(flat_points(parts, poly, k).len() as int) == flat_points(
            parts,
            poly,
            k,
        ),
    decreases n - k,
{
    let a = flat_points(parts, poly, k);
    if k < n {
        lemma_flat_prefix(parts, poly, k, n - 1);
        let b = flat_points(parts, poly, n - 1);
        assert(flat_points(parts, poly, n).take(a.len() as int) =~= b.take(a.len() as int));
    } else {
        assert(a.take(a.len() as int) =~= a);
    }
}

proof fn lemma_flat_holes(parts: Seq<Vec<(i32, i32)>>, poly: Seq<usize>, n: int, k: int)
    requires
        0 < k < n,
    ensures
        flat_holes(parts, poly, n).len() == n - 1,
        flat_holes(parts, poly, n)[k - 1] == flat_points(parts, poly, k).len() as usize,
    decreases n,
{
    if k < n - 1 {
        lemma_flat_holes(parts, poly, n - 1, k);
    } else if n > 2 {
        lemma_flat_holes(parts, poly, n - 1, k - 1);
    } else {
        assert(flat_holes(parts, poly, 1).len() == 0);
    }
}

/// Nothing of a polygon is lost when it is laid out: ring `k` stands where ring
/// `k - 1` ends, the first at the start, and the holes' list says where.
pub proof fn holes_mark_rings(parts: Seq<Vec<(i32, i32)>>, poly: Seq<usize>, k: int)
    requires
        0 <= k < poly.len(),
        flat_points(parts, poly, poly.len() as int).len() <= usize::MAX,
    ensures
        flat_holes(parts, poly, poly.len() as int).len() == poly.len() - 1,
        ({
            let points = flat_points(parts, poly, poly.len() as int);
            let holes = flat_holes(parts, poly, poly.len() as int);
            let from = if k == 0 {
                0
            } else {
                holes[k - 1] as int
            };
            let to = if k + 1 < poly.len() {
                holes[k] as int
            } else {
                points.len() as int
            };
            &&& 0 <= from <= to <= points.len()
            &&& points.subrange(from, to) == opened(parts[poly[k] as int]@)
        }),
{
    let n = poly.len() as int;
    let points = flat_points(parts, poly, n);
    let a = flat_points(parts, poly, k);
    let b = flat_points(parts, poly, k + 1);
    lemma_flat_prefix(parts, poly, k, n);
    lemma_flat_prefix(parts, poly, k + 1, n);
    if k > 0 {
        lemma_flat_holes(parts, poly, n, k);
    }
    if k + 1 < n {
        lemma_flat_holes(parts, poly, n, k + 1);
    }
    assert(b =~= a + opened(parts[poly[k] as int]@));
    assert(points.subrange(a.len() as int, b.len() as int) =~= opened(parts[poly[k] as int]@)) by {
        assert(points.take(b.len() as int) =~= b);
        assert forall|i: int| a.len() <= i < b.len() implies points[i] == b[i] by {
            assert(points.take(b.len() as int)[i] == points[i]);
        }
    }
}

/// Lay a polygon's rings out for triangulation.
pub fn flatten(parts: &Vec<Vec<(i32, i32)>>, poly: &Vec<usize>) -> (f: Flat)
    requires
        forall|k: int| 0 <= k < poly.len() ==> #[trigger] poly@[k] < parts.len(),
    ensures
        f.points@ == flat_points(parts@, poly@, poly.len() as int),
        f.holes@ == flat_holes(parts@, poly@, poly.len() as int),
{
    let mut points: Vec<(i32, i32)> = Vec::new();
    let mut holes: Vec<usize> = Vec::new();
    let mut k: usize = 0;
    while k < poly.len()
        invariant
            k <= poly.len(),
            forall|i: int| 0 <= i < poly.len() ==> #[trigger] poly@[i] < parts.len(),
            points@ == flat_points(parts@, poly@, k as int),
            holes@ == flat_holes(parts@, poly@, k as int),
        decreases poly.len() - k,
    {
        if k > 0 {
            holes.push(points.len());
        }
        let ring = &parts[poly[k]];
        let n = open_ring(ring);
        let ghost before = points@;
        let mut i: usize = 0;
        proof {
            assert(before + ring@.take(0) =~= before);
        }
        while i < n
            invariant
                i <= n <= ring.len(),
                points@ == before + ring@.take(i as int),
            decreases n - i,
        {
            points.push(ring[i]);
            i = i + 1;
            proof {
                assert(points@ =~= before + ring@.take(i as int));
            }
        }
        k = k + 1;
    }
    Flat { points, holes }
}

/// A part of a feature to stroke.
#[derive(Debug, Clone, Copy, PartialEq, Eq, Structural)]
pub struct Stroke {
    pub style: Style,
    pub layer: usize,
    pub feature: usize,
    pub part: usize,
}

/// The style in which a layer is drawn, if it is: roads only when they are shown.
pub open spec fn drawn_style(name: Seq<char>, show_roads: bool) -> Option<Style> {
    match styled(name) {
        Some(s) => if s is Roads && !show_roads {
            None
        } else {
            Some(s)
        },
        None => None,
    }
}

/// The strokes of a feature's first `n` parts: points are not stroked, nor is a
/// part with a single vertex.
pub open spec fn part_strokes(
    f: Feature,
    style: Style,
    layer: usize,
    feature: usize,
    n: int,
) -> Seq<Stroke>
    decreases n,
{
    if n <= 0 {
        Seq::empty()
    } else {
        let before = part_strokes(f, style, layer, feature, n - 1);
        if f.kind != GeomKind::Point && f.parts@[n - 1].len() >= 2 {
            before.push(Stroke { style, layer, feature, part: (n - 1) as usize })
        } else {
            before
        }
    }
}

/// The strokes of a layer's first `n` features.
pub open spec fn feature_strokes(
    features: Seq<Feature>,
    style: Style,
    layer: usize,
    n: int,
) -> Seq<Stroke>
    decreases n,
{
    if n <= 0 {
        Seq::empty()
    } else {
        let f = features[n - 1];
        feature_strokes(features, style, layer, n - 1) + part_strokes(
            f,
            style,
            layer,
            (n - 1) as usize,
            f.parts.len() as int,
        )
    }
}

/// The strokes of the tile's first `n` layers.
pub open spec fn layer_strokes(vt: VectorTile, show_roads: bool, n: int) -> Seq<Stroke>
    decreases n,
{
    if n <= 0 {
        Seq::empty()
    } else {
        let before = layer_strokes(vt, show_roads, n - 1);
        let l = vt.layers@[n - 1];
        match drawn_style(l.name@, show_roads) {
            Some(s) => if s.fills() {
                before
            } else {
                before + feature_strokes(
                    l.features@,
                    s,
                    (n - 1) as usize,
                    l.features.len() as int,
                )
            },
            None => before,
        }
    }
}

/// The lines of a tile to stroke, in drawing order.
pub fn strokes(vt: &VectorTile, show_roads: bool) -> (out: Vec<Stroke>)
    ensures
        out@ == layer_strokes(*vt, show_roads, vt.layers.len() as int),
{
    let mut out: Vec<Stroke> = Vec::new();
    let mut i: usize = 0;
    while i < vt.layers.len()
        invariant
            i <= vt.layers.len(),
            out@ == layer_strokes(*vt, show_roads, i as int),
        decreases vt.layers.len() - i,
    {
        let l = &vt.layers[i];
        if let Some(s) = style(l.name.as_str()) {
            if !s.is_fill() && (show_roads || s != Style::Roads) {
                let ghost before = out@;
                let mut j: usize = 0;
                proof {
                    assert(before + Seq::<Stroke>::empty() =~= before);
                }
                while j < l.features.len()
                    invariant
                        i < vt.layers.len(),
                        *l == vt.layers@[i as int],
                        j <= l.features.len(),
                        out@ == before + feature_strokes(l.features@, s, i, j as int),
                    decreases l.features.len() - j,
                {
                    let f = &l.features[j];
                    let ghost here = out@;
                    let mut k: usize = 0;
                    proof {
                        assert(here + Seq::<Stroke>::empty() =~= here);
                    }
                    while k < f.parts.len()
                        invariant
                            k <= f.parts.len(),
                            out@ == here + part_strokes(*f, s, i, j, k as int),
                        decreases f.parts.len() - k,
                    {
                        if f.kind != GeomKind::Point && f.parts[k].len() >= 2 {
                            out.push(Stroke { style: s, layer: i, feature: j, part: k });
                        }
                        k = k + 1;
                        proof {
                            assert(out@ =~= here + part_strokes(*f, s, i, j, k as int));
                        }
                    }
                    j = j + 1;
                    proof {
                        assert(out@ =~= before + feature_strokes(l.features@, s, i, j as int));
                    }
                }
            }
        }
        i = i + 1;
    }
    out
}

/// A feature whose polygons are filled.
#[derive(Debug, Clone, Copy, PartialEq, Eq, Structural)]
pub struct FillArea {
    pub style: Style,
    pub layer: usize,
    pub feature: usize,
}

/// The polygon features among a layer's first `n`.
pub open spec fn feature_fills(
    features: Seq<Feature>,
    style: Style,
    layer: usize,
    n: int,
) -> Seq<FillArea>
    decreases n,
{
    if n <= 0 {
        Seq::empty()
    } else {
        let before = feature_fills(features, style, layer, n - 1);
        if features[n - 1].kind == GeomKind::Polygon {
            before.push(FillArea { style, layer, feature: (n - 1) as usize })
        } else {
            before
        }
    }
}

/// The polygon features of the tile's first `n` layers that are filled.
pub open spec fn layer_fills(vt: VectorTile, n: int) -> Seq<FillArea>
    decreases n,
{
    if n <= 0 {
        Seq::empty()
    } else {
        let before = layer_fills(vt, n - 1);
        let l = vt.layers@[n - 1];
        match styled(l.name@) {
            Some(s) => if s.fills() {
                before + feature_fills(l.features@, s, (n - 1) as usize, l.features.len() as int)
            } else {
                before
            },
            None => before,
        }
    }
}

/// The features of a tile whose polygons are filled, in drawing order.
pub fn fills(vt: &VectorTile) -> (out: Vec<FillArea>)
    ensures
        out@ == layer_fills(*vt, vt.layers.len() as int),
{
    let mut out: Vec<FillArea> = Vec::new();
    let mut i: usize = 0;
    while i < vt.layers.len()
        invariant
            i <= vt.layers.len(),
            out@ == layer_fills(*vt, i as int),
        decreases vt.layers.len() - i,
    {
        let l = &vt.layers[i];
        if let Some(s) = style(l.name.as_str()) {
            if s.is_fill() {
                let ghost before = out@;
                let mut j: usize = 0;
                proof {
                    assert(before + Seq::<FillArea>::empty() =~= before);
                }
                while j < l.features.len()
                    invariant
                        j <= l.features.len(),
                        out@ == before + feature_fills(l.features@, s, i, j as int),
                    decreases l.features.len() - j,
                {
                    if l.features[j].kind == GeomKind::Polygon {
                        out.push(FillArea { style: s, layer: i, feature: j });
                    }
                    j = j + 1;
                    proof {
                        assert(out@ =~= before + feature_fills(l.features@, s, i, j as int));
                    }
                }
            }
        }
        i = i + 1;
    }
    out
}

/// A place name: its text, its settlement type and the point it labels.
#[derive(Debug)]
pub struct PlaceName {
    pub name: String,
    pub kind: String,
    pub at: (i32, i32),
}

pub struct PlaceNameView {
    pub name: Seq<char>,
    pub kind: Seq<char>,
    pub at: (i32, i32),
}

impl View for PlaceName {
    type V = PlaceNameView;

    open spec fn view(&self) -> PlaceNameView {
        PlaceNameView { name: self.name@, kind: self.kind@, at: self.at }
    }
}

pub open spec fn place_views(places: Seq<PlaceName>) -> Seq<PlaceNameView> {
    places.map_values(|p: PlaceName| p@)
}

pub open spec fn attr_of(f: Feature, key: Seq<char>) -> Option<Seq<char>> {
    crate::mvt::attr_in(crate::mvt::attr_views(f.attrs@), key, 0)
}

/// The label of a feature of the names layer: point features that have a name
/// and a point.
pub open spec fn place_of(f: Feature) -> Option<PlaceNameView> {
    if f.kind != GeomKind::Point || f.parts.len() == 0 || f.parts@[0].len() == 0 {
        None
    } else {
        match attr_of(f, "name1"@) {
            None => None,
            Some(name) => Some(
                PlaceNameView {
                    name,
                    kind: match attr_of(f, "type"@) {
                        Some(kind) => kind,
                        None => Seq::empty(),
                    },
                    at: f.parts@[0]@[0],
                },
            ),
        }
    }
}

/// The labels of the first `n` features.
pub open spec fn places_of(features: Seq<Feature>, n: int) -> Seq<PlaceNameView>
    decreases n,
{
    if n <= 0 {
        Seq::empty()
    } else {
        match place_of(features[n - 1]) {
            Some(p) => places_of(features, n - 1).push(p),
            None => places_of(features, n - 1),
        }
    }
}

/// The place-name labels of a tile, from the point features of its names layer.
pub fn place_names(vt: &VectorTile) -> (out: Vec<PlaceName>)
    ensures
        place_views(out@) == match vt.layer_named("names"@, 0) {
            Some(i) => places_of(vt.layers@[i].features@, vt.layers@[i].features.len() as int),
            None => Seq::empty(),
        },
{
    let mut out: Vec<PlaceName> = Vec::new();
    proof {
        assert(place_views(out@) =~= Seq::empty());
    }
    if let Some(i) = vt.layer("names") {
        let l = &vt.layers[i];
        let mut j: usize = 0;
        while j < l.features.len()
            invariant
                j <= l.features.len(),
                place_views(out@) == places_of(l.features@, j as int),
            decreases l.features.len() - j,
        {
            let f = &l.features[j];
            let ghost before = out@;
            if f.kind == GeomKind::Point && f.parts.len() > 0 && f.parts[0].len() > 0 {
                if let Some(name) = f.attr("name1") {
                    let kind = match f.attr("type") {
                        Some(k) => k.to_owned(),
                        None => String::new(),
                    };
                    let p = PlaceName { name: name.to_owned(), kind, at: f.parts[0][0] };
                    proof {
                        assert(Some(p@) == place_of(*f));
                    }
                    out.push(p);
                    proof {
                        assert(place_views(out@) =~= place_views(before).push(p@));
                    }
                }
            }
            j = j + 1;
        }
    }
    out
}

/// The parts, as (feature, part) positions, among the first `n` of a feature
/// that is of the wanted kind and whose parts are long enough.
pub open spec fn long_parts(
    f: Feature,
    feature: usize,
    kind: GeomKind,
    least: nat,
    n: int,
) -> Seq<(usize, usize)>
    decreases n,
{
    if n <= 0 {
        Seq::empty()
    } else {
        let before = long_parts(f, feature, kind, least, n - 1);
        if f.kind == kind && f.parts@[n - 1].len() >= least {
            before.push((feature, (n - 1) as usize))
        } else {
            before
        }
    }
}

/// The same over a layer's first `n` features.
pub open spec fn parts_of_kind(
    features: Seq<Feature>,
    kind: GeomKind,
    least: nat,
    n: int,
) -> Seq<(usize, usize)>
    decreases n,
{
    if n <= 0 {
        Seq::empty()
    } else {
        let f = features[n - 1];
        parts_of_kind(features, kind, least, n - 1) + long_parts(
            f,
            (n - 1) as usize,
            kind,
            least,
            f.parts.len() as int,
        )
    }
}

/// The parts of a layer's features of a kind that have at least `least`
/// vertices.
pub open spec fn layer_parts(vt: VectorTile, name: Seq<char>, kind: GeomKind, least: nat) -> Seq<
    (usize, usize),
> {
    match vt.layer_named(name, 0) {
        Some(i) => parts_of_kind(
            vt.layers@[i].features@,
            kind,
            least,
            vt.layers@[i].features.len() as int,
        ),
        None => Seq::empty(),
    }
}

fn find_parts(vt: &VectorTile, name: &str, kind: GeomKind, least: usize) -> (out: Vec<
    (usize, usize),
>)
    ensures
        out@ == layer_parts(*vt, name@, kind, least as nat),
{
    let mut out: Vec<(usize, usize)> = Vec::new();
    if let Some(i) = vt.layer(name) {
        let l = &vt.layers[i];
        let mut j: usize = 0;
        while j < l.features.len()
            invariant
                j <= l.features.len(),
                out@ == parts_of_kind(l.features@, kind, least as nat, j as int),
            decreases l.features.len() - j,
        {
            let f = &l.features[j];
            let ghost here = out@;
            let mut k: usize = 0;
            proof {
                assert(here + Seq::<(usize, usize)>::empty() =~= here);
            }
            while k < f.parts.len()
                invariant
                    k <= f.parts.len(),
                    out@ == here + long_parts(*f, j, kind, least as nat, k as int),
                decreases f.parts.len() - k,
            {
                if f.kind == kind && f.parts[k].len() >= least {
                    out.push((j, k));
                }
                k = k + 1;
                proof {
                    assert(out@ =~= here + long_parts(*f, j, kind, least as nat, k as int));
                }
            }
            j = j + 1;
        }
    }
    out
}

/// The rings of a tile's lakes, as (feature, part) positions in its surface
/// water layer.
pub fn lake_rings(vt: &VectorTile) -> (out: Vec<(usize, usize)>)
    ensures
        out@ == layer_parts(*vt, "surfacewater"@, GeomKind::Polygon, 4),
{
    find_parts(vt, "surfacewater", GeomKind::Polygon, 4)
}

/// The centrelines of a tile's rivers, as (feature, part) positions in its
/// waterlines layer.
pub fn river_lines(vt: &VectorTile) -> (out: Vec<(usize, usize)>)
    ensures
        out@ == layer_parts(*vt, "waterlines"@, GeomKind::Line, 2),
{
    find_parts(vt, "waterlines", GeomKind::Line, 2)
}

/// The cross product of two vertices taken as vectors.
pub open spec fn cross(a: (i32, i32), b: (i32, i32)) -> int {
    a.0 * b.1 - b.0 * a.1
}

/// Twice the signed area of a triangle, from two of its sides.
pub open spec fn triangle(a: (i32, i32), b: (i32, i32), c: (i32, i32)) -> int {
    (b.0 - a.0) * (c.1 - a.1) - (c.0 - a.0) * (b.1 - a.1)
}

/// The cross products along the first `k` edges of an open line.
spec fn along(line: Seq<(i32, i32)>, k: int) -> int
    decreases k,
{
    if k <= 0 {
        0
    } else {
        along(line, k - 1) + cross(line[k - 1], line[k])
    }
}

proof fn lemma_along(ring: Seq<(i32, i32)>, k: int)
    requires
        0 <= k < ring.len(),
    ensures
        shoelace(ring, k) == along(ring, k),
    decreases k,
{
    if k > 0 {
        lemma_along(ring, k - 1);
        vstd::arithmetic::div_mod::lemma_small_mod(k as nat, ring.len());
    }
}

proof fn lemma_area_closes(ring: Seq<(i32, i32)>)
    requires
        ring.len() >= 3,
    ensures
        doubled_area(ring) == along(ring, ring.len() - 1) + cross(ring.last(), ring.first()),
{
    let n = ring.len() as int;
    lemma_along(ring, n - 1);
    vstd::arithmetic::div_mod::lemma_mod_self_0(n);
}

proof fn lemma_same_line(a: Seq<(i32, i32)>, b: Seq<(i32, i32)>, k: int)
    requires
        0 <= k < a.len(),
        k < b.len(),
        forall|i: int| 0 <= i <= k ==> a[i] == #[trigger] b[i],
    ensures
        along(a, k) == along(b, k),
    decreases k,
{
    if k > 0 {
        lemma_same_line(a, b, k - 1);
        assert(a[k] == b[k] && a[k - 1] == b[k - 1]);
    }
}

/// A triangle's doubled area is the cross product of two of its sides.
pub proof fn area_of_a_triangle(a: (i32, i32), b: (i32, i32), c: (i32, i32))
    ensures
        doubled_area(seq![a, b, c]) == triangle(a, b, c),
{
    let ring = seq![a, b, c];
    lemma_area_closes(ring);
    reveal_with_fuel(along, 3);
    assert(along(ring, 2) == cross(a, b) + cross(b, c));
    assert(triangle(a, b, c) == cross(a, b) + cross(b, c) + cross(c, a)) by {
        lemma_triangle(a, b, c);
    }
}

proof fn lemma_triangle(a: (i32, i32), b: (i32, i32), c: (i32, i32))
    ensures
        triangle(a, b, c) == cross(a, b) + cross(b, c) + cross(c, a),
{
    let (ax, ay, bx, by, cx, cy) = (
        a.0 as int,
        a.1 as int,
        b.0 as int,
        b.1 as int,
        c.0 as int,
        c.1 as int,
    );
    assert((bx - ax) * (cy - ay) - (cx - ax) * (by - ay) == (ax * by - bx * ay) + (bx * cy - cx * by)
        + (cx * ay - ax * cy)) by (nonlinear_arith);
}

/// One more vertex adds the triangle that it makes with the ring's last edge.
/// With [`area_of_a_triangle`] this gives the area of every ring.
pub proof fn area_grows_by_a_triangle(ring: Seq<(i32, i32)>, p: (i32, i32))
    requires
        ring.len() >= 3,
    ensures
        doubled_area(ring.push(p)) == doubled_area(ring) + triangle(ring.last(), p, ring.first()),
{
    let n = ring.len() as int;
    let more = ring.push(p);
    lemma_area_closes(ring);
    lemma_area_closes(more);
    lemma_same_line(more, ring, n - 1);
    assert(more[n] == p && more[n - 1] == ring.last() && more.first() == ring.first());
    lemma_triangle(ring.last(), p, ring.first());
    let (a, b) = (ring.last(), ring.first());
    assert(cross(a, b) == -cross(b, a)) by {
        lemma_cross_turns(a, b);
    }
}

proof fn lemma_cross_turns(a: (i32, i32), b: (i32, i32))
    ensures
        cross(a, b) == -cross(b, a),
{
}

/// A ring's area does not depend on the vertex it starts with.
pub proof fn area_ignores_the_start(ring: Seq<(i32, i32)>)
    requires
        ring.len() > 0,
    ensures
        doubled_area(ring.drop_first().push(ring.first())) == doubled_area(ring),
{
    let turned = ring.drop_first().push(ring.first());
    if ring.len() >= 3 {
        let n = ring.len() as int;
        lemma_area_closes(ring);
        lemma_area_closes(turned);
        lemma_turned(ring, turned, n - 2);
        assert(turned[n - 2] == ring[n - 1] && turned[n - 1] == ring[0] && turned[0] == ring[1]);
    }
}

proof fn lemma_turned(ring: Seq<(i32, i32)>, turned: Seq<(i32, i32)>, k: int)
    requires
        ring.len() >= 3,
        turned == ring.drop_first().push(ring.first()),
        0 <= k <= ring.len() - 2,
    ensures
        along(turned, k) == along(ring, k + 1) - cross(ring[0], ring[1]),
    decreases k,
{
    if k > 0 {
        lemma_turned(ring, turned, k - 1);
        assert(turned[k - 1] == ring[k] && turned[k] == ring[k + 1]);
    } else {
        reveal_with_fuel(along, 2);
    }
}

/// Moving a ring as a whole leaves its area as it is.
pub proof fn area_ignores_the_place(
    ring: Seq<(i32, i32)>,
    moved: Seq<(i32, i32)>,
    dx: int,
    dy: int,
)
    requires
        moved.len() == ring.len(),
        forall|i: int|
            0 <= i < ring.len() ==> (#[trigger] moved[i]).0 == ring[i].0 + dx && moved[i].1
                == ring[i].1 + dy,
    ensures
        doubled_area(moved) == doubled_area(ring),
{
    if ring.len() >= 3 {
        let n = ring.len() as int;
        lemma_area_closes(ring);
        lemma_area_closes(moved);
        lemma_moved(ring, moved, dx, dy, n - 1);
        lemma_moved_edge(ring[n - 1], ring[0], moved[n - 1], moved[0], dx, dy);
        let (a, b) = (ring[n - 1], ring[0]);
        assert(dx * (a.1 - b.1) + dx * (b.1 - a.1) == 0 && dy * (a.0 - b.0) + dy * (b.0 - a.0) == 0)
            by (nonlinear_arith);
    }
}

proof fn lemma_moved_edge(
    a: (i32, i32),
    b: (i32, i32),
    c: (i32, i32),
    d: (i32, i32),
    dx: int,
    dy: int,
)
    requires
        c.0 == a.0 + dx && c.1 == a.1 + dy,
        d.0 == b.0 + dx && d.1 == b.1 + dy,
    ensures
        cross(c, d) == cross(a, b) + dx * (b.1 - a.1) - dy * (b.0 - a.0),
{
    let (ax, ay, bx, by) = (a.0 as int, a.1 as int, b.0 as int, b.1 as int);
    assert((ax + dx) * (by + dy) - (bx + dx) * (ay + dy) == (ax * by - bx * ay) + dx * (by - ay) - dy
        * (bx - ax)) by (nonlinear_arith);
}

proof fn lemma_moved(
    ring: Seq<(i32, i32)>,
    moved: Seq<(i32, i32)>,
    dx: int,
    dy: int,
    k: int,
)
    requires
        moved.len() == ring.len(),
        0 <= k < ring.len(),
        forall|i: int|
            0 <= i < ring.len() ==> (#[trigger] moved[i]).0 == ring[i].0 + dx && moved[i].1
                == ring[i].1 + dy,
    ensures
        along(moved, k) == along(ring, k) + dx * (ring[k].1 - ring[0].1) - dy * (ring[k].0
            - ring[0].0),
    decreases k,
{
    if k > 0 {
        lemma_moved(ring, moved, dx, dy, k - 1);
        lemma_moved_edge(ring[k - 1], ring[k], moved[k - 1], moved[k], dx, dy);
        let (o, a, b) = (ring[0], ring[k - 1], ring[k]);
        assert(dx * (a.1 - o.1) + dx * (b.1 - a.1) == dx * (b.1 - o.1) && dy * (a.0 - o.0) + dy * (b.0
            - a.0) == dy * (b.0 - o.0)) by (nonlinear_arith);
    } else {
        assert(dx * (ring[0].1 - ring[0].1) == 0 && dy * (ring[0].0 - ring[0].0) == 0)
            by (nonlinear_arith);
    }
}

/// Walking a ring the other way round negates its area.
pub proof fn area_turns_with_the_ring(ring: Seq<(i32, i32)>)
    ensures
        doubled_area(ring.reverse()) == -doubled_area(ring),
{
    let back = ring.reverse();
    if ring.len() >= 3 {
        let n = ring.len() as int;
        lemma_area_closes(ring);
        lemma_area_closes(back);
        lemma_reversed(ring, back, n - 1);
        assert(back[n - 1] == ring[0] && back[0] == ring[n - 1]);
        lemma_cross_turns(ring[0], ring[n - 1]);
    }
}

proof fn lemma_reversed(ring: Seq<(i32, i32)>, back: Seq<(i32, i32)>, k: int)
    requires
        back == ring.reverse(),
        0 <= k < ring.len(),
    ensures
        along(back, k) == along(ring, ring.len() - 1 - k) - along(ring, ring.len() - 1),
    decreases k,
{
    if k > 0 {
        let n = ring.len() as int;
        lemma_reversed(ring, back, k - 1);
        assert(back[k - 1] == ring[n - k] && back[k] == ring[n - 1 - k]);
        lemma_cross_turns(ring[n - k], ring[n - 1 - k]);
    }
}

/// Seven layers are drawn, each by its own name; every other name is skipped. Only
/// the areas among them are filled.
pub proof fn layers_are_drawn_by_name(name: Seq<char>)
    ensures
        styled(name) == Some(Style::Woodland) <==> name == "woodland"@,
        styled(name) == Some(Style::Greenspaces) <==> name == "greenspaces"@,
        styled(name) == Some(Style::Surfacewater) <==> name == "surfacewater"@,
        styled(name) == Some(Style::Buildings) <==> name == "buildings"@,
        styled(name) == Some(Style::Roads) <==> name == "roads"@,
        styled(name) == Some(Style::Waterlines) <==> name == "waterlines"@,
        styled(name) == Some(Style::Contours) <==> name == "contours"@,
        Style::Woodland.fills() && Style::Greenspaces.fills() && Style::Surfacewater.fills(),
        Style::Buildings.fills(),
        !Style::Roads.fills() && !Style::Waterlines.fills() && !Style::Contours.fills(),
{
    reveal_strlit("woodland");
    reveal_strlit("greenspaces");
    reveal_strlit("surfacewater");
    reveal_strlit("buildings");
    reveal_strlit("roads");
    reveal_strlit("waterlines");
    reveal_strlit("contours");
    assert("woodland"@.len() == 8 && "contours"@.len() == 8 && "buildings"@.len() == 9);
    assert("greenspaces"@.len() == 11 && "surfacewater"@.len() == 12);
    assert("roads"@.len() == 5 && "waterlines"@.len() == 10);
    assert("woodland"@[0] != "contours"@[0]);
}

/// Opening a ring undoes closing it, and a ring that does not end where it starts
/// is left as it is.
pub proof fn opening_undoes_closing(ring: Seq<(i32, i32)>)
    requires
        ring.len() > 0,
    ensures
        opened(ring.push(ring[0])) == ring,
        ring.len() == 1 || ring[ring.len() - 1] != ring[0] ==> opened(ring) == ring,
{
    assert(ring.push(ring[0]).drop_last() =~= ring);
}

/// A ring is used exactly if it has three vertices or more, not counting one that
/// closes it; it starts a polygon of its own where its signed area is positive.
pub proof fn rings_enclose_an_area(ring: Seq<(i32, i32)>)
    requires
        ring.len() > 0,
        ring.len() == 1 || ring[ring.len() - 1] != ring[0],
    ensures
        usable(ring) <==> ring.len() >= 3,
        usable(ring.push(ring[0])) <==> ring.len() >= 3,
        exterior(ring) <==> doubled_area(ring) > 0,
        exterior(ring.push(ring[0])) <==> doubled_area(ring) > 0,
{
    opening_undoes_closing(ring);
}

/// A ring that turns the other way changes from exterior to hole.
pub proof fn turning_a_ring_swaps_inside_and_outside(ring: Seq<(i32, i32)>)
    requires
        ring.len() > 0,
        ring.len() == 1 || ring[ring.len() - 1] != ring[0],
        exterior(ring),
    ensures
        !exterior(ring.reverse()),
{
    area_turns_with_the_ring(ring);
    assert(ring.reverse()[0] == ring[ring.len() - 1]);
    assert(ring.reverse()[ring.len() - 1] == ring[0]);
    opening_undoes_closing(ring);
    opening_undoes_closing(ring.reverse());
}

/// The rings that go into polygons are those with three vertices or more, each
/// once and in order.
pub proof fn usable_rings_are_kept_in_order(parts: Seq<Vec<(i32, i32)>>, n: int)
    requires
        0 <= n <= parts.len() <= usize::MAX,
    ensures
        forall|i: usize| #[trigger]
            usable_rings(parts, n).contains(i) <==> i < n && opened(parts[i as int]@).len() >= 3,
        forall|a: int, b: int|
            0 <= a < b < usable_rings(parts, n).len() ==> #[trigger] usable_rings(parts, n)[a]
                < #[trigger] usable_rings(parts, n)[b],
    decreases n,
{
    if n > 0 {
        usable_rings_are_kept_in_order(parts, n - 1);
        let (u, v) = (usable_rings(parts, n - 1), usable_rings(parts, n));
        assert forall|i: usize| #[trigger] v.contains(i) <==> i < n && opened(
            parts[i as int]@,
        ).len() >= 3 by {
            if v.contains(i) {
                let k = choose|k: int| 0 <= k < v.len() && v[k] == i;
                if k < u.len() {
                    assert(u[k] == i && u.contains(i));
                }
            }
            if i < n && opened(parts[i as int]@).len() >= 3 {
                if i < n - 1 {
                    assert(u.contains(i));
                    let k = choose|k: int| 0 <= k < u.len() && u[k] == i;
                    assert(v[k] == i);
                } else {
                    assert(v[u.len() as int] == i);
                }
            }
        }
        assert forall|a: int, b: int| 0 <= a < b < v.len() implies #[trigger] v[a]
            < #[trigger] v[b] by {
            assert(v[a] == u[a]);
            if b < u.len() {
                assert(v[b] == u[b]);
            } else {
                assert(u.contains(u[a]));
            }
        }
    }
}

/// Earlier in the tile: by layer, then by feature, then by part.
pub open spec fn drawn_before(a: Stroke, b: Stroke) -> bool {
    ||| a.layer < b.layer
    ||| a.layer == b.layer && a.feature < b.feature
    ||| a.layer == b.layer && a.feature == b.feature && a.part < b.part
}

proof fn lemma_part_strokes(f: Feature, style: Style, layer: usize, feature: usize, n: int)
    requires
        0 <= n <= f.parts.len(),
    ensures
        forall|s: Stroke| #[trigger]
            part_strokes(f, style, layer, feature, n).contains(s) <==> {
                &&& s.style == style && s.layer == layer && s.feature == feature && s.part < n
                &&& f.kind != GeomKind::Point && f.parts@[s.part as int].len() >= 2
            },
        forall|a: int, b: int|
            #![trigger part_strokes(f, style, layer, feature, n)[a], part_strokes(f, style, layer, feature, n)[b]]
            0 <= a < b < part_strokes(f, style, layer, feature, n).len() ==> drawn_before(
                part_strokes(f, style, layer, feature, n)[a],
                part_strokes(f, style, layer, feature, n)[b],
            ),
    decreases n,
{
    if n > 0 {
        lemma_part_strokes(f, style, layer, feature, n - 1);
        let u = part_strokes(f, style, layer, feature, n - 1);
        let v = part_strokes(f, style, layer, feature, n);
        let wanted = f.kind != GeomKind::Point && f.parts@[n - 1].len() >= 2;
        let next = Stroke { style, layer, feature, part: (n - 1) as usize };
        assert(v == if wanted {
            u.push(next)
        } else {
            u
        });
        if wanted {
            lemma_pushed(u, next);
        }
        assert forall|a: int, b: int|
            #![trigger v[a], v[b]]
            0 <= a < b < v.len() implies drawn_before(v[a], v[b]) by {
            assert(v[a] == u[a] && u.contains(u[a]));
            if b < u.len() {
                assert(v[b] == u[b]);
            }
        }
    }
}

proof fn lemma_pushed<T>(u: Seq<T>, next: T)
    ensures
        forall|x: T| #[trigger] u.push(next).contains(x) <==> u.contains(x) || x == next,
{
    let v = u.push(next);
    assert forall|x: T| #[trigger] v.contains(x) <==> u.contains(x) || x == next by {
        if v.contains(x) {
            let k = choose|k: int| 0 <= k < v.len() && v[k] == x;
            if k < u.len() {
                assert(u[k] == x);
            }
        }
        if u.contains(x) {
            let k = choose|k: int| 0 <= k < u.len() && u[k] == x;
            assert(v[k] == x);
        }
        assert(v[u.len() as int] == next);
    }
}

proof fn lemma_appended<T>(u: Seq<T>, more: Seq<T>)
    ensures
        forall|x: T| #[trigger] (u + more).contains(x) <==> u.contains(x) || more.contains(x),
{
    let v = u + more;
    assert forall|x: T| #[trigger] v.contains(x) <==> u.contains(x) || more.contains(x) by {
        if v.contains(x) {
            let k = choose|k: int| 0 <= k < v.len() && v[k] == x;
            if k < u.len() {
                assert(u[k] == x);
            } else {
                assert(more[k - u.len()] == x);
            }
        }
        if u.contains(x) {
            let k = choose|k: int| 0 <= k < u.len() && u[k] == x;
            assert(v[k] == x);
        }
        if more.contains(x) {
            let k = choose|k: int| 0 <= k < more.len() && more[k] == x;
            assert(v[u.len() + k] == x);
        }
    }
}

proof fn lemma_feature_strokes(features: Seq<Feature>, style: Style, layer: usize, n: int)
    requires
        0 <= n <= features.len() <= usize::MAX,
    ensures
        forall|s: Stroke| #[trigger]
            feature_strokes(features, style, layer, n).contains(s) <==> {
                &&& s.style == style && s.layer == layer && s.feature < n
                &&& s.part < features[s.feature as int].parts.len()
                &&& features[s.feature as int].kind != GeomKind::Point
                &&& features[s.feature as int].parts@[s.part as int].len() >= 2
            },
        forall|a: int, b: int|
            #![trigger feature_strokes(features, style, layer, n)[a], feature_strokes(features, style, layer, n)[b]]
            0 <= a < b < feature_strokes(features, style, layer, n).len() ==> drawn_before(
                feature_strokes(features, style, layer, n)[a],
                feature_strokes(features, style, layer, n)[b],
            ),
    decreases n,
{
    if n > 0 {
        lemma_feature_strokes(features, style, layer, n - 1);
        let f = features[n - 1];
        let u = feature_strokes(features, style, layer, n - 1);
        let more = part_strokes(f, style, layer, (n - 1) as usize, f.parts.len() as int);
        lemma_part_strokes(f, style, layer, (n - 1) as usize, f.parts.len() as int);
        lemma_appended(u, more);
        let v = u + more;
        assert forall|a: int, b: int|
            #![trigger v[a], v[b]]
            0 <= a < b < v.len() implies drawn_before(v[a], v[b]) by {
            if b < u.len() {
                assert(v[a] == u[a] && v[b] == u[b]);
            } else {
                assert(v[b] == more[b - u.len()] && more.contains(v[b]));
                if a < u.len() {
                    assert(v[a] == u[a] && u.contains(v[a]));
                } else {
                    assert(v[a] == more[a - u.len()]);
                }
            }
        }
    }
}

/// Exactly the parts with two vertices or more of the line layers' features are
/// stroked, but for points, and roads where they are not shown. Each is stroked
/// once, in the order of the tile.
pub proof fn lines_are_stroked_in_order(vt: VectorTile, show_roads: bool, n: int)
    requires
        0 <= n <= vt.layers.len(),
    ensures
        forall|s: Stroke| #[trigger]
            layer_strokes(vt, show_roads, n).contains(s) <==> {
                let l = vt.layers@[s.layer as int];
                let f = l.features@[s.feature as int];
                &&& s.layer < n && s.feature < l.features.len() && s.part < f.parts.len()
                &&& styled(l.name@) == Some(s.style)
                &&& s.style == Style::Waterlines || s.style == Style::Contours || s.style
                    == Style::Roads && show_roads
                &&& f.kind != GeomKind::Point && f.parts@[s.part as int].len() >= 2
            },
        forall|a: int, b: int|
            #![trigger layer_strokes(vt, show_roads, n)[a], layer_strokes(vt, show_roads, n)[b]]
            0 <= a < b < layer_strokes(vt, show_roads, n).len() ==> drawn_before(
                layer_strokes(vt, show_roads, n)[a],
                layer_strokes(vt, show_roads, n)[b],
            ),
    decreases n,
{
    if n > 0 {
        lines_are_stroked_in_order(vt, show_roads, n - 1);
        let l = vt.layers@[n - 1];
        let u = layer_strokes(vt, show_roads, n - 1);
        let v = layer_strokes(vt, show_roads, n);
        if let Some(s) = drawn_style(l.name@, show_roads) {
            if !s.fills() {
                let more = feature_strokes(l.features@, s, (n - 1) as usize, l.features.len() as int);
                lemma_feature_strokes(l.features@, s, (n - 1) as usize, l.features.len() as int);
                lemma_appended(u, more);
                assert(v == u + more);
                assert forall|a: int, b: int|
                    #![trigger v[a], v[b]]
                    0 <= a < b < v.len() implies drawn_before(v[a], v[b]) by {
                    if b < u.len() {
                        assert(v[a] == u[a] && v[b] == u[b]);
                    } else {
                        assert(v[b] == more[b - u.len()] && more.contains(v[b]));
                        if a < u.len() {
                            assert(v[a] == u[a] && u.contains(v[a]));
                        } else {
                            assert(v[a] == more[a - u.len()]);
                        }
                    }
                }
            }
        }
    }
}

proof fn lemma_feature_fills(features: Seq<Feature>, style: Style, layer: usize, n: int)
    requires
        0 <= n <= features.len() <= usize::MAX,
    ensures
        forall|s: FillArea| #[trigger]
            feature_fills(features, style, layer, n).contains(s) <==> {
                &&& s.style == style && s.layer == layer && s.feature < n
                &&& features[s.feature as int].kind == GeomKind::Polygon
            },
        forall|a: int, b: int|
            #![trigger feature_fills(features, style, layer, n)[a], feature_fills(features, style, layer, n)[b]]
            0 <= a < b < feature_fills(features, style, layer, n).len() ==> feature_fills(
                features,
                style,
                layer,
                n,
            )[a].feature < feature_fills(features, style, layer, n)[b].feature,
    decreases n,
{
    if n > 0 {
        lemma_feature_fills(features, style, layer, n - 1);
        let u = feature_fills(features, style, layer, n - 1);
        let v = feature_fills(features, style, layer, n);
        let next = FillArea { style, layer, feature: (n - 1) as usize };
        lemma_pushed(u, next);
        assert forall|a: int, b: int|
            #![trigger v[a], v[b]]
            0 <= a < b < v.len() implies v[a].feature < v[b].feature by {
            assert(v[a] == u[a] && u.contains(u[a]));
            if b < u.len() {
                assert(v[b] == u[b]);
            }
        }
    }
}

/// Exactly the polygon features of the area layers are filled, each once, in the
/// order of the tile.
pub proof fn areas_are_filled_in_order(vt: VectorTile, n: int)
    requires
        0 <= n <= vt.layers.len(),
    ensures
        forall|s: FillArea| #[trigger]
            layer_fills(vt, n).contains(s) <==> {
                let l = vt.layers@[s.layer as int];
                &&& s.layer < n && s.feature < l.features.len()
                &&& styled(l.name@) == Some(s.style)
                &&& s.style == Style::Woodland || s.style == Style::Greenspaces || s.style
                    == Style::Surfacewater || s.style == Style::Buildings
                &&& l.features@[s.feature as int].kind == GeomKind::Polygon
            },
        forall|a: int, b: int|
            #![trigger layer_fills(vt, n)[a], layer_fills(vt, n)[b]]
            0 <= a < b < layer_fills(vt, n).len() ==> {
                let (s, t) = (layer_fills(vt, n)[a], layer_fills(vt, n)[b]);
                s.layer < t.layer || s.layer == t.layer && s.feature < t.feature
            },
    decreases n,
{
    if n > 0 {
        areas_are_filled_in_order(vt, n - 1);
        let l = vt.layers@[n - 1];
        let u = layer_fills(vt, n - 1);
        let v = layer_fills(vt, n);
        if let Some(s) = styled(l.name@) {
            if s.fills() {
                let more = feature_fills(l.features@, s, (n - 1) as usize, l.features.len() as int);
                lemma_feature_fills(l.features@, s, (n - 1) as usize, l.features.len() as int);
                lemma_appended(u, more);
                assert(v == u + more);
                assert forall|a: int, b: int|
                    #![trigger v[a], v[b]]
                    0 <= a < b < v.len() implies v[a].layer < v[b].layer || v[a].layer
                    == v[b].layer && v[a].feature < v[b].feature by {
                    if b < u.len() {
                        assert(v[a] == u[a] && v[b] == u[b]);
                    } else {
                        assert(v[b] == more[b - u.len()] && more.contains(v[b]));
                        if a < u.len() {
                            assert(v[a] == u[a] && u.contains(v[a]));
                        } else {
                            assert(v[a] == more[a - u.len()] && more.contains(v[a]));
                        }
                    }
                }
            }
        }
    }
}

proof fn lemma_long_parts(f: Feature, feature: usize, kind: GeomKind, least: nat, n: int)
    requires
        0 <= n <= f.parts.len(),
    ensures
        forall|p: (usize, usize)| #[trigger]
            long_parts(f, feature, kind, least, n).contains(p) <==> {
                &&& p.0 == feature && p.1 < n && f.kind == kind
                &&& f.parts@[p.1 as int].len() >= least
            },
        forall|a: int, b: int|
            #![trigger long_parts(f, feature, kind, least, n)[a], long_parts(f, feature, kind, least, n)[b]]
            0 <= a < b < long_parts(f, feature, kind, least, n).len() ==> long_parts(
                f,
                feature,
                kind,
                least,
                n,
            )[a].1 < long_parts(f, feature, kind, least, n)[b].1,
    decreases n,
{
    if n > 0 {
        lemma_long_parts(f, feature, kind, least, n - 1);
        let u = long_parts(f, feature, kind, least, n - 1);
        let v = long_parts(f, feature, kind, least, n);
        lemma_pushed(u, (feature, (n - 1) as usize));
        assert forall|a: int, b: int|
            #![trigger v[a], v[b]]
            0 <= a < b < v.len() implies v[a].1 < v[b].1 by {
            assert(v[a] == u[a] && u.contains(u[a]));
            if b < u.len() {
                assert(v[b] == u[b]);
            }
        }
    }
}

/// Lakes and rivers are exactly the parts of the wanted kind that are long enough,
/// each once, by feature and then by part.
pub proof fn water_parts_come_in_order(features: Seq<Feature>, kind: GeomKind, least: nat, n: int)
    requires
        0 <= n <= features.len() <= usize::MAX,
    ensures
        forall|p: (usize, usize)| #[trigger]
            parts_of_kind(features, kind, least, n).contains(p) <==> {
                &&& p.0 < n && features[p.0 as int].kind == kind
                &&& p.1 < features[p.0 as int].parts.len()
                &&& features[p.0 as int].parts@[p.1 as int].len() >= least
            },
        forall|a: int, b: int|
            #![trigger parts_of_kind(features, kind, least, n)[a], parts_of_kind(features, kind, least, n)[b]]
            0 <= a < b < parts_of_kind(features, kind, least, n).len() ==> {
                let p = parts_of_kind(features, kind, least, n)[a];
                let q = parts_of_kind(features, kind, least, n)[b];
                p.0 < q.0 || p.0 == q.0 && p.1 < q.1
            },
    decreases n,
{
    if n > 0 {
        water_parts_come_in_order(features, kind, least, n - 1);
        let f = features[n - 1];
        let at = (n - 1) as usize;
        let u = parts_of_kind(features, kind, least, n - 1);
        let more = long_parts(f, at, kind, least, f.parts.len() as int);
        lemma_long_parts(f, at, kind, least, f.parts.len() as int);
        lemma_appended(u, more);
        let v = u + more;
        assert(v == parts_of_kind(features, kind, least, n));
        assert forall|a: int, b: int|
            #![trigger v[a], v[b]]
            0 <= a < b < v.len() implies v[a].0 < v[b].0 || v[a].0 == v[b].0 && v[a].1 < v[b].1 by {
            if b < u.len() {
                assert(v[a] == u[a] && v[b] == u[b]);
            } else {
                assert(v[b] == more[b - u.len()] && more.contains(v[b]));
                if a < u.len() {
                    assert(v[a] == u[a] && u.contains(v[a]));
                } else {
                    assert(v[a] == more[a - u.len()] && more.contains(v[a]));
                }
            }
        }
    }
}

/// Without a layer of that name there are neither lakes nor rivers.
pub proof fn water_parts_need_their_layer(vt: VectorTile, name: Seq<char>, kind: GeomKind, least: nat)
    requires
        forall|i: int| 0 <= i < vt.layers.len() ==> (#[trigger] vt.layers@[i]).name@ != name,
    ensures
        layer_parts(vt, name, kind, least).len() == 0,
        vt.layer_named(name, 0) is None,
{
    crate::mvt::layer_is_the_first_of_its_name(vt, name, 0);
}

/// One more feature adds its label to the end, if it has one, and changes no other:
/// a label needs a point, taken as the first of the first part, and a name.
pub proof fn labels_need_a_point_and_a_name(features: Seq<Feature>, n: int, key: int)
    requires
        0 < n <= features.len(),
    ensures
        ({
            let f = features[n - 1];
            let attrs = crate::mvt::attr_views(f.attrs@);
            let before = places_of(features, n - 1);
            let after = places_of(features, n);
            let named = 0 <= key < attrs.len() && attrs[key].0 == "name1"@ && forall|i: int|
                0 <= i < key ==> (#[trigger] attrs[i]).0 != "name1"@;
            let unnamed = forall|i: int| 0 <= i < attrs.len() ==> (#[trigger] attrs[i]).0 != "name1"@;
            let placed = f.kind == GeomKind::Point && f.parts.len() > 0 && f.parts@[0].len() > 0;
            &&& !placed || unnamed ==> after == before
            &&& placed && named ==> {
                &&& after.len() == before.len() + 1
                &&& after.drop_last() == before
                &&& after.last().name == attrs[key].1
                &&& after.last().at == f.parts@[0]@[0]
            }
        }),
        places_of(features, 0).len() == 0,
{
    let f = features[n - 1];
    let attrs = crate::mvt::attr_views(f.attrs@);
    crate::mvt::attribute_is_the_first_of_its_key(attrs, "name1"@, 0);
    assert(places_of(features, n - 1).push(place_of(f)->Some_0).drop_last() =~= places_of(
        features,
        n - 1,
    ));
}

/// The settlement type of a label is the feature's `type`, or empty.
pub proof fn labels_carry_their_type(f: Feature, key: int)
    requires
        place_of(f) is Some,
    ensures
        ({
            let attrs = crate::mvt::attr_views(f.attrs@);
            &&& (forall|i: int| 0 <= i < attrs.len() ==> (#[trigger] attrs[i]).0 != "type"@)
                ==> place_of(f)->Some_0.kind.len() == 0
            &&& 0 <= key < attrs.len() && attrs[key].0 == "type"@ && (forall|i: int|
                0 <= i < key ==> (#[trigger] attrs[i]).0 != "type"@) ==> place_of(f)->Some_0.kind
                == attrs[key].1
        }),
{
    let attrs = crate::mvt::attr_views(f.attrs@);
    crate::mvt::attribute_is_the_first_of_its_key(attrs, "type"@, 0);
}

/// Lakes are the polygon rings of four vertices or more in the surface water layer, where
/// there is such a layer.
pub proof fn lakes_are_rings_of_surface_water(
    vt: &VectorTile,
    out: Vec<(usize, usize)>,
    at: int,
    p: (usize, usize),
)
    requires
        call_ensures(lake_rings, (vt,), out),
        0 <= at < vt.layers.len(),
        vt.layers@[at].name@ == "surfacewater"@,
        forall|i: int| 0 <= i < at ==> (#[trigger] vt.layers@[i]).name@ != "surfacewater"@,
    ensures
        ({
            let features = vt.layers@[at].features@;
            out@.contains(p) <==> {
                &&& p.0 < features.len() && features[p.0 as int].kind == GeomKind::Polygon
                &&& p.1 < features[p.0 as int].parts.len()
                &&& features[p.0 as int].parts@[p.1 as int].len() >= 4
            }
        }),
{
    crate::mvt::layer_is_the_first_of_its_name(*vt, "surfacewater"@, 0);
    let features = vt.layers@[at].features@;
    water_parts_come_in_order(features, GeomKind::Polygon, 4, features.len() as int);
}

/// Rivers are the lines of two vertices or more in the waterlines layer, where there is such a
/// layer.
pub proof fn rivers_are_lines_of_the_waterlines(
    vt: &VectorTile,
    out: Vec<(usize, usize)>,
    at: int,
    p: (usize, usize),
)
    requires
        call_ensures(river_lines, (vt,), out),
        0 <= at < vt.layers.len(),
        vt.layers@[at].name@ == "waterlines"@,
        forall|i: int| 0 <= i < at ==> (#[trigger] vt.layers@[i]).name@ != "waterlines"@,
    ensures
        ({
            let features = vt.layers@[at].features@;
            out@.contains(p) <==> {
                &&& p.0 < features.len() && features[p.0 as int].kind == GeomKind::Line
                &&& p.1 < features[p.0 as int].parts.len()
                &&& features[p.0 as int].parts@[p.1 as int].len() >= 2
            }
        }),
{
    crate::mvt::layer_is_the_first_of_its_name(*vt, "waterlines"@, 0);
    let features = vt.layers@[at].features@;
    water_parts_come_in_order(features, GeomKind::Line, 2, features.len() as int);
}

/// Place names come from the first layer called `names`, and from no other.
pub proof fn place_names_come_from_their_layer(vt: &VectorTile, out: Vec<PlaceName>, at: int)
    requires
        call_ensures(place_names, (vt,), out),
    ensures
        (forall|i: int| 0 <= i < vt.layers.len() ==> (#[trigger] vt.layers@[i]).name@ != "names"@)
            ==> out.len() == 0,
        0 <= at < vt.layers.len() && vt.layers@[at].name@ == "names"@ && (forall|i: int|
            0 <= i < at ==> (#[trigger] vt.layers@[i]).name@ != "names"@) ==> place_views(out@)
            == places_of(vt.layers@[at].features@, vt.layers@[at].features.len() as int),
{
    crate::mvt::layer_is_the_first_of_its_name(*vt, "names"@, 0);
    assert(place_views(out@).len() == out.len());
}

/// Turning a ring round changes the sign of its doubled area and nothing else; a triangle's
/// is the cross product of two of its sides.
pub proof fn signed_areas_turn_with_the_ring(
    ring: &Vec<(i32, i32)>,
    back: &Vec<(i32, i32)>,
    n: usize,
    a: i128,
    b: i128,
)
    requires
        n <= ring.len(),
        back@ == ring@.take(n as int).reverse(),
        call_ensures(signed_area, (ring, n), a),
        call_ensures(signed_area, (back, n), b),
    ensures
        b == -a,
        n < 3 ==> a == 0,
        n == 3 ==> a == triangle(ring@[0], ring@[1], ring@[2]),
{
    let r = ring@.take(n as int);
    assert(back@.take(n as int) =~= r.reverse());
    area_turns_with_the_ring(r);
    if n == 3 {
        assert(r =~= seq![ring@[0], ring@[1], ring@[2]]);
        area_of_a_triangle(ring@[0], ring@[1], ring@[2]);
    }
}

}

//! What shows below the skyline: gills cut into the visible slopes, lakes, and
//! the named summits.

use vstd::prelude::*;
use crate::horizon::{Horizon, NADIR_BITS, NADIR_SINGLE_BITS, NEG_INFINITY_BITS};
use crate::ieee::{Double, Single};

verus! {

/// -π/2 − 0.035 rad: a channel floor may dip that far (about 2°) under the
/// running silhouette and still count as seen.
pub const SUNK_NADIR_BITS: u64 = 0xbff9_b157_7d39_efa7;

/// The most negative finite binary64 number: no channel at all.
pub const DOUBLE_MIN_BITS: u64 = 0xffef_ffff_ffff_ffff;

/// 1500 m: an obscured summit still counts as "slopes visible" when the ridge
/// hiding it sits this close in front of it, so that it is the fell's own near
/// shoulder.
pub const MASSIF_GAP_BITS: u64 = 0x4097_7000_0000_0000;

/// 30 m: a summit nearer than this is the viewpoint's own.
pub const OWN_SUMMIT_BITS: u64 = 0x403e_0000_0000_0000;

/// Samples without visible water that a stretch of water may bridge.
pub const MAX_GAP: usize = 5;

/// How deep a channel is cut below its banks, and the same rounded to binary32.
#[derive(Debug, Clone, Copy)]
pub struct Depth {
    pub wide: Double,
    pub narrow: Single,
}

/// The terrain at one distance along a ray, with the depths of the channel cuts
/// measured there.
#[derive(Debug)]
pub struct Probe {
    /// Apparent elevation angle (radians).
    pub angle: Double,
    /// The lowest angle that still counts as seen once this sample shows.
    pub lowered: Double,
    pub elev: Single,
    pub dist: Single,
    pub depths: Vec<Depth>,
}

/// A visible incised channel sample.
#[derive(Debug, Clone, Copy, PartialEq, Eq, Structural)]
pub struct Ravine {
    pub bucket: usize,
    pub elev: Single,
    pub depth: Single,
    pub dist: Single,
}

/// The deepest cut; the first of equals.
pub open spec fn deepest(depths: Seq<Depth>) -> Depth
    decreases depths.len(),
{
    if depths.len() == 0 {
        Depth {
            wide: Double { bits: DOUBLE_MIN_BITS },
            narrow: Single { bits: NEG_INFINITY_BITS },
        }
    } else {
        let d = deepest(depths.drop_last());
        if d.wide.nan() || d.wide.below(depths.last().wide) {
            depths.last()
        } else {
            d
        }
    }
}

/// The angle of the silhouette over the probes of `ray`, and the lowest angle
/// that is still seen against it.
pub open spec fn outline(ray: Seq<Probe>) -> (Double, Double)
    decreases ray.len(),
{
    if ray.len() == 0 {
        (Double { bits: NADIR_BITS }, Double { bits: SUNK_NADIR_BITS })
    } else {
        let (top, low) = outline(ray.drop_last());
        if top.below(ray.last().angle) {
            (ray.last().angle, ray.last().lowered)
        } else {
            (top, low)
        }
    }
}

/// Probe `j` looks into a visible channel at least `least` deep.
pub open spec fn incised(ray: Seq<Probe>, j: int, least: Double) -> bool {
    &&& outline(ray.take(j)).1.at_most(ray[j].angle)
    &&& least.at_most(deepest(ray[j].depths@).wide)
}

/// The ravine samples of one bucket's ray, nearest first.
pub open spec fn channels(ray: Seq<Probe>, bucket: usize, least: Double) -> Seq<Ravine>
    decreases ray.len(),
{
    if ray.len() == 0 {
        Seq::empty()
    } else {
        let near = channels(ray.drop_last(), bucket, least);
        let p = ray.last();
        if incised(ray, ray.len() - 1, least) {
            near.push(
                Ravine { bucket, elev: p.elev, depth: deepest(p.depths@).narrow, dist: p.dist },
            )
        } else {
            near
        }
    }
}

/// The ravine samples of the first `n` buckets.
pub open spec fn channels_upto(rays: Seq<Vec<Probe>>, least: Double, n: int) -> Seq<Ravine>
    decreases n,
{
    if n <= 0 {
        Seq::empty()
    } else {
        channels_upto(rays, least, n - 1) + channels(rays[n - 1]@, (n - 1) as usize, least)
    }
}

fn find_deepest(depths: &Vec<Depth>) -> (r: Depth)
    ensures
        r == deepest(depths@),
{
    let mut d = Depth {
        wide: Double { bits: DOUBLE_MIN_BITS },
        narrow: Single { bits: NEG_INFINITY_BITS },
    };
    let mut i: usize = 0;
    while i < depths.len()
        invariant
            i <= depths.len(),
            d == deepest(depths@.take(i as int)),
        decreases depths.len() - i,
    {
        proof {
            assert(depths@.take(i as int + 1).drop_last() =~= depths@.take(i as int));
        }
        if d.wide.is_nan() || d.wide.lt(depths[i].wide) {
            d = depths[i];
        }
        i = i + 1;
    }
    proof {
        assert(depths@.take(i as int) =~= depths@);
    }
    d
}

/// Find the visible incised channels (gills and ravines) at least `least` deep
/// from the probes of each bucket's ray. Nothing is seen from a viewpoint
/// outside coverage (`ground` is `None`).
pub fn ravines(ground: Option<Double>, rays: &Vec<Vec<Probe>>, least: Double) -> (out: Vec<Ravine>)
    ensures
        out@ == if ground is Some {
            channels_upto(rays@, least, rays.len() as int)
        } else {
            Seq::empty()
        },
{
    let mut out: Vec<Ravine> = Vec::new();
    if ground.is_none() {
        return out;
    }
    let mut b: usize = 0;
    while b < rays.len()
        invariant
            b <= rays.len(),
            out@ == channels_upto(rays@, least, b as int),
        decreases rays.len() - b,
    {
        let ray = &rays[b];
        let ghost before = out@;
        let mut top = Double { bits: NADIR_BITS };
        let mut low = Double { bits: SUNK_NADIR_BITS };
        let mut j: usize = 0;
        proof {
            assert(before + Seq::<Ravine>::empty() =~= before);
        }
        while j < ray.len()
            invariant
                j <= ray.len(),
                (top, low) == outline(ray@.take(j as int)),
                out@ == before + channels(ray@.take(j as int), b, least),
            decreases ray.len() - j,
        {
            let p = &ray[j];
            let ghost next = ray@.take(j as int + 1);
            proof {
                assert(next.drop_last() =~= ray@.take(j as int));
                assert(next.take(j as int) =~= ray@.take(j as int));
            }
            let d = find_deepest(&p.depths);
            if low.le(p.angle) && least.le(d.wide) {
                out.push(Ravine { bucket: b, elev: p.elev, depth: d.narrow, dist: p.dist });
            }
            if top.lt(p.angle) {
                top = p.angle;
                low = p.lowered;
            }
            proof {
                assert(out@ =~= before + channels(next, b, least));
            }
            j = j + 1;
        }
        proof {
            assert(ray@.take(j as int) =~= ray@);
        }
        b = b + 1;
    }
    out
}

/// The terrain at one distance along a ray, and whether it is water.
#[derive(Debug, Clone, Copy)]
pub struct WaterSample {
    pub angle: Single,
    pub wet: bool,
}

/// Sample `j` is water that nothing nearer hides.
pub open spec fn surfaces(ray: Seq<WaterSample>, j: int) -> bool {
    &&& ray[j].wet
    &&& Single { bits: NADIR_SINGLE_BITS }.at_most(ray[j].angle)
    &&& forall|i: int|
        0 <= i < j && !(#[trigger] ray[i]).angle.nan() ==> ray[i].angle.at_most(ray[j].angle)
}

/// The bands of water along a ray: the finished ones, the one still open, and
/// how many samples ago it was last seen.
pub struct Bands {
    pub done: Seq<(Single, Single)>,
    pub open_band: Option<(Single, Single)>,
    pub gap: int,
}

pub open spec fn bands(ray: Seq<WaterSample>) -> Bands
    decreases ray.len(),
{
    if ray.len() == 0 {
        Bands { done: Seq::empty(), open_band: None, gap: 0 }
    } else {
        let s = bands(ray.drop_last());
        let a = ray.last().angle;
        if surfaces(ray, ray.len() - 1) {
            Bands {
                done: s.done,
                open_band: Some(
                    match s.open_band {
                        Some((top, bottom)) => (top.larger(a), bottom.smaller(a)),
                        None => (a, a),
                    },
                ),
                gap: 0,
            }
        } else {
            match s.open_band {
                Some(band) => if s.gap + 1 > MAX_GAP {
                    Bands { done: s.done.push(band), open_band: None, gap: 0 }
                } else {
                    Bands { done: s.done, open_band: s.open_band, gap: s.gap + 1 }
                },
                None => s,
            }
        }
    }
}

/// The contiguous stretches of visible water along a ray as apparent-elevation
/// bands `(top, bottom)`.
pub open spec fn water_bands(ray: Seq<WaterSample>) -> Seq<(Single, Single)> {
    match bands(ray).open_band {
        Some(band) => bands(ray).done.push(band),
        None => bands(ray).done,
    }
}

spec fn covers(ray: Seq<WaterSample>, run: Single) -> bool {
    &&& !run.nan()
    &&& Single { bits: NADIR_SINGLE_BITS }.at_most(run)
    &&& forall|i: int|
        0 <= i < ray.len() && !(#[trigger] ray[i]).angle.nan() ==> ray[i].angle.at_most(run)
    &&& run == (Single { bits: NADIR_SINGLE_BITS }) || exists|i: int|
        0 <= i < ray.len() && (#[trigger] ray[i]).angle == run
}

proof fn lemma_covers(ray: Seq<WaterSample>, run: Single, next: WaterSample)
    requires
        covers(ray, run),
    ensures
        surfaces(ray.push(next), ray.len() as int) == (next.wet && run.at_most(next.angle)),
        covers(
            ray.push(next),
            if run.below(next.angle) {
                next.angle
            } else {
                run
            },
        ),
{
    let longer = ray.push(next);
    let top = if run.below(next.angle) {
        next.angle
    } else {
        run
    };
    assert forall|i: int| 0 <= i < longer.len() && !(#[trigger] longer[i]).angle.nan() implies longer[i].angle.at_most(
        top,
    ) by {
        if i < ray.len() {
            assert(longer[i] == ray[i]);
        }
    }
    assert(longer[ray.len() as int] == next);
    if run != (Single { bits: NADIR_SINGLE_BITS }) {
        let i = choose|i: int| 0 <= i < ray.len() && (#[trigger] ray[i]).angle == run;
        assert(longer[i].angle == run);
    }
    if next.wet && run.at_most(next.angle) {
        assert forall|i: int| 0 <= i < ray.len() && !(#[trigger] longer[i]).angle.nan() implies longer[i].angle.at_most(
            next.angle,
        ) by {
            assert(longer[i] == ray[i]);
        }
    }
}

/// Walk a ray outwards over water and land.
fn wade(ray: &Vec<WaterSample>) -> (out: Vec<(Single, Single)>)
    ensures
        out@ == water_bands(ray@),
{
    let mut out: Vec<(Single, Single)> = Vec::new();
    let mut run = Single { bits: NADIR_SINGLE_BITS };
    let mut seg: Option<(Single, Single)> = None;
    let mut gap: usize = 0;
    let mut j: usize = 0;
    while j < ray.len()
        invariant
            j <= ray.len(),
            covers(ray@.take(j as int), run),
            out@ == bands(ray@.take(j as int)).done,
            seg == bands(ray@.take(j as int)).open_band,
            gap == bands(ray@.take(j as int)).gap,
            gap <= MAX_GAP,
        decreases ray.len() - j,
    {
        let s = ray[j];
        let ghost near = ray@.take(j as int);
        let ghost next = ray@.take(j as int + 1);
        proof {
            assert(next.drop_last() =~= near);
            assert(next =~= near.push(s));
            lemma_covers(near, run, s);
        }
        if s.wet && run.le(s.angle) {
            seg = Some(
                match seg {
                    Some((t, b)) => (t.max(s.angle), b.min(s.angle)),
                    None => (s.angle, s.angle),
                },
            );
            gap = 0;
        } else if let Some(band) = seg {
            gap = gap + 1;
            if gap > MAX_GAP {
                out.push(band);
                seg = None;
                gap = 0;
            }
        }
        if run.lt(s.angle) {
            run = s.angle;
        }
        j = j + 1;
    }
    proof {
        assert(ray@.take(j as int) =~= ray@);
    }
    if let Some(band) = seg {
        out.push(band);
    }
    out
}

/// Per azimuth bucket, the contiguous segments of visible water as
/// apparent-elevation bands `(top, bottom)`. Short gaps are bridged, so that a
/// lake seen edge-on stays one band; separate lakes stay separate.
pub fn visible_water(rays: &Vec<Vec<WaterSample>>) -> (out: Vec<Vec<(Single, Single)>>)
    ensures
        out.len() == rays.len(),
        forall|b: int| 0 <= b < out.len() ==> #[trigger] out@[b]@ == water_bands(rays@[b]@),
{
    let mut out: Vec<Vec<(Single, Single)>> = Vec::new();
    let mut b: usize = 0;
    while b < rays.len()
        invariant
            b <= rays.len(),
            out.len() == b,
            forall|k: int| 0 <= k < b ==> #[trigger] out@[k]@ == water_bands(rays@[k]@),
        decreases rays.len() - b,
    {
        out.push(wade(&rays[b]));
        b = b + 1;
    }
    out
}

/// Both ends of a band are angles at which visible water was sampled, the bottom
/// no higher than the top.
pub open spec fn band_is_water(ray: Seq<WaterSample>, band: (Single, Single)) -> bool {
    &&& band.1.at_most(band.0)
    &&& exists|i: int| 0 <= i < ray.len() && #[trigger] surfaces(ray, i) && ray[i].angle == band.0
    &&& exists|i: int| 0 <= i < ray.len() && #[trigger] surfaces(ray, i) && ray[i].angle == band.1
}

proof fn lemma_band_extends(ray: Seq<WaterSample>, next: WaterSample, band: (Single, Single))
    requires
        band_is_water(ray, band),
    ensures
        band_is_water(ray.push(next), band),
{
    let longer = ray.push(next);
    let i = choose|i: int| 0 <= i < ray.len() && #[trigger] surfaces(ray, i) && ray[i].angle == band.0;
    let j = choose|i: int| 0 <= i < ray.len() && #[trigger] surfaces(ray, i) && ray[i].angle == band.1;
    lemma_surfaces_extends(ray, next, i);
    lemma_surfaces_extends(ray, next, j);
    assert(longer[i] == ray[i] && longer[j] == ray[j]);
}

proof fn lemma_surfaces_extends(ray: Seq<WaterSample>, next: WaterSample, i: int)
    requires
        0 <= i < ray.len(),
        surfaces(ray, i),
    ensures
        surfaces(ray.push(next), i),
{
    let longer = ray.push(next);
    assert forall|k: int| 0 <= k < i && !(#[trigger] longer[k]).angle.nan() implies longer[k].angle.at_most(
        longer[i].angle,
    ) by {
        assert(longer[k] == ray[k]);
    }
}

proof fn lemma_bands_are_water(ray: Seq<WaterSample>)
    ensures
        forall|k: int|
            0 <= k < bands(ray).done.len() ==> band_is_water(ray, #[trigger] bands(ray).done[k]),
        bands(ray).open_band matches Some(band) ==> band_is_water(ray, band),
    decreases ray.len(),
{
    if ray.len() > 0 {
        let near = ray.drop_last();
        let next = ray.last();
        lemma_bands_are_water(near);
        assert(near.push(next) =~= ray);
        let s = bands(near);
        assert forall|k: int| 0 <= k < s.done.len() implies band_is_water(ray, #[trigger] s.done[k]) by {
            lemma_band_extends(near, next, s.done[k]);
        }
        if let Some(band) = s.open_band {
            lemma_band_extends(near, next, band);
        }
        let last = ray.len() - 1;
        if surfaces(ray, last) {
            assert(ray[last].angle == next.angle);
            let band = bands(ray).open_band->Some_0;
            if let Some((top, bottom)) = s.open_band {
                assert(band == (top.larger(next.angle), bottom.smaller(next.angle)));
                let i = choose|i: int| 0 <= i < ray.len() && #[trigger] surfaces(ray, i) && ray[i].angle == top;
                let j = choose|i: int| 0 <= i < ray.len() && #[trigger] surfaces(ray, i) && ray[i].angle == bottom;
                assert(surfaces(ray, i) && surfaces(ray, j));
                assert(band_is_water(ray, band));
            } else {
                assert(band_is_water(ray, band));
            }
        } else {
            assert forall|k: int| 0 <= k < bands(ray).done.len() implies band_is_water(
                ray,
                #[trigger] bands(ray).done[k],
            ) by {
                if k < s.done.len() {
                    assert(bands(ray).done[k] == s.done[k]);
                }
            }
        }
    }
}

/// Every band of [`water_bands`] runs between angles at which visible water was
/// sampled: no band is drawn where nothing but land shows.
pub proof fn water_bands_are_water(ray: Seq<WaterSample>, k: int)
    requires
        0 <= k < water_bands(ray).len(),
    ensures
        band_is_water(ray, water_bands(ray)[k]),
{
    lemma_bands_are_water(ray);
    if k < bands(ray).done.len() {
        assert(water_bands(ray)[k] == bands(ray).done[k]);
    }
}

/// The angle lies in the band.
pub open spec fn in_band(a: Single, band: (Single, Single)) -> bool {
    band.1.at_most(a) && a.at_most(band.0)
}

proof fn lemma_water_covered(ray: Seq<WaterSample>, j: int)
    requires
        0 <= j < ray.len(),
        surfaces(ray, j),
    ensures
        bands(ray).open_band matches Some(band) && in_band(ray[j].angle, band) || exists|k: int|
            0 <= k < bands(ray).done.len() && in_band(ray[j].angle, #[trigger] bands(ray).done[k]),
    decreases ray.len(),
{
    let near = ray.drop_last();
    let s = bands(near);
    lemma_bands_are_water(near);
    if j < near.len() {
        assert(surfaces(near, j)) by {
            assert forall|i: int| 0 <= i < j && !(#[trigger] near[i]).angle.nan() implies near[i].angle.at_most(
                near[j].angle,
            ) by {
                assert(near[i] == ray[i]);
            }
        }
        lemma_water_covered(near, j);
        if exists|k: int| 0 <= k < s.done.len() && in_band(near[j].angle, #[trigger] s.done[k]) {
            let k = choose|k: int| 0 <= k < s.done.len() && in_band(near[j].angle, #[trigger] s.done[k]);
            assert(bands(ray).done[k] == s.done[k]);
        } else if !surfaces(ray, ray.len() - 1) && s.gap + 1 > MAX_GAP {
            assert(bands(ray).done[s.done.len() as int] == s.open_band->Some_0);
        }
    }
}

/// No visible water is lost: wherever water shows, one of the bands holds its
/// angle.
pub proof fn visible_water_is_covered(ray: Seq<WaterSample>, j: int)
    requires
        0 <= j < ray.len(),
        surfaces(ray, j),
    ensures
        exists|k: int|
            0 <= k < water_bands(ray).len() && in_band(ray[j].angle, #[trigger] water_bands(ray)[k]),
{
    lemma_water_covered(ray, j);
    let s = bands(ray);
    if exists|k: int| 0 <= k < s.done.len() && in_band(ray[j].angle, #[trigger] s.done[k]) {
        let k = choose|k: int| 0 <= k < s.done.len() && in_band(ray[j].angle, #[trigger] s.done[k]);
        assert(water_bands(ray)[k] == s.done[k]);
    } else {
        assert(water_bands(ray)[s.done.len() as int] == s.open_band->Some_0);
    }
}

/// Every reported ravine sample is one of the ray's probes, looks into a visible
/// channel, and is as deep as was asked for.
pub proof fn ravines_are_incised(ray: Seq<Probe>, bucket: usize, least: Double, k: int)
    requires
        0 <= k < channels(ray, bucket, least).len(),
    ensures
        exists|j: int|
            0 <= j < ray.len() && #[trigger] incised(ray, j, least) && channels(ray, bucket, least)[k]
                == (Ravine {
                bucket,
                elev: ray[j].elev,
                depth: deepest(ray[j].depths@).narrow,
                dist: ray[j].dist,
            }),
    decreases ray.len(),
{
    let near = ray.drop_last();
    let c = channels(near, bucket, least);
    if k < c.len() {
        ravines_are_incised(near, bucket, least, k);
        assert(channels(ray, bucket, least)[k] == c[k]);
        let j = choose|j: int|
            0 <= j < near.len() && #[trigger] incised(near, j, least) && c[k] == (Ravine {
                bucket,
                elev: near[j].elev,
                depth: deepest(near[j].depths@).narrow,
                dist: near[j].dist,
            });
        assert(ray.take(j) =~= near.take(j));
        assert(ray[j] == near[j]);
        assert(incised(ray, j, least));
    } else {
        assert(incised(ray, ray.len() - 1, least));
    }
}

/// The probes of one bucket's ray that look into a visible channel at least
/// `least` deep, as (bucket, position along the ray), nearest first.
pub open spec fn sites(ray: Seq<Probe>, bucket: int, least: Double) -> Seq<(int, int)>
    decreases ray.len(),
{
    if ray.len() == 0 {
        Seq::empty()
    } else {
        let near = sites(ray.drop_last(), bucket, least);
        if incised(ray, ray.len() - 1, least) {
            near.push((bucket, ray.len() - 1))
        } else {
            near
        }
    }
}

/// The [`sites`] of the first `n` buckets.
pub open spec fn sites_upto(rays: Seq<Vec<Probe>>, least: Double, n: int) -> Seq<(int, int)>
    decreases n,
{
    if n <= 0 {
        Seq::empty()
    } else {
        sites_upto(rays, least, n - 1) + sites(rays[n - 1]@, n - 1, least)
    }
}

/// The ravine sample at a site.
pub open spec fn ravine_at(rays: Seq<Vec<Probe>>, site: (int, int)) -> Ravine {
    let p = rays[site.0]@[site.1];
    Ravine {
        bucket: site.0 as usize,
        elev: p.elev,
        depth: deepest(p.depths@).narrow,
        dist: p.dist,
    }
}

/// The ravine samples at sites, in order.
pub open spec fn ravines_at(rays: Seq<Vec<Probe>>, at: Seq<(int, int)>) -> Seq<Ravine> {
    at.map_values(|site: (int, int)| ravine_at(rays, site))
}

/// The sites that are at least `least` deep, in order.
pub open spec fn sites_as_deep(rays: Seq<Vec<Probe>>, at: Seq<(int, int)>, least: Double) -> Seq<
    (int, int),
> {
    at.filter(|site: (int, int)| least.at_most(deepest(rays[site.0]@[site.1].depths@).wide))
}

proof fn lemma_ray_sites(
    rays: Seq<Vec<Probe>>,
    bucket: int,
    m: int,
    shallow: Double,
    deep: Double,
)
    requires
        0 <= bucket < rays.len(),
        0 <= m <= rays[bucket].len(),
    ensures
        ({
            let ray = rays[bucket]@.take(m);
            let at = sites(ray, bucket, shallow);
            &&& channels(ray, bucket as usize, shallow) == ravines_at(rays, at)
            &&& shallow.at_most(deep) ==> sites(ray, bucket, deep) == sites_as_deep(rays, at, deep)
        }),
    decreases m,
{
    reveal(Seq::filter);
    let ray = rays[bucket]@.take(m);
    if m > 0 {
        lemma_ray_sites(rays, bucket, m - 1, shallow, deep);
        let near = rays[bucket]@.take(m - 1);
        assert(ray.drop_last() =~= near);
        let at = sites(ray, bucket, shallow);
        if incised(ray, m - 1, shallow) {
            assert(at.drop_last() =~= sites(near, bucket, shallow));
        }
        assert(channels(ray, bucket as usize, shallow) =~= ravines_at(rays, at));
        if shallow.at_most(deep) {
            assert(sites(ray, bucket, deep) =~= sites_as_deep(rays, at, deep));
        }
    } else {
        assert(channels(ray, bucket as usize, shallow) =~= ravines_at(
            rays,
            sites(ray, bucket, shallow),
        ));
    }
}

/// Asking for deeper ravines gives exactly the deeper ones of those that a
/// smaller depth gives, in the same order.
pub proof fn deeper_ravines_are_kept(
    rays: Seq<Vec<Probe>>,
    shallow: Double,
    deep: Double,
    n: int,
)
    requires
        0 <= n <= rays.len(),
        shallow.at_most(deep),
    ensures
        channels_upto(rays, shallow, n) == ravines_at(rays, sites_upto(rays, shallow, n)),
        channels_upto(rays, deep, n) == ravines_at(
            rays,
            sites_as_deep(rays, sites_upto(rays, shallow, n), deep),
        ),
{
    lemma_sites_as_deep(rays, shallow, deep, n);
    lemma_sites_as_deep(rays, deep, deep, n);
}

proof fn lemma_sites_as_deep(rays: Seq<Vec<Probe>>, shallow: Double, deep: Double, n: int)
    requires
        0 <= n <= rays.len(),
    ensures
        channels_upto(rays, shallow, n) == ravines_at(rays, sites_upto(rays, shallow, n)),
        shallow.at_most(deep) ==> sites_upto(rays, deep, n) == sites_as_deep(rays, sites_upto(rays, shallow, n), deep),
    decreases n,
{
    reveal(Seq::filter);
    if n > 0 {
        lemma_sites_as_deep(rays, shallow, deep, n - 1);
        let ray = rays[n - 1]@;
        assert(ray.take(ray.len() as int) =~= ray);
        lemma_ray_sites(rays, n - 1, ray.len() as int, shallow, deep);
        let before = sites_upto(rays, shallow, n - 1);
        let here = sites(ray, n - 1, shallow);
        Seq::filter_distributes_over_add(
            before,
            here,
            |site: (int, int)| deep.at_most(deepest(rays[site.0]@[site.1].depths@).wide),
        );
        assert(ravines_at(rays, before + here) =~= ravines_at(rays, before) + ravines_at(rays, here));
    } else {
        assert(channels_upto(rays, shallow, n) =~= ravines_at(rays, sites_upto(rays, shallow, n)));
    }
}

/// The site is a probe of the first `n` buckets that looks into a visible channel
/// at least `least` deep.
pub open spec fn shows_channel(
    rays: Seq<Vec<Probe>>,
    least: Double,
    n: int,
    site: (int, int),
) -> bool {
    &&& 0 <= site.0 < n
    &&& 0 <= site.1 < rays[site.0].len()
    &&& incised(rays[site.0]@, site.1, least)
}

/// Ravine samples come by bucket and, within one, nearest first; each visible
/// channel that is deep enough is reported once.
pub proof fn ravines_come_in_order(rays: Seq<Vec<Probe>>, least: Double, n: int)
    requires
        0 <= n <= rays.len(),
    ensures
        channels_upto(rays, least, n) == ravines_at(rays, sites_upto(rays, least, n)),
        forall|i: int, j: int|
            #![trigger sites_upto(rays, least, n)[i], sites_upto(rays, least, n)[j]]
            0 <= i < j < sites_upto(rays, least, n).len() ==> {
                let (a, b) = (sites_upto(rays, least, n)[i], sites_upto(rays, least, n)[j]);
                a.0 < b.0 || a.0 == b.0 && a.1 < b.1
            },
        forall|site: (int, int)| #[trigger]
            sites_upto(rays, least, n).contains(site) == shows_channel(rays, least, n, site),
{
    lemma_sites_as_deep(rays, least, least, n);
    lemma_sites_in_order(rays, least, n);
}

/// Along every ray each probe lies farther out than the one before.
pub open spec fn marches_out(rays: Seq<Vec<Probe>>) -> bool {
    forall|b: int, i: int, j: int|
        #![trigger rays[b]@[i], rays[b]@[j]]
        0 <= b < rays.len() && 0 <= i < j < rays[b].len() ==> rays[b]@[i].dist.below(
            rays[b]@[j].dist,
        )
}

/// Where rays are probed outwards, ravine samples are ordered by bucket and then
/// strictly by distance, so that no two are the same.
pub proof fn ravines_are_strictly_ordered(rays: Seq<Vec<Probe>>, least: Double, n: int)
    requires
        0 <= n <= rays.len(),
        n <= usize::MAX,
        marches_out(rays),
    ensures
        forall|i: int, j: int|
            #![trigger channels_upto(rays, least, n)[i], channels_upto(rays, least, n)[j]]
            0 <= i < j < channels_upto(rays, least, n).len() ==> {
                let (a, b) = (channels_upto(rays, least, n)[i], channels_upto(rays, least, n)[j]);
                a.bucket < b.bucket < n || a.bucket == b.bucket < n && a.dist.below(b.dist)
            },
{
    let at = sites_upto(rays, least, n);
    let out = channels_upto(rays, least, n);
    ravines_come_in_order(rays, least, n);
    assert forall|i: int, j: int|
        #![trigger out[i], out[j]]
        0 <= i < j < out.len() implies out[i].bucket < out[j].bucket < n || out[i].bucket
        == out[j].bucket < n && out[i].dist.below(out[j].dist) by {
        assert(at.contains(at[i]) && at.contains(at[j]));
        assert(out[i] == ravine_at(rays, at[i]) && out[j] == ravine_at(rays, at[j]));
        let (p, q) = (rays[at[i].0]@[at[i].1], rays[at[j].0]@[at[j].1]);
        assert(p.dist == out[i].dist && q.dist == out[j].dist);
    }
}

proof fn lemma_sites_in_order(rays: Seq<Vec<Probe>>, least: Double, n: int)
    requires
        0 <= n <= rays.len(),
    ensures
        forall|i: int, j: int|
            #![trigger sites_upto(rays, least, n)[i], sites_upto(rays, least, n)[j]]
            0 <= i < j < sites_upto(rays, least, n).len() ==> {
                let (a, b) = (sites_upto(rays, least, n)[i], sites_upto(rays, least, n)[j]);
                a.0 < b.0 || a.0 == b.0 && a.1 < b.1
            },
        forall|site: (int, int)| #[trigger]
            sites_upto(rays, least, n).contains(site) == shows_channel(rays, least, n, site),
    decreases n,
{
    let all = sites_upto(rays, least, n);
    if n > 0 {
        lemma_sites_in_order(rays, least, n - 1);
        let before = sites_upto(rays, least, n - 1);
        let ray = rays[n - 1]@;
        let here = sites(ray, n - 1, least);
        lemma_sites_of_ray(ray, n - 1, least);
        assert forall|i: int| 0 <= i < before.len() implies 0 <= (#[trigger] before[i]).0 < n - 1 by {
            assert(before.contains(before[i]));
        }
        assert forall|site: (int, int)| #[trigger]
            all.contains(site) == shows_channel(rays, least, n, site) by {
            if all.contains(site) {
                let k = choose|k: int| 0 <= k < all.len() && all[k] == site;
                if k < before.len() {
                    assert(before[k] == site);
                    assert(before.contains(site));
                } else {
                    assert(here[k - before.len()] == site);
                }
            }
            if shows_channel(rays, least, n, site) {
                if site.0 < n - 1 {
                    assert(before.contains(site));
                    let k = choose|k: int| 0 <= k < before.len() && before[k] == site;
                    assert(all[k] == site);
                } else {
                    assert(incised(ray, site.1, least));
                    assert(here.contains((n - 1, site.1)));
                    let k = choose|k: int| 0 <= k < here.len() && here[k] == (n - 1, site.1);
                    assert(all[before.len() + k] == site);
                }
            }
        }
    }
}

proof fn lemma_sites_of_ray(ray: Seq<Probe>, bucket: int, least: Double)
    ensures
        forall|i: int, j: int|
            #![trigger sites(ray, bucket, least)[i], sites(ray, bucket, least)[j]]
            0 <= i < j < sites(ray, bucket, least).len() ==> sites(ray, bucket, least)[i].1
                < sites(ray, bucket, least)[j].1,
        forall|i: int|
            0 <= i < sites(ray, bucket, least).len() ==> {
                let site = #[trigger] sites(ray, bucket, least)[i];
                site.0 == bucket && 0 <= site.1 < ray.len() && incised(ray, site.1, least)
            },
        forall|j: int|
            0 <= j < ray.len() && #[trigger] incised(ray, j, least) ==> sites(
                ray,
                bucket,
                least,
            ).contains((bucket, j)),
    decreases ray.len(),
{
    if ray.len() > 0 {
        let near = ray.drop_last();
        lemma_sites_of_ray(near, bucket, least);
        let at = sites(ray, bucket, least);
        let old_at = sites(near, bucket, least);
        assert forall|j: int| 0 <= j < near.len() implies incised(near, j, least) == #[trigger] incised(
            ray,
            j,
            least,
        ) by {
            assert(near.take(j) =~= ray.take(j));
            assert(near[j] == ray[j]);
        }
        assert forall|i: int| 0 <= i < at.len() implies {
            let site = #[trigger] at[i];
            site.0 == bucket && 0 <= site.1 < ray.len() && incised(ray, site.1, least)
        } by {
            if i < old_at.len() {
                assert(at[i] == old_at[i]);
            }
        }
        assert forall|j: int| 0 <= j < ray.len() && #[trigger] incised(ray, j, least) implies at.contains(
            (bucket, j),
        ) by {
            if j < near.len() {
                assert(incised(near, j, least));
                let k = choose|k: int| 0 <= k < old_at.len() && old_at[k] == (bucket, j);
                assert(at[k] == (bucket, j));
            } else {
                assert(at[at.len() - 1] == (bucket, j));
            }
        }
    }
}

/// How much of a fell can be seen from the viewpoint.
#[derive(Debug, Clone, Copy, PartialEq, Eq, Structural)]
pub enum Visibility {
    /// The summit itself clears the skyline.
    Summit,
    /// The summit is hidden behind a nearer ridge, but that ridge sits close to
    /// the peak (its own shoulder) — so the fell's slopes are in view.
    Slopes,
}

/// A summit as the viewpoint sees it.
#[derive(Debug, Clone, Copy)]
pub struct Sighting {
    /// Compass bearing in (rounded) tenths of a degree.
    pub tenths: usize,
    /// Horizontal distance (m).
    pub dist: Double,
    /// Apparent elevation of the summit plus the tolerance that absorbs height
    /// and bearing differences (radians).
    pub raised: Double,
    /// How far behind the skyline ridge the summit stands (m); negative where
    /// the ridge is the farther one.
    pub behind: Double,
}

impl Sighting {
    /// The skyline ridge is nearer than the summit, by a massif's gap at most.
    pub open spec fn hides_close(self) -> bool {
        &&& (Double { bits: 0 }).at_most(self.behind)
        &&& self.behind.at_most(Double { bits: MASSIF_GAP_BITS })
    }
}

/// Whether and how a summit shows above the skyline.
pub open spec fn sees(horizon: Horizon, s: Sighting) -> Option<Visibility> {
    let ridge = horizon.elev_rad@[s.tenths as int % crate::horizon::AZIMUTH_BUCKETS as int];
    if s.dist.below(Double { bits: OWN_SUMMIT_BITS }) {
        None
    } else if ridge.at_most_double(s.raised) {
        Some(Visibility::Summit)
    } else if s.hides_close() {
        Some(Visibility::Slopes)
    } else {
        None
    }
}

/// The summits among the first `n` sightings that show, in order.
pub open spec fn seen(horizon: Horizon, sightings: Seq<Sighting>) -> Seq<(usize, Visibility)>
    decreases sightings.len(),
{
    if sightings.len() == 0 {
        Seq::empty()
    } else {
        let before = seen(horizon, sightings.drop_last());
        match sees(horizon, sightings.last()) {
            Some(v) => before.push(((sightings.len() - 1) as usize, v)),
            None => before,
        }
    }
}

/// Which of the sighted summits are visible above the cast skyline: those whose
/// summit reaches the horizon at its bearing, and those hidden only by their own
/// near shoulder. Positions into `sightings`, in order.
pub fn visible_peaks(horizon: &Horizon, sightings: &Vec<Sighting>) -> (out: Vec<
    (usize, Visibility),
>)
    requires
        horizon.complete(),
    ensures
        out@ == seen(*horizon, sightings@),
{
    let mut out: Vec<(usize, Visibility)> = Vec::new();
    let mut i: usize = 0;
    while i < sightings.len()
        invariant
            horizon.complete(),
            i <= sightings.len(),
            out@ == seen(*horizon, sightings@.take(i as int)),
        decreases sightings.len() - i,
    {
        let s = sightings[i];
        proof {
            assert(sightings@.take(i as int + 1).drop_last() =~= sightings@.take(i as int));
        }
        if !s.dist.lt(Double { bits: OWN_SUMMIT_BITS }) {
            if horizon.at_bearing_deg(s.tenths).le_double(s.raised) {
                out.push((i, Visibility::Summit));
            } else if (Double { bits: 0 }).le(s.behind) && s.behind.le(
                Double { bits: MASSIF_GAP_BITS },
            ) {
                out.push((i, Visibility::Slopes));
            }
        }
        i = i + 1;
    }
    proof {
        assert(sightings@.take(i as int) =~= sightings@);
    }
    out
}

/// A summit that does not clear the skyline is seen only where the ridge that
/// hides it is nearer, and close to it; one that stands before the ridge is not.
pub proof fn slopes_hide_behind_a_close_ridge(horizon: Horizon, s: Sighting)
    ensures
        sees(horizon, s) == Some(Visibility::Slopes) ==> s.hides_close(),
        s.behind.below(Double { bits: 0 }) ==> sees(horizon, s) != Some(Visibility::Slopes),
{
}

proof fn lemma_seen(horizon: Horizon, sightings: Seq<Sighting>)
    requires
        sightings.len() <= usize::MAX,
    ensures
        forall|k: int|
            0 <= k < seen(horizon, sightings).len() ==> {
                let (i, v) = #[trigger] seen(horizon, sightings)[k];
                i < sightings.len() && sees(horizon, sightings[i as int]) == Some(v)
            },
        forall|i: int|
            0 <= i < sightings.len() && (#[trigger] sees(horizon, sightings[i])) is Some ==> seen(
                horizon,
                sightings,
            ).contains((i as usize, sees(horizon, sightings[i])->Some_0)),
        forall|j: int, k: int|
            #![trigger seen(horizon, sightings)[j], seen(horizon, sightings)[k]]
            0 <= j < k < seen(horizon, sightings).len() ==> seen(horizon, sightings)[j].0 < seen(
                horizon,
                sightings,
            )[k].0,
    decreases sightings.len(),
{
    if sightings.len() > 0 {
        let near = sightings.drop_last();
        lemma_seen(horizon, near);
        let (a, b) = (seen(horizon, near), seen(horizon, sightings));
        assert forall|k: int| 0 <= k < b.len() implies {
            let (i, v) = #[trigger] b[k];
            i < sightings.len() && sees(horizon, sightings[i as int]) == Some(v)
        } by {
            if k < a.len() {
                assert(b[k] == a[k]);
                assert(near[a[k].0 as int] == sightings[a[k].0 as int]);
            }
        }
        assert forall|i: int| 0 <= i < sightings.len() && (#[trigger] sees(horizon, sightings[i])) is Some implies b.contains(
            (i as usize, sees(horizon, sightings[i])->Some_0),
        ) by {
            let entry = (i as usize, sees(horizon, sightings[i])->Some_0);
            if i < near.len() {
                assert(near[i] == sightings[i]);
                assert(sees(horizon, near[i]) is Some);
                let k = choose|k: int| 0 <= k < a.len() && a[k] == entry;
                assert(b[k] == entry);
            } else {
                assert(b[b.len() - 1] == entry);
            }
        }
        assert forall|j: int, k: int|
            #![trigger b[j], b[k]]
            0 <= j < k < b.len() implies b[j].0 < b[k].0 by {
            assert(b[j] == a[j]);
            if k < a.len() {
                assert(b[k] == a[k]);
            }
        }
    }
}

/// A summit at least 30 m away is reported as seen over the skyline exactly where
/// its raised elevation reaches the horizon at its own bearing, and by its slopes
/// exactly where it does not and the ridge stands 0 to 1500 m before it. Each is
/// reported once, in the order of the sightings.
pub proof fn summits_are_held_against_their_own_bearing(
    horizon: Horizon,
    sightings: Seq<Sighting>,
    i: usize,
)
    requires
        i < sightings.len() <= usize::MAX,
    ensures
        ({
            let s = sightings[i as int];
            let away = !s.dist.below(Double { bits: 0x403e_0000_0000_0000 });
            let over = horizon.elev_rad@[s.tenths as int % 3600].at_most_double(s.raised);
            let close = (Double { bits: 0 }).at_most(s.behind) && s.behind.at_most(
                Double { bits: 0x4097_7000_0000_0000 },
            );
            let out = seen(horizon, sightings);
            &&& out.contains((i, Visibility::Summit)) <==> away && over
            &&& out.contains((i, Visibility::Slopes)) <==> away && !over && close
        }),
        forall|j: int, k: int|
            #![trigger seen(horizon, sightings)[j], seen(horizon, sightings)[k]]
            0 <= j < k < seen(horizon, sightings).len() ==> seen(horizon, sightings)[j].0 < seen(
                horizon,
                sightings,
            )[k].0 < sightings.len(),
{
    lemma_seen(horizon, sightings);
    let out = seen(horizon, sightings);
    let s = sightings[i as int];
    if let Some(v) = sees(horizon, s) {
        assert(out.contains((i, v)));
    }
    if out.contains((i, Visibility::Summit)) {
        let k = choose|k: int| 0 <= k < out.len() && out[k] == (i, Visibility::Summit);
        assert(sees(horizon, sightings[out[k].0 as int]) == Some(out[k].1));
    }
    if out.contains((i, Visibility::Slopes)) {
        let k = choose|k: int| 0 <= k < out.len() && out[k] == (i, Visibility::Slopes);
        assert(sees(horizon, sightings[out[k].0 as int]) == Some(out[k].1));
    }
}

/// The depth of a probe is at least every one of its cuts that is a number, and is
/// itself one of them: the first that no other exceeds. Where no cut is above the
/// most negative number, it is that.
pub proof fn deepest_is_the_maximum(depths: Seq<Depth>)
    ensures
        !deepest(depths).wide.nan(),
        forall|i: int|
            0 <= i < depths.len() && !(#[trigger] depths[i]).wide.nan() ==> depths[i].wide.at_most(
                deepest(depths).wide,
            ),
        ({
            ||| exists|i: int|
                0 <= i < depths.len() && #[trigger] depths[i] == deepest(depths) && forall|j: int|
                    0 <= j < i && !(#[trigger] depths[j]).wide.nan() ==> depths[j].wide.below(
                        depths[i].wide,
                    )
            ||| deepest(depths) == (Depth {
                wide: Double { bits: DOUBLE_MIN_BITS },
                narrow: Single { bits: NEG_INFINITY_BITS },
            })
        }),
    decreases depths.len(),
{
    if depths.len() > 0 {
        let near = depths.drop_last();
        let n = depths.len() - 1;
        deepest_is_the_maximum(near);
        let (d, e) = (deepest(near), deepest(depths));
        assert forall|i: int| 0 <= i < depths.len() && !(#[trigger] depths[i]).wide.nan() implies depths[i].wide.at_most(
            e.wide,
        ) by {
            if i < n {
                assert(near[i] == depths[i]);
            }
        }
        if d.wide.below(depths[n].wide) {
            assert(depths[n] == e);
            assert forall|j: int| 0 <= j < n && !(#[trigger] depths[j]).wide.nan() implies depths[j].wide.below(
                depths[n].wide,
            ) by {
                assert(near[j] == depths[j]);
            }
        } else if exists|i: int|
            0 <= i < near.len() && #[trigger] near[i] == d && forall|j: int|
                0 <= j < i && !(#[trigger] near[j]).wide.nan() ==> near[j].wide.below(near[i].wide) {
            let i = choose|i: int|
                0 <= i < near.len() && #[trigger] near[i] == d && forall|j: int|
                    0 <= j < i && !(#[trigger] near[j]).wide.nan() ==> near[j].wide.below(near[i].wide);
            assert(depths[i] == e);
            assert forall|j: int| 0 <= j < i && !(#[trigger] depths[j]).wide.nan() implies depths[j].wide.below(
                depths[i].wide,
            ) by {
                assert(near[j] == depths[j]);
            }
        }
    }
}

/// The silhouette of a ray is its highest probe, the nearest of equals: its angle
/// and its lowered angle.
pub proof fn silhouette_is_the_highest_probe(ray: Seq<Probe>, j: int)
    requires
        0 <= j < ray.len(),
        (Double { bits: NADIR_BITS }).below(ray[j].angle),
        forall|i: int|
            0 <= i < j && !(#[trigger] ray[i]).angle.nan() ==> ray[i].angle.below(ray[j].angle),
        forall|i: int|
            j < i < ray.len() && !(#[trigger] ray[i]).angle.nan() ==> ray[i].angle.at_most(
                ray[j].angle,
            ),
    ensures
        outline(ray).0 == ray[j].angle,
        outline(ray).1 == ray[j].lowered,
    decreases ray.len(),
{
    let near = ray.drop_last();
    let last = ray.len() - 1;
    assert(ray[last] == ray.last());
    if j < last {
        assert(forall|i: int| 0 <= i < near.len() ==> #[trigger] near[i] == ray[i]);
        silhouette_is_the_highest_probe(near, j);
    } else {
        lemma_outline_is_a_probe(near);
        if outline(near).0 != (Double { bits: NADIR_BITS }) {
            let i = choose|i: int| 0 <= i < near.len() && (#[trigger] near[i]).angle == outline(near).0;
            assert(ray[i] == near[i]);
        }
    }
}

proof fn lemma_outline_is_a_probe(ray: Seq<Probe>)
    ensures
        !outline(ray).0.nan(),
        outline(ray).0 == (Double { bits: NADIR_BITS }) || exists|i: int|
            0 <= i < ray.len() && (#[trigger] ray[i]).angle == outline(ray).0,
    decreases ray.len(),
{
    if ray.len() > 0 {
        let near = ray.drop_last();
        lemma_outline_is_a_probe(near);
        if outline(near).0 != (Double { bits: NADIR_BITS }) {
            let i = choose|i: int| 0 <= i < near.len() && (#[trigger] near[i]).angle == outline(near).0;
            assert(ray[i] == near[i]);
        }
        assert(ray[ray.len() - 1] == ray.last());
    }
}

/// Before anything rises above the floor, the floor is the silhouette.
pub proof fn silhouette_starts_at_the_floor(ray: Seq<Probe>)
    requires
        forall|i: int|
            0 <= i < ray.len() ==> !(Double { bits: NADIR_BITS }).below((#[trigger] ray[i]).angle),
    ensures
        outline(ray).0 == (Double { bits: NADIR_BITS }),
        outline(ray).1 == (Double { bits: SUNK_NADIR_BITS }),
    decreases ray.len(),
{
    if ray.len() > 0 {
        let near = ray.drop_last();
        assert(forall|i: int| 0 <= i < near.len() ==> #[trigger] near[i] == ray[i]);
        silhouette_starts_at_the_floor(near);
        assert(ray[ray.len() - 1] == ray.last());
    }
}

/// Where probe `j` is the highest before probe `k`, a channel at `k` shows exactly
/// if its angle is no lower than the lowered angle of `j` and its deepest cut is at
/// least as deep as was asked for.
pub proof fn channels_show_over_the_silhouette(ray: Seq<Probe>, j: int, k: int, least: Double)
    requires
        0 <= j < k < ray.len(),
        (Double { bits: NADIR_BITS }).below(ray[j].angle),
        forall|i: int|
            0 <= i < j && !(#[trigger] ray[i]).angle.nan() ==> ray[i].angle.below(ray[j].angle),
        forall|i: int|
            j < i < k && !(#[trigger] ray[i]).angle.nan() ==> ray[i].angle.at_most(ray[j].angle),
    ensures
        incised(ray, k, least) <==> ray[j].lowered.at_most(ray[k].angle) && least.at_most(
            deepest(ray[k].depths@).wide,
        ),
{
    let near = ray.take(k);
    assert(forall|i: int| 0 <= i < near.len() ==> #[trigger] near[i] == ray[i]);
    silhouette_is_the_highest_probe(near, j);
}

/// Sample `j`, in terms of the ray alone: water that is no lower than the floor nor
/// than any sample before it.
pub proof fn water_shows_where_nothing_nearer_is_higher(ray: Seq<WaterSample>, j: int)
    requires
        0 <= j < ray.len(),
    ensures
        surfaces(ray, j) <==> {
            &&& ray[j].wet
            &&& (Single { bits: NADIR_SINGLE_BITS }).at_most(ray[j].angle)
            &&& forall|i: int|
                0 <= i < j && !(#[trigger] ray[i]).angle.nan() ==> ray[i].angle.at_most(ray[j].angle)
        },
{
}

proof fn lemma_surfaces_shorter(ray: Seq<WaterSample>, i: int)
    requires
        0 <= i < ray.len() - 1,
    ensures
        surfaces(ray, i) == surfaces(ray.drop_last(), i),
{
    let near = ray.drop_last();
    assert(near.push(ray.last()) =~= ray);
    if surfaces(near, i) {
        lemma_surfaces_extends(near, ray.last(), i);
    }
    if surfaces(ray, i) {
        assert forall|k: int| 0 <= k < i && !(#[trigger] near[k]).angle.nan() implies near[k].angle.at_most(
            near[i].angle,
        ) by {
            assert(near[k] == ray[k]);
        }
    }
}

proof fn lemma_open_band(ray: Seq<WaterSample>)
    ensures
        0 <= bands(ray).gap <= MAX_GAP,
        bands(ray).open_band is Some ==> {
            let i = ray.len() - 1 - bands(ray).gap;
            &&& 0 <= i < ray.len()
            &&& surfaces(ray, i)
            &&& forall|j: int| i < j < ray.len() ==> !#[trigger] surfaces(ray, j)
        },
        bands(ray).open_band is None ==> bands(ray).gap == 0 && forall|j: int|
            0 <= j < ray.len() && ray.len() - 1 - MAX_GAP <= j ==> !#[trigger] surfaces(ray, j),
    decreases ray.len(),
{
    if ray.len() > 0 {
        let near = ray.drop_last();
        let s = bands(near);
        lemma_open_band(near);
        assert forall|i: int| 0 <= i < near.len() implies surfaces(near, i) == #[trigger] surfaces(
            ray,
            i,
        ) by {
            lemma_surfaces_shorter(ray, i);
        }
        if !surfaces(ray, ray.len() - 1) && s.open_band is Some {
            assert(surfaces(ray, near.len() - 1 - s.gap));
        }
    }
}

/// A sample that is not visible water leaves the bands as they are.
pub proof fn land_adds_no_band(ray: Seq<WaterSample>)
    requires
        ray.len() > 0,
        !surfaces(ray, ray.len() - 1),
    ensures
        water_bands(ray) == water_bands(ray.drop_last()),
{
}

/// Visible water at most five samples of land beyond other visible water widens
/// the last band to its own angle and leaves the others as they are.
pub proof fn a_short_gap_is_bridged(ray: Seq<WaterSample>, i: int)
    requires
        0 <= i < ray.len() - 1,
        ray.len() - 1 - i <= 6,
        surfaces(ray, i),
        surfaces(ray, ray.len() - 1),
    ensures
        ({
            let before = water_bands(ray.drop_last());
            let after = water_bands(ray);
            let a = ray.last().angle;
            &&& before.len() > 0
            &&& after.len() == before.len()
            &&& after.drop_last() == before.drop_last()
            &&& after.last().0 == before.last().0.larger(a)
            &&& after.last().1 == before.last().1.smaller(a)
        }),
{
    let near = ray.drop_last();
    lemma_open_band(near);
    lemma_surfaces_shorter(ray, i);
    assert(bands(near).open_band is Some);
    assert(water_bands(ray).drop_last() =~= bands(ray).done);
    assert(water_bands(near).drop_last() =~= bands(near).done);
}

/// Visible water with more than five samples of land before it, or none but land,
/// starts a band of its own.
pub proof fn a_long_gap_parts_lakes(ray: Seq<WaterSample>)
    requires
        ray.len() > 0,
        surfaces(ray, ray.len() - 1),
        forall|i: int|
            0 <= i < ray.len() - 1 && ray.len() - 1 - i <= 6 ==> !#[trigger] surfaces(ray, i),
    ensures
        water_bands(ray) == water_bands(ray.drop_last()).push((ray.last().angle, ray.last().angle)),
{
    let near = ray.drop_last();
    lemma_open_band(near);
    if bands(near).open_band is Some {
        let i = near.len() - 1 - bands(near).gap;
        lemma_surfaces_shorter(ray, i);
        assert(!surfaces(ray, i));
    }
}

/// From a viewpoint outside coverage no ravine is seen; from any other those of all rays are,
/// and only they.
pub proof fn ravines_need_coverage(
    ground: Option<Double>,
    rays: &Vec<Vec<Probe>>,
    least: Double,
    out: Vec<Ravine>,
    b: int,
    j: int,
)
    requires
        call_ensures(ravines, (ground, rays, least), out),
        0 <= b < rays.len(),
        0 <= j < rays@[b].len(),
    ensures
        ground is None ==> out.len() == 0,
        ground is Some && incised(rays@[b]@, j, least) ==> out@.contains(
            Ravine {
                bucket: b as usize,
                elev: rays@[b]@[j].elev,
                depth: deepest(rays@[b]@[j].depths@).narrow,
                dist: rays@[b]@[j].dist,
            },
        ),
{
    let n = rays.len() as int;
    ravines_come_in_order(rays@, least, n);
    if ground is Some && incised(rays@[b]@, j, least) {
        let at = sites_upto(rays@, least, n);
        assert(shows_channel(rays@, least, n, (b, j)));
        assert(at.contains((b, j)));
        let k = choose|k: int| 0 <= k < at.len() && at[k] == (b, j);
        assert(out@[k] == ravine_at(rays@, at[k]));
    }
}

/// Water is looked for ray by ray.
pub proof fn water_is_seen_ray_by_ray(
    rays: &Vec<Vec<WaterSample>>,
    out: Vec<Vec<(Single, Single)>>,
    b: int,
)
    requires
        call_ensures(visible_water, (rays,), out),
        0 <= b < rays.len(),
    ensures
        out.len() == rays.len(),
        out@[b]@ == water_bands(rays@[b]@),
{
}

/// Summits are seen over their own bearing, whatever the list they come in: the raised
/// elevation of each is held against the horizon at its bearing, wrapped round the circle.
pub proof fn visible_summits_reach_their_horizon(
    horizon: &Horizon,
    sightings: &Vec<Sighting>,
    out: Vec<(usize, Visibility)>,
    i: usize,
)
    requires
        horizon.complete(),
        call_ensures(visible_peaks, (horizon, sightings), out),
        i < sightings.len(),
    ensures
        out@.contains((i, Visibility::Summit)) <==> {
            &&& !sightings@[i as int].dist.below(Double { bits: 0x403e_0000_0000_0000 })
            &&& horizon.elev_rad@[sightings@[i as int].tenths as int % 3600].at_most_double(
                sightings@[i as int].raised,
            )
        },
{
    summits_are_held_against_their_own_bearing(*horizon, sightings@, i);
}

}

//! The skyline: what the terrain samples along each ray say about what can be
//! seen from a viewpoint.
//!
//! A ray is a list of samples, nearest first. Each sample comes with the
//! apparent elevation angle of the terrain there; the terrain shows wherever
//! that angle exceeds every nearer one.

use vstd::prelude::*;
use crate::ieee::{Double, Single};

verus! {

/// 3600 buckets = 0.1° resolution over the full 360°.
pub const AZIMUTH_BUCKETS: usize = 3600;

/// -π/2 in binary64: looking at nothing.
pub const NADIR_BITS: u64 = 0xbff9_21fb_5444_2d18;

/// -π/2 in binary32.
pub const NADIR_SINGLE_BITS: u32 = 0xbfc9_0fdb;

/// Negative infinity in binary32.
pub const NEG_INFINITY_BITS: u32 = 0xff80_0000;

pub open spec fn nadir() -> Double {
    Double { bits: NADIR_BITS }
}

pub open spec fn nadir_single() -> Single {
    Single { bits: NADIR_SINGLE_BITS }
}

/// The terrain at one distance along a ray.
#[derive(Debug, Clone, Copy)]
pub struct Sample {
    /// Apparent elevation angle (radians).
    pub angle: Double,
    /// The same angle, rounded to binary32.
    pub elev: Single,
    /// Horizontal distance (m), rounded to binary32.
    pub dist: Single,
    /// Rise over run from the sample before, never negative.
    pub slope: Single,
    /// How many of the ray's samples lie nearer than this one by more than the
    /// depth jump that makes a crest an occlusion edge.
    pub past: usize,
}

/// Sample `j` shows: it rises above the floor and above every sample before it.
pub open spec fn shows(ray: Seq<Sample>, j: int) -> bool {
    &&& nadir().below(ray[j].angle)
    &&& forall|i: int|
        0 <= i < j && !(#[trigger] ray[i]).angle.nan() ==> ray[i].angle.below(ray[j].angle)
}

/// The positions of the samples that show, nearest first.
pub open spec fn crests(ray: Seq<Sample>) -> Seq<int>
    decreases ray.len(),
{
    if ray.len() == 0 {
        Seq::empty()
    } else if shows(ray, ray.len() - 1) {
        crests(ray.drop_last()).push(ray.len() - 1)
    } else {
        crests(ray.drop_last())
    }
}

/// The crests that end in a depth jump: the next crest beyond them is much
/// farther out, so one sees past them to a distant fell.
pub open spec fn edge_crests(ray: Seq<Sample>) -> Seq<int>
    decreases ray.len(),
{
    if ray.len() == 0 {
        Seq::empty()
    } else {
        let near = ray.drop_last();
        let c = crests(near);
        if shows(ray, ray.len() - 1) && c.len() > 0 && c.last() < ray.last().past {
            edge_crests(near).push(c.last())
        } else {
            edge_crests(near)
        }
    }
}

/// The elevation of the skyline along a ray: that of its last crest, or the
/// floor where nothing shows.
pub open spec fn skyline(ray: Seq<Sample>) -> Single {
    if crests(ray).len() == 0 {
        nadir_single()
    } else {
        ray[crests(ray).last()].elev
    }
}

/// How far away the ridge that forms the skyline is; zero where nothing shows.
pub open spec fn skyline_dist(ray: Seq<Sample>) -> Single {
    if crests(ray).len() == 0 {
        Single { bits: 0 }
    } else {
        ray[crests(ray).last()].dist
    }
}

/// The angle a sample has to exceed to show, after the samples of `ray`.
spec fn silhouette(ray: Seq<Sample>) -> Double {
    if crests(ray).len() == 0 {
        nadir()
    } else {
        ray[crests(ray).last()].angle
    }
}

proof fn lemma_silhouette(ray: Seq<Sample>)
    ensures
        forall|k: int| 0 <= k < crests(ray).len() ==> 0 <= #[trigger] crests(ray)[k] < ray.len(),
        nadir().at_most(silhouette(ray)),
        forall|i: int|
            0 <= i < ray.len() && !(#[trigger] ray[i]).angle.nan() ==> ray[i].angle.at_most(
                silhouette(ray),
            ),
    decreases ray.len(),
{
    if ray.len() > 0 {
        lemma_silhouette(ray.drop_last());
        lemma_shows(ray.drop_last(), ray.last());
        assert(ray.drop_last().push(ray.last()) =~= ray);
        let near = ray.drop_last();
        assert forall|i: int| 0 <= i < ray.len() && !(#[trigger] ray[i]).angle.nan() implies ray[i].angle.at_most(
            silhouette(ray),
        ) by {
            if i < near.len() {
                assert(near[i] == ray[i]);
            }
        }
    }
}

proof fn lemma_shows(near: Seq<Sample>, next: Sample)
    requires
        forall|k: int| 0 <= k < crests(near).len() ==> 0 <= #[trigger] crests(near)[k] < near.len(),
        nadir().at_most(silhouette(near)),
        forall|i: int|
            0 <= i < near.len() && !(#[trigger] near[i]).angle.nan() ==> near[i].angle.at_most(
                silhouette(near),
            ),
    ensures
        shows(near.push(next), near.len() as int) == silhouette(near).below(next.angle),
{
    let ray = near.push(next);
    if silhouette(near).below(next.angle) {
        assert forall|i: int| 0 <= i < near.len() && !(#[trigger] ray[i]).angle.nan() implies ray[i].angle.below(
            next.angle,
        ) by {
            assert(near[i] == ray[i]);
        }
    }
    if shows(ray, near.len() as int) && crests(near).len() > 0 {
        let c = crests(near).last();
        assert(crests(near)[crests(near).len() - 1] == c);
        assert(ray[c].angle == silhouette(near));
    }
}

/// What one ray adds to the horizon.
pub struct RayView {
    pub elev: Single,
    pub dist: Single,
    pub edges: Vec<(Single, Single)>,
    pub profile: Vec<(Single, Single)>,
}

/// The `(elevation, distance)` pairs of the ray's occlusion edges.
pub open spec fn edge_view(ray: Seq<Sample>) -> Seq<(Single, Single)> {
    edge_crests(ray).map_values(|c: int| (ray[c].elev, ray[c].dist))
}

/// The `(elevation, steepness)` pairs of the ray's visible faces.
pub open spec fn profile_view(ray: Seq<Sample>) -> Seq<(Single, Single)> {
    crests(ray).map_values(|c: int| (ray[c].elev, ray[c].slope))
}

/// Walk a ray outwards and record what shows.
pub fn scan_ray(ray: &Vec<Sample>) -> (v: RayView)
    ensures
        v.elev == skyline(ray@),
        v.dist == skyline_dist(ray@),
        v.edges@ == edge_view(ray@),
        v.profile@ == profile_view(ray@),
{
    let mut best: Option<usize> = None;
    let mut max_elev = Double { bits: NADIR_BITS };
    let mut edges: Vec<(Single, Single)> = Vec::new();
    let mut profile: Vec<(Single, Single)> = Vec::new();
    let mut j: usize = 0;
    while j < ray.len()
        invariant
            j <= ray.len(),
            max_elev == silhouette(ray@.take(j as int)),
            match best {
                None => crests(ray@.take(j as int)).len() == 0,
                Some(b) => b < j && crests(ray@.take(j as int)).len() > 0 && crests(
                    ray@.take(j as int),
                ).last() == b,
            },
            edges@ == edge_view(ray@.take(j as int)),
            profile@ == profile_view(ray@.take(j as int)),
        decreases ray.len() - j,
    {
        let s = ray[j];
        let ghost near = ray@.take(j as int);
        let ghost next = ray@.take(j as int + 1);
        proof {
            assert(next.drop_last() =~= near);
            assert(next =~= near.push(s));
            lemma_silhouette(near);
            lemma_shows(near, s);
            lemma_edge_crests(near);
            assert(edge_crests(near).map_values(|c: int| (next[c].elev, next[c].dist)) =~= edge_view(near));
            assert(crests(near).map_values(|c: int| (next[c].elev, next[c].slope)) =~= profile_view(near));
        }
        if max_elev.lt(s.angle) {
            if let Some(b) = best {
                if b < s.past {
                    edges.push((ray[b].elev, ray[b].dist));
                }
            }
            profile.push((s.elev, s.slope));
            max_elev = s.angle;
            best = Some(j);
        }
        proof {
            assert(edges@ =~= edge_view(next));
            assert(profile@ =~= profile_view(next));
        }
        j = j + 1;
    }
    proof {
        assert(ray@.take(j as int) =~= ray@);
    }
    match best {
        None => RayView {
            elev: Single { bits: NADIR_SINGLE_BITS },
            dist: Single { bits: 0 },
            edges,
            profile,
        },
        Some(b) => RayView { elev: ray[b].elev, dist: ray[b].dist, edges, profile },
    }
}

proof fn lemma_edge_crests(ray: Seq<Sample>)
    ensures
        forall|k: int|
            0 <= k < edge_crests(ray).len() ==> 0 <= #[trigger] edge_crests(ray)[k] < ray.len(),
    decreases ray.len(),
{
    if ray.len() > 0 {
        lemma_edge_crests(ray.drop_last());
        lemma_silhouette(ray.drop_last());
        let c = crests(ray.drop_last());
        if c.len() > 0 {
            assert(c[c.len() - 1] == c.last());
        }
        let e = edge_crests(ray.drop_last());
        assert forall|k: int| 0 <= k < edge_crests(ray).len() implies 0 <= #[trigger] edge_crests(
            ray,
        )[k] < ray.len() by {
            if k < e.len() {
                assert(edge_crests(ray)[k] == e[k]);
            }
        }
    }
}

/// A computed skyline, per 0.1° azimuth bucket: index 0 is due north,
/// increasing clockwise.
pub struct Horizon {
    /// Apparent elevation angle (radians). Buckets the ray never hit hold the
    /// "looking at nothing" floor of −π/2.
    pub elev_rad: Vec<Single>,
    /// Horizontal distance (m) at which each bucket's skyline point sits.
    pub dist_m: Vec<Single>,
    /// (elevation radians, distance m) of the occlusion edges below the
    /// skyline: nearer ridge crests superseded by a much farther, higher fell.
    pub edges: Vec<Vec<(Single, Single)>>,
    /// The visible surface profile, low angle to high: one entry
    /// `(elev_rad, steepness)` per visible crest.
    pub profile: Vec<Vec<(Single, Single)>>,
    /// Ground elevation sampled at the viewpoint (m).
    pub eye_ground_m: Double,
}

/// The horizon that `rays` give.
pub open spec fn cast_from(h: Horizon, rays: Seq<Vec<Sample>>) -> bool {
    &&& h.elev_rad.len() == rays.len()
    &&& h.dist_m.len() == rays.len()
    &&& h.edges.len() == rays.len()
    &&& h.profile.len() == rays.len()
    &&& forall|i: int|
        #![trigger h.elev_rad@[i]]
        #![trigger h.dist_m@[i]]
        #![trigger h.edges@[i]]
        #![trigger h.profile@[i]]
        0 <= i < rays.len() ==> {
            &&& h.elev_rad@[i] == skyline(rays[i]@)
            &&& h.dist_m@[i] == skyline_dist(rays[i]@)
            &&& h.edges@[i]@ == edge_view(rays[i]@)
            &&& h.profile@[i]@ == profile_view(rays[i]@)
        }
}

/// Cast the horizon from the samples of its rays, one ray per azimuth bucket.
/// `None` if the viewpoint itself is outside coverage (`ground` is `None`).
pub fn cast(ground: Option<Double>, rays: &Vec<Vec<Sample>>) -> (r: Option<Horizon>)
    requires
        rays.len() == AZIMUTH_BUCKETS,
    ensures
        r is Some == ground is Some,
        r matches Some(h) ==> h.complete() && cast_from(h, rays@) && Some(h.eye_ground_m) == ground,
{
    let eye_ground_m = match ground {
        None => return None,
        Some(g) => g,
    };
    let mut h = Horizon {
        elev_rad: Vec::new(),
        dist_m: Vec::new(),
        edges: Vec::new(),
        profile: Vec::new(),
        eye_ground_m,
    };
    let mut i: usize = 0;
    while i < rays.len()
        invariant
            i <= rays.len(),
            h.eye_ground_m == eye_ground_m,
            cast_from(h, rays@.take(i as int)),
        decreases rays.len() - i,
    {
        let v = scan_ray(&rays[i]);
        h.elev_rad.push(v.elev);
        h.dist_m.push(v.dist);
        h.edges.push(v.edges);
        h.profile.push(v.profile);
        i = i + 1;
    }
    proof {
        assert(rays@.take(i as int) =~= rays@);
    }
    Some(h)
}

/// The bucket that a signed count of buckets from north falls in.
pub fn bucket_of(b: i32) -> (r: usize)
    ensures
        r == b as int % AZIMUTH_BUCKETS as int,
        r < AZIMUTH_BUCKETS,
{
    let n: i64 = b as i64;
    if n >= 0 {
        (n % 3600) as usize
    } else {
        let m: i64 = (-n) % 3600;
        proof {
            assert((n + m) % 3600 == 0);
        }
        if m == 0 {
            0
        } else {
            (3600 - m) as usize
        }
    }
}

/// The position of the highest entry among the first `n`, the first of equals.
pub open spec fn highest_of(elev: Seq<Single>, n: int) -> int
    decreases n,
{
    if n <= 1 {
        0
    } else {
        let best = highest_of(elev, n - 1);
        if elev[best].below(elev[n - 1]) {
            n - 1
        } else {
            best
        }
    }
}

impl Horizon {
    /// One entry per azimuth bucket in every column.
    pub open spec fn complete(self) -> bool {
        &&& self.elev_rad.len() == AZIMUTH_BUCKETS
        &&& self.dist_m.len() == AZIMUTH_BUCKETS
        &&& self.edges.len() == AZIMUTH_BUCKETS
        &&& self.profile.len() == AZIMUTH_BUCKETS
    }

    /// Apparent elevation (radians) for a compass bearing in (rounded) tenths
    /// of a degree.
    pub fn at_bearing_deg(&self, tenths: usize) -> (r: Single)
        requires
            self.complete(),
        ensures
            r == self.elev_rad@[tenths as int % AZIMUTH_BUCKETS as int],
    {
        self.elev_rad[tenths % AZIMUTH_BUCKETS]
    }

    /// Distance (m) of the skyline ridge at a compass bearing in (rounded)
    /// tenths of a degree.
    pub fn dist_at_bearing_deg(&self, tenths: usize) -> (r: Single)
        requires
            self.complete(),
        ensures
            r == self.dist_m@[tenths as int % AZIMUTH_BUCKETS as int],
    {
        self.dist_m[tenths % AZIMUTH_BUCKETS]
    }

    /// The bucket of the highest skyline point.
    pub fn highest(&self) -> (r: usize)
        requires
            self.complete(),
        ensures
            r == highest_of(self.elev_rad@, AZIMUTH_BUCKETS as int),
            r < AZIMUTH_BUCKETS,
    {
        let mut bi: usize = 0;
        let mut i: usize = 1;
        while i < AZIMUTH_BUCKETS
            invariant
                self.complete(),
                bi < i <= AZIMUTH_BUCKETS,
                bi == highest_of(self.elev_rad@, i as int),
            decreases AZIMUTH_BUCKETS - i,
        {
            if self.elev_rad[bi].lt(self.elev_rad[i]) {
                bi = i;
            }
            i = i + 1;
        }
        bi
    }

    /// Per bucket: the highest occlusion edge, or negative infinity.
    pub fn edge_top(&self) -> (r: Vec<Single>)
        ensures
            r.len() == self.edges.len(),
            forall|b: int| 0 <= b < r.len() ==> #[trigger] r@[b] == top_edge(self.edges@[b]@),
    {
        let mut out: Vec<Single> = Vec::new();
        let mut b: usize = 0;
        while b < self.edges.len()
            invariant
                b <= self.edges.len(),
                out.len() == b,
                forall|k: int| 0 <= k < b ==> #[trigger] out@[k] == top_edge(self.edges@[k]@),
            decreases self.edges.len() - b,
        {
            let e = &self.edges[b];
            let mut top = Single { bits: NEG_INFINITY_BITS };
            let mut k: usize = 0;
            while k < e.len()
                invariant
                    k <= e.len(),
                    top == top_edge(e@.take(k as int)),
                decreases e.len() - k,
            {
                proof {
                    assert(e@.take(k as int + 1).drop_last() =~= e@.take(k as int));
                }
                top = top.max(e[k].0);
                k = k + 1;
            }
            proof {
                assert(e@.take(k as int) =~= e@);
            }
            out.push(top);
            b = b + 1;
        }
        out
    }
}

/// The largest elevation among occlusion edges; negative infinity for none.
pub open spec fn top_edge(edges: Seq<(Single, Single)>) -> Single
    decreases edges.len(),
{
    if edges.len() == 0 {
        Single { bits: NEG_INFINITY_BITS }
    } else {
        top_edge(edges.drop_last()).larger(edges.last().0)
    }
}

/// No sample of a ray rises above its last crest, and where nothing shows no
/// sample rises above the floor.
pub proof fn skyline_is_highest(ray: Seq<Sample>, i: int)
    requires
        0 <= i < ray.len(),
        !ray[i].angle.nan(),
    ensures
        crests(ray).len() == 0 ==> ray[i].angle.at_most(nadir()),
        crests(ray).len() > 0 ==> 0 <= crests(ray).last() < ray.len() && ray[i].angle.at_most(
            ray[crests(ray).last()].angle,
        ),
{
    lemma_silhouette(ray);
    if crests(ray).len() > 0 {
        assert(crests(ray)[crests(ray).len() - 1] == crests(ray).last());
    }
}

/// The crests are exactly the samples that show; they come nearest first and
/// each is higher than the one before.
pub proof fn crests_climb(ray: Seq<Sample>)
    ensures
        forall|j: int| #[trigger] crests(ray).contains(j) <==> 0 <= j < ray.len() && shows(ray, j),
        forall|a: int, b: int|
            #![trigger crests(ray)[a], crests(ray)[b]]
            0 <= a < b < crests(ray).len() ==> {
                &&& crests(ray)[a] < crests(ray)[b]
                &&& ray[crests(ray)[a]].angle.below(ray[crests(ray)[b]].angle)
            },
    decreases ray.len(),
{
    if ray.len() > 0 {
        let near = ray.drop_last();
        let c = crests(near);
        let last = ray.len() - 1;
        crests_climb(near);
        assert forall|j: int| #[trigger] crests(ray).contains(j) <==> 0 <= j < ray.len() && shows(ray, j) by {
            if 0 <= j < near.len() {
                assert(shows(near, j) == shows(ray, j)) by {
                    assert forall|i: int| 0 <= i < j implies near[i] == ray[i] by {}
                    if shows(near, j) {
                        assert forall|i: int| 0 <= i < j && !(#[trigger] ray[i]).angle.nan() implies ray[i].angle.below(ray[j].angle) by {
                            assert(near[i] == ray[i]);
                        }
                    }
                    if shows(ray, j) {
                        assert forall|i: int| 0 <= i < j && !(#[trigger] near[i]).angle.nan() implies near[i].angle.below(near[j].angle) by {
                            assert(near[i] == ray[i]);
                        }
                    }
                }
            }
            assert(c.contains(j) <==> 0 <= j < near.len() && shows(near, j));
            if shows(ray, last) {
                if c.contains(j) {
                    let k = choose|k: int| 0 <= k < c.len() && c[k] == j;
                    assert(c.push(last)[k] == j);
                }
                assert(c.push(last)[c.len() as int] == last);
            }
        }
        lemma_silhouette(near);
        assert forall|a: int, b: int|
            #![trigger crests(ray)[a], crests(ray)[b]]
            0 <= a < b < crests(ray).len() implies {
                &&& crests(ray)[a] < crests(ray)[b]
                &&& ray[crests(ray)[a]].angle.below(ray[crests(ray)[b]].angle)
            } by {
            assert(crests(ray)[a] == c[a]);
            assert(c.contains(c[a]));
            assert(shows(near, c[a]));
            if b < c.len() {
                assert(crests(ray)[b] == c[b]);
                assert(ray[c[a]] == near[c[a]] && ray[c[b]] == near[c[b]]);
            } else {
                assert(shows(ray, last));
                assert(ray[c[a]] == near[c[a]]);
            }
        }
    }
}

/// Occlusion edges are crests below the skyline: each is superseded by a higher
/// crest that lies beyond it by more than the depth jump.
pub proof fn edges_lie_below_skyline(ray: Seq<Sample>, k: int)
    requires
        0 <= k < edge_crests(ray).len(),
    ensures
        0 <= edge_crests(ray)[k] < ray.len(),
        shows(ray, edge_crests(ray)[k]),
        ray[edge_crests(ray)[k]].angle.below(ray[crests(ray).last()].angle),
        exists|j: int|
            edge_crests(ray)[k] < j < ray.len() && #[trigger] shows(ray, j) && edge_crests(ray)[k]
                < ray[j].past,
    decreases ray.len(),
{
    let near = ray.drop_last();
    let last = ray.len() - 1;
    let c = crests(near);
    let e = edge_crests(near);
    crests_climb(near);
    crests_climb(ray);
    lemma_edge_crests(near);
    if k < e.len() {
        edges_lie_below_skyline(near, k);
        let q = e[k];
        assert(edge_crests(ray)[k] == q);
        let j = choose|j: int| q < j < near.len() && #[trigger] shows(near, j) && q < near[j].past;
        lemma_shows_extends(near, ray.last(), q);
        lemma_shows_extends(near, ray.last(), j);
        assert(near.push(ray.last()) =~= ray);
        assert(c.contains(j));
        assert(0 <= c.last() < near.len()) by {
            assert(c.contains(c[c.len() - 1]));
        }
        assert(ray[c.last()] == near[c.last()] && ray[q] == near[q] && ray[j] == near[j]);
        if shows(ray, last) {
            assert(crests(ray)[c.len() as int - 1] == c.last());
            assert(crests(ray)[c.len() as int] == last);
        }
    } else {
        let q = c.last();
        assert(edge_crests(ray)[k] == q);
        assert(c.contains(c[c.len() - 1]));
        lemma_shows_extends(near, ray.last(), q);
        assert(near.push(ray.last()) =~= ray);
        assert(crests(ray)[c.len() as int - 1] == q);
        assert(crests(ray)[c.len() as int] == last);
        assert(shows(ray, last));
    }
}

proof fn lemma_shows_extends(ray: Seq<Sample>, next: Sample, j: int)
    requires
        0 <= j < ray.len(),
    ensures
        shows(ray.push(next), j) == shows(ray, j),
{
    let longer = ray.push(next);
    if shows(ray, j) {
        assert forall|i: int| 0 <= i < j && !(#[trigger] longer[i]).angle.nan() implies longer[i].angle.below(
            longer[j].angle,
        ) by {
            assert(longer[i] == ray[i]);
        }
    }
    if shows(longer, j) {
        assert forall|i: int| 0 <= i < j && !(#[trigger] ray[i]).angle.nan() implies ray[i].angle.below(
            ray[j].angle,
        ) by {
            assert(longer[i] == ray[i]);
        }
    }
}

/// With no NaN in the skyline, `highest_of` finds its maximum, the northernmost
/// clockwise where several are equal.
pub proof fn highest_is_maximum(elev: Seq<Single>, n: int, i: int)
    requires
        0 <= i < n <= elev.len(),
        forall|k: int| 0 <= k < n ==> !(#[trigger] elev[k]).nan(),
    ensures
        0 <= highest_of(elev, n) < n,
        elev[i].at_most(elev[highest_of(elev, n)]),
        i < highest_of(elev, n) ==> elev[i].below(elev[highest_of(elev, n)]),
    decreases n,
{
    if n > 1 {
        if i < n - 1 {
            highest_is_maximum(elev, n - 1, i);
        }
        highest_is_maximum(elev, n - 1, 0);
        assert(!elev[highest_of(elev, n - 1)].nan());
    }
}

/// What shows, said of the samples alone: exactly those that rise above the
/// floor and above all the terrain in front of them.
pub proof fn crests_rise_above_all_before(ray: Seq<Sample>, j: int)
    requires
        0 <= j < ray.len(),
    ensures
        crests(ray).contains(j) <==> {
            &&& (Double { bits: NADIR_BITS }).below(ray[j].angle)
            &&& forall|i: int|
                0 <= i < j && !(#[trigger] ray[i]).angle.nan() ==> ray[i].angle.below(ray[j].angle)
        },
{
    crests_climb(ray);
}

/// The skyline is the highest sample, the nearest of equals: its elevation and
/// its distance.
pub proof fn skyline_is_the_highest_sample(ray: Seq<Sample>, j: int)
    requires
        0 <= j < ray.len(),
        (Double { bits: NADIR_BITS }).below(ray[j].angle),
        forall|i: int|
            0 <= i < j && !(#[trigger] ray[i]).angle.nan() ==> ray[i].angle.below(ray[j].angle),
        forall|i: int|
            j < i < ray.len() && !(#[trigger] ray[i]).angle.nan() ==> ray[i].angle.at_most(
                ray[j].angle,
            ),
    ensures
        skyline(ray) == ray[j].elev,
        skyline_dist(ray) == ray[j].dist,
{
    let c = crests(ray);
    crests_climb(ray);
    assert(shows(ray, j));
    assert(c.contains(j));
    assert(c.contains(c[c.len() - 1]));
    let last = c.last();
    let k = choose|k: int| 0 <= k < c.len() && c[k] == j;
    if k < c.len() - 1 {
        assert(c[k] < c[c.len() - 1]);
        assert(shows(ray, last));
        assert(ray[j].angle.below(ray[last].angle));
        assert(ray[last].angle.at_most(ray[j].angle));
    }
}

/// Where no sample rises above the floor one looks at nothing.
pub proof fn nothing_shows_below_the_floor(ray: Seq<Sample>)
    requires
        forall|i: int|
            0 <= i < ray.len() ==> !(Double { bits: NADIR_BITS }).below((#[trigger] ray[i]).angle),
    ensures
        skyline(ray) == (Single { bits: NADIR_SINGLE_BITS }),
        skyline_dist(ray) == (Single { bits: 0 }),
        edge_view(ray).len() == 0,
        profile_view(ray).len() == 0,
{
    let c = crests(ray);
    crests_climb(ray);
    if c.len() > 0 {
        assert(c.contains(c[0]));
        assert(shows(ray, c[0]));
    }
    if edge_crests(ray).len() > 0 {
        edges_lie_below_skyline(ray, 0);
        assert(c.contains(edge_crests(ray)[0]));
    }
}

/// The profile has the elevation and the steepness of each sample that shows,
/// nearest first.
pub proof fn profile_follows_the_crests(ray: Seq<Sample>, k: int)
    requires
        0 <= k < crests(ray).len(),
    ensures
        profile_view(ray).len() == crests(ray).len(),
        profile_view(ray)[k].0 == ray[crests(ray)[k]].elev,
        profile_view(ray)[k].1 == ray[crests(ray)[k]].slope,
{
}

/// The crest after the `k`-th lies beyond it by more than the depth jump.
pub open spec fn jumps_after(ray: Seq<Sample>, k: int) -> bool {
    0 <= k < crests(ray).len() - 1 && crests(ray)[k] < ray[crests(ray)[k + 1]].past
}

/// A crest is an occlusion edge exactly if the next crest lies beyond it by more
/// than the depth jump; the edges come nearest first.
pub proof fn edges_end_in_a_depth_jump(ray: Seq<Sample>)
    ensures
        forall|c: int| #[trigger]
            edge_crests(ray).contains(c) <==> exists|k: int| #[trigger]
                jumps_after(ray, k) && crests(ray)[k] == c,
        forall|a: int, b: int|
            0 <= a < b < edge_crests(ray).len() ==> #[trigger] edge_crests(ray)[a]
                < #[trigger] edge_crests(ray)[b],
    decreases ray.len(),
{
    if ray.len() > 0 {
        let near = ray.drop_last();
        let c = crests(near);
        let e = edge_crests(near);
        edges_end_in_a_depth_jump(near);
        crests_climb(near);
        let full = crests(ray);
        let edges = edge_crests(ray);
        assert forall|q: int| #[trigger] edges.contains(q) <==> exists|k: int| #[trigger]
            jumps_after(ray, k) && full[k] == q by {
            if edges.contains(q) {
                let x = choose|x: int| 0 <= x < edges.len() && edges[x] == q;
                if x < e.len() {
                    assert(e[x] == q);
                    assert(e.contains(q));
                    let k = choose|k: int| #[trigger] jumps_after(near, k) && c[k] == q;
                    lemma_jumps_extend(ray, k);
                    assert(full[k] == c[k]);
                } else {
                    lemma_jumps_last(ray);
                    assert(full[c.len() - 1] == q);
                }
            }
            if exists|k: int| #[trigger] jumps_after(ray, k) && full[k] == q {
                let k = choose|k: int| #[trigger] jumps_after(ray, k) && full[k] == q;
                assert(full[k] == c[k]);
                if k + 1 < c.len() {
                    lemma_jumps_extend(ray, k);
                    assert(jumps_after(near, k) && c[k] == q);
                    assert(e.contains(q));
                    let x = choose|x: int| 0 <= x < e.len() && e[x] == q;
                    assert(edges[x] == q);
                } else {
                    lemma_jumps_last(ray);
                    assert(edges[e.len() as int] == q);
                }
            }
        }
        assert forall|a: int, b: int| 0 <= a < b < edges.len() implies #[trigger] edges[a]
            < #[trigger] edges[b] by {
            assert(edges[a] == e[a]);
            if b < e.len() {
                assert(edges[b] == e[b]);
            } else {
                assert(e.contains(e[a]));
                let k = choose|k: int| #[trigger] jumps_after(near, k) && c[k] == e[a];
                assert(c[k] < c[c.len() - 1]);
            }
        }
    }
}

proof fn lemma_jumps_extend(ray: Seq<Sample>, k: int)
    requires
        ray.len() > 0,
        0 <= k < crests(ray.drop_last()).len() - 1,
    ensures
        jumps_after(ray, k) == jumps_after(ray.drop_last(), k),
{
    let near = ray.drop_last();
    lemma_silhouette(near);
    assert(0 <= crests(near)[k + 1] < near.len());
    assert(crests(ray)[k] == crests(near)[k]);
    assert(crests(ray)[k + 1] == crests(near)[k + 1]);
    assert(ray[crests(near)[k + 1]] == near[crests(near)[k + 1]]);
}

proof fn lemma_jumps_last(ray: Seq<Sample>)
    requires
        ray.len() > 0,
    ensures
        jumps_after(ray, crests(ray.drop_last()).len() - 1) <==> {
            &&& shows(ray, ray.len() - 1)
            &&& crests(ray.drop_last()).len() > 0
            &&& crests(ray.drop_last()).last() < ray.last().past
        },
{
}

/// The edges of a ray carry the elevation and the distance of their crests.
pub proof fn edges_follow_their_crests(ray: Seq<Sample>, k: int)
    requires
        0 <= k < edge_crests(ray).len(),
    ensures
        edge_view(ray).len() == edge_crests(ray).len(),
        edge_view(ray)[k].0 == ray[edge_crests(ray)[k]].elev,
        edge_view(ray)[k].1 == ray[edge_crests(ray)[k]].dist,
{
}

/// The top of a bucket's occlusion edges is one of their elevations and below
/// none of them; without edges it is negative infinity.
pub proof fn top_edge_is_the_maximum(edges: Seq<(Single, Single)>)
    requires
        forall|i: int| 0 <= i < edges.len() ==> !(#[trigger] edges[i]).0.nan(),
    ensures
        !top_edge(edges).nan(),
        forall|i: int| 0 <= i < edges.len() ==> (#[trigger] edges[i]).0.at_most(top_edge(edges)),
        top_edge(edges) == (Single { bits: NEG_INFINITY_BITS }) || exists|i: int|
            0 <= i < edges.len() && (#[trigger] edges[i]).0 == top_edge(edges),
    decreases edges.len(),
{
    if edges.len() > 0 {
        let before = edges.drop_last();
        top_edge_is_the_maximum(before);
        let last = edges.len() - 1;
        assert(forall|i: int| 0 <= i < before.len() ==> #[trigger] edges[i] == before[i]);
        assert(edges[last] == edges.last());
        assert forall|i: int| 0 <= i < edges.len() implies (#[trigger] edges[i]).0.at_most(
            top_edge(edges),
        ) by {
            if i < last {
                assert(before[i].0.at_most(top_edge(before)));
            }
        }
    }
}

/// A horizon is cast ray by ray: each bucket's elevation, distance, edges and profile are
/// those of its own ray, and there is one exactly where the viewpoint is covered.
pub proof fn horizons_are_cast_ray_by_ray(
    ground: Option<Double>,
    rays: &Vec<Vec<Sample>>,
    r: Option<Horizon>,
    b: int,
)
    requires
        rays.len() == 3600,
        0 <= b < 3600,
        call_ensures(cast, (ground, rays), r),
    ensures
        r is Some <==> ground is Some,
        r matches Some(h) ==> {
            &&& Some(h.eye_ground_m) == ground
            &&& h.elev_rad@[b] == skyline(rays@[b]@)
            &&& h.dist_m@[b] == skyline_dist(rays@[b]@)
            &&& h.edges@[b]@ == edge_view(rays@[b]@)
            &&& h.profile@[b]@ == profile_view(rays@[b]@)
        },
{
}

/// Buckets repeat after a full circle, in both directions.
pub proof fn buckets_wrap_around(b: i32, c: i32, r: usize, s: usize)
    requires
        call_ensures(bucket_of, (b,), r),
        call_ensures(bucket_of, (c,), s),
    ensures
        r < 3600 && s < 3600,
        0 <= b < 3600 ==> r == b,
        c == b + 3600 ==> r == s,
        c == b + 1 ==> s == r + 1 || r == 3599 && s == 0,
{
}

/// The skyline at a bearing is that of its bucket, and repeats after a full circle.
pub proof fn bearings_wrap_around(
    h: &Horizon,
    tenths: usize,
    elev: Single,
    dist: Single,
)
    requires
        h.complete(),
        call_ensures(Horizon::at_bearing_deg, (h, tenths), elev),
        call_ensures(Horizon::dist_at_bearing_deg, (h, tenths), dist),
    ensures
        tenths < 3600 ==> elev == h.elev_rad@[tenths as int] && dist == h.dist_m@[tenths as int],
        3600 <= tenths < 7200 ==> elev == h.elev_rad@[tenths - 3600] && dist == h.dist_m@[tenths
            - 3600],
{
}

/// The highest bucket is one that no other exceeds, the first clockwise from north.
pub proof fn the_highest_bucket_is_a_maximum(h: &Horizon, r: usize, i: int)
    requires
        h.complete(),
        call_ensures(Horizon::highest, (h,), r),
        forall|k: int| 0 <= k < 3600 ==> !(#[trigger] h.elev_rad@[k]).nan(),
        0 <= i < 3600,
    ensures
        r < 3600,
        h.elev_rad@[i].at_most(h.elev_rad@[r as int]),
        i < r ==> h.elev_rad@[i].below(h.elev_rad@[r as int]),
{
    highest_is_maximum(h.elev_rad@, 3600, i);
}

/// The top of each bucket's edges is no lower than any of them.
pub proof fn edge_tops_are_bucket_maxima(h: &Horizon, r: Vec<Single>, b: int, i: int)
    requires
        call_ensures(Horizon::edge_top, (h,), r),
        0 <= b < h.edges.len(),
        0 <= i < h.edges@[b].len(),
        forall|k: int| 0 <= k < h.edges@[b].len() ==> !(#[trigger] h.edges@[b]@[k]).0.nan(),
    ensures
        r.len() == h.edges.len(),
        h.edges@[b]@[i].0.at_most(r@[b]),
{
    top_edge_is_the_maximum(h.edges@[b]@);
    assert(r@[b] == top_edge(h.edges@[b]@));
}

}

//! Occlusion edges linked into ridge lines.
//!
//! Every azimuth bucket holds a few edge points. A point may continue a similar
//! point of one of the buckets just before it; how well it does is a score, lower
//! being better. Bucket by bucket, each point goes to the best chain still open to it,
//! or starts one; chains that fall behind are retired, and short ones dropped.

use vstd::prelude::*;
use crate::horizon::Horizon;
use crate::ieee::Single;

verus! {

/// Buckets (0.4°) that a chain may skip before it is retired.
pub const MAX_AZ_GAP: usize = 4;

/// Shorter chains are noise.
pub const MIN_LEN: usize = 3;

/// 0.015 rad (about 0.86°) in binary32: the elevation step allowed between points.
pub const ELEV_TOL_BITS: u32 = 0x3c75_c28f;

/// 0.30 in binary32: the distance step allowed, as a fraction.
pub const DIST_TOL_BITS: u32 = 0x3e99_999a;

/// The largest finite binary32 number.
pub const SINGLE_MAX_BITS: u32 = 0x7f7f_ffff;

/// An occlusion edge in its place: points are numbered bucket by bucket.
#[derive(Debug, Clone, Copy, PartialEq, Eq, Structural)]
pub struct EdgePoint {
    pub bucket: usize,
    pub elev: Single,
    pub dist: Single,
}

/// How the point it belongs to compares with an earlier point.
#[derive(Debug, Clone, Copy)]
pub struct Link {
    /// The earlier point's number.
    pub from: usize,
    /// How far apart the two are in elevation (radians).
    pub elev_step: Single,
    /// How far apart they are in distance, as a fraction of the earlier point's.
    pub dist_step: Single,
    /// How well one continues the other; lower is better.
    pub score: Single,
}

impl Link {
    /// The points are similar enough in elevation and distance for one to
    /// continue the other.
    pub open spec fn fits(self) -> bool {
        &&& self.elev_step.below(Single { bits: ELEV_TOL_BITS })
        &&& self.dist_step.below(Single { bits: DIST_TOL_BITS })
    }
}

/// A chain under construction.
struct Chain {
    pts: Vec<usize>,
    last: usize,
}

/// A chain's points and the bucket of the last one.
pub struct ChainView {
    pub pts: Seq<usize>,
    pub last: int,
}

impl View for Chain {
    type V = ChainView;

    closed spec fn view(&self) -> ChainView {
        ChainView { pts: self.pts@, last: self.last as int }
    }
}

spec fn chain_views(chains: Seq<Chain>) -> Seq<ChainView> {
    chains.map_values(|c: Chain| c@)
}

pub open spec fn line_views(lines: Seq<Vec<usize>>) -> Seq<Seq<usize>> {
    lines.map_values(|l: Vec<usize>| l@)
}

/// How many edge points stand in the first `n` buckets.
pub open spec fn points_before(edges: Seq<Vec<(Single, Single)>>, n: int) -> nat
    decreases n,
{
    if n <= 0 {
        0
    } else {
        points_before(edges, n - 1) + edges[n - 1]@.len()
    }
}

/// The edge points of the first `n` buckets, in order.
pub open spec fn points_of(edges: Seq<Vec<(Single, Single)>>, n: int) -> Seq<EdgePoint>
    decreases n,
{
    if n <= 0 {
        Seq::empty()
    } else {
        points_of(edges, n - 1) + edges[n - 1]@.map_values(
            |e: (Single, Single)| EdgePoint { bucket: (n - 1) as usize, elev: e.0, dist: e.1 },
        )
    }
}

/// The score at which a point with these links continues point `p`, if it can.
pub open spec fn score_from(links: Seq<Link>, p: usize) -> Option<Single>
    decreases links.len(),
{
    if links.len() == 0 {
        None
    } else if links[0].from == p {
        if links[0].fits() {
            Some(links[0].score)
        } else {
            None
        }
    } else {
        score_from(links.drop_first(), p)
    }
}

/// The chains around one bucket: those that existed before it come first, and
/// `used` marks the ones that already got a point there.
pub struct Weave {
    pub chains: Seq<ChainView>,
    pub used: Seq<bool>,
}

/// Among the first `n` chains, the one that a point of bucket `b` continues
/// best, with its score; the first of equals.
pub open spec fn best_chain(w: Weave, links: Seq<Link>, b: int, n: int) -> (Option<int>, Single)
    decreases n,
{
    if n <= 0 {
        (None, Single { bits: SINGLE_MAX_BITS })
    } else {
        let (at, least) = best_chain(w, links, b, n - 1);
        let c = w.chains[n - 1];
        if !w.used[n - 1] && b - c.last <= MAX_AZ_GAP {
            match score_from(links, c.pts.last()) {
                Some(score) => if score.below(least) {
                    (Some(n - 1), score)
                } else {
                    (at, least)
                },
                None => (at, least),
            }
        } else {
            (at, least)
        }
    }
}

/// Point `q` of bucket `b` joins its best chain, or starts one.
pub open spec fn place(w: Weave, links: Seq<Link>, q: usize, b: int) -> Weave {
    match best_chain(w, links, b, w.used.len() as int).0 {
        Some(c) => Weave {
            chains: w.chains.update(c, ChainView { pts: w.chains[c].pts.push(q), last: b }),
            used: w.used.update(c, true),
        },
        None => Weave {
            chains: w.chains.push(ChainView { pts: seq![q], last: b }),
            used: w.used,
        },
    }
}

/// The first `n` points of bucket `b`, numbered from `first`, placed in turn.
pub open spec fn place_all(w: Weave, links: Seq<Vec<Link>>, first: int, n: int, b: int) -> Weave
    decreases n,
{
    if n <= 0 {
        w
    } else {
        place(
            place_all(w, links, first, n - 1, b),
            links[first + n - 1]@,
            (first + n - 1) as usize,
            b,
        )
    }
}

/// The chains that can still go on after bucket `b`.
pub open spec fn kept(chains: Seq<ChainView>, b: int) -> Seq<ChainView>
    decreases chains.len(),
{
    if chains.len() == 0 {
        Seq::empty()
    } else if chains.last().last < b - MAX_AZ_GAP {
        kept(chains.drop_last(), b)
    } else {
        kept(chains.drop_last(), b).push(chains.last())
    }
}

/// The lines of the chains that end at bucket `b` and are long enough.
pub open spec fn retired(chains: Seq<ChainView>, b: int) -> Seq<Seq<usize>>
    decreases chains.len(),
{
    if chains.len() == 0 {
        Seq::empty()
    } else if chains.last().last < b - MAX_AZ_GAP && chains.last().pts.len() >= MIN_LEN {
        retired(chains.drop_last(), b).push(chains.last().pts)
    } else {
        retired(chains.drop_last(), b)
    }
}

/// The lines of the chains that are long enough.
pub open spec fn long_lines(chains: Seq<ChainView>) -> Seq<Seq<usize>>
    decreases chains.len(),
{
    if chains.len() == 0 {
        Seq::empty()
    } else if chains.last().pts.len() >= MIN_LEN {
        long_lines(chains.drop_last()).push(chains.last().pts)
    } else {
        long_lines(chains.drop_last())
    }
}

/// The chains at bucket `b` before any of its points is placed.
pub open spec fn fresh(chains: Seq<ChainView>) -> Weave {
    Weave { chains, used: Seq::new(chains.len(), |i: int| false) }
}

/// The open chains and the finished lines after the first `n` buckets.
pub open spec fn woven(
    edges: Seq<Vec<(Single, Single)>>,
    links: Seq<Vec<Link>>,
    n: int,
) -> (Seq<ChainView>, Seq<Seq<usize>>)
    decreases n,
{
    if n <= 0 {
        (Seq::empty(), Seq::empty())
    } else {
        let (chains, done) = woven(edges, links, n - 1);
        let w = place_all(
            fresh(chains),
            links,
            points_before(edges, n - 1) as int,
            edges[n - 1].len() as int,
            n - 1,
        );
        (kept(w.chains, n - 1), done + retired(w.chains, n - 1))
    }
}

/// The ridge lines, as lists of point numbers.
pub open spec fn ridge_lines(edges: Seq<Vec<(Single, Single)>>, links: Seq<Vec<Link>>) -> Seq<
    Seq<usize>,
> {
    let (chains, done) = woven(edges, links, edges.len() as int);
    done + long_lines(chains)
}

fn find_score(links: &Vec<Link>, p: usize) -> (r: Option<Single>)
    ensures
        r == score_from(links@, p),
{
    let mut i: usize = 0;
    proof {
        assert(links@.skip(0) =~= links@);
    }
    while i < links.len()
        invariant
            i <= links.len(),
            score_from(links@.skip(i as int), p) == score_from(links@, p),
        decreases links.len() - i,
    {
        if links[i].from == p {
            let l = links[i];
            return if l.elev_step.lt(Single { bits: ELEV_TOL_BITS }) && l.dist_step.lt(
                Single { bits: DIST_TOL_BITS },
            ) {
                Some(l.score)
            } else {
                None
            };
        }
        proof {
            assert(links@.skip(i as int).drop_first() =~= links@.skip(i as int + 1));
        }
        i = i + 1;
    }
    None
}

fn find_best(chains: &Vec<Chain>, used: &Vec<bool>, links: &Vec<Link>, b: usize) -> (r: Option<
    usize,
>)
    requires
        used.len() <= chains.len(),
        forall|i: int| 0 <= i < chains.len() ==> #[trigger] chains@[i].pts.len() > 0,
    ensures
        ({
            let w = Weave { chains: chain_views(chains@), used: used@ };
            match best_chain(w, links@, b as int, used.len() as int).0 {
                Some(c) => r == Some(c as usize) && 0 <= c < used.len(),
                None => r is None,
            }
        }),
{
    let ghost w = Weave { chains: chain_views(chains@), used: used@ };
    let mut best: Option<usize> = None;
    let mut least = Single { bits: SINGLE_MAX_BITS };
    let mut i: usize = 0;
    while i < used.len()
        invariant
            i <= used.len() <= chains.len(),
            forall|k: int| 0 <= k < chains.len() ==> #[trigger] chains@[k].pts.len() > 0,
            w == (Weave { chains: chain_views(chains@), used: used@ }),
            least == best_chain(w, links@, b as int, i as int).1,
            match best_chain(w, links@, b as int, i as int).0 {
                Some(c) => best == Some(c as usize) && 0 <= c < i,
                None => best is None,
            },
        decreases used.len() - i,
    {
        let c = &chains[i];
        proof {
            assert(w.chains[i as int] == chains@[i as int]@);
        }
        if !used[i] && (b < c.last || b - c.last <= MAX_AZ_GAP) {
            if let Some(score) = find_score(links, c.pts[c.pts.len() - 1]) {
                if score.lt(least) {
                    least = score;
                    best = Some(i);
                }
            }
        }
        i = i + 1;
    }
    best
}

/// Link the edge points of all buckets into lines of point numbers. `links`
/// compares each point with the earlier points it may continue.
#[verifier::rlimit(40)]
pub fn link_edges(edges: &Vec<Vec<(Single, Single)>>, links: &Vec<Vec<Link>>) -> (lines: Vec<
    Vec<usize>,
>)
    requires
        links.len() == points_before(edges@, edges.len() as int),
    ensures
        line_views(lines@) == ridge_lines(edges@, links@),
        forall|k: int, i: int|
            0 <= k < lines.len() && 0 <= i < lines@[k].len() ==> #[trigger] lines@[k]@[i]
                < links.len(),
{
    let mut chains: Vec<Chain> = Vec::new();
    let mut done: Vec<Vec<usize>> = Vec::new();
    let mut q: usize = 0;
    let mut b: usize = 0;
    proof {
        assert(chain_views(chains@) =~= Seq::empty());
        assert(line_views(done@) =~= Seq::empty());
    }
    while b < edges.len()
        invariant
            b <= edges.len(),
            links.len() == points_before(edges@, edges.len() as int),
            q == points_before(edges@, b as int),
            chain_views(chains@) == woven(edges@, links@, b as int).0,
            line_views(done@) == woven(edges@, links@, b as int).1,
            forall|i: int| 0 <= i < chains.len() ==> #[trigger] chains@[i].pts.len() > 0,
        decreases edges.len() - b,
    {
        let n: usize = edges[b].len();
        let n0: usize = chains.len();
        let mut used: Vec<bool> = Vec::new();
        while used.len() < n0
            invariant
                used.len() <= n0,
                forall|i: int| 0 <= i < used.len() ==> !#[trigger] used@[i],
            decreases n0 - used.len(),
        {
            used.push(false);
        }
        let ghost w0 = fresh(chain_views(chains@));
        proof {
            assert(used@ =~= w0.used);
            lemma_points_before(edges@, b as int + 1, edges.len() as int);
        }
        let first: usize = q;
        let mut k: usize = 0;
        while k < n
            invariant
                b < edges.len(),
                n == edges@[b as int].len(),
                n0 == used.len() <= chains.len(),
                k <= n,
                q == first + k,
                first + n <= links.len(),
                forall|i: int| 0 <= i < chains.len() ==> #[trigger] chains@[i].pts.len() > 0,
                place_all(w0, links@, first as int, k as int, b as int) == (Weave {
                    chains: chain_views(chains@),
                    used: used@,
                }),
            decreases n - k,
        {
            let ghost w = place_all(w0, links@, first as int, k as int, b as int);
            let ghost before = chains@;
            match find_best(&chains, &used, &links[q], b) {
                Some(ci) => {
                    let mut c = chains.remove(ci);
                    proof {
                        assert(c == before[ci as int]);
                    }
                    c.pts.push(q);
                    c.last = b;
                    let ghost grown = c@;
                    chains.insert(ci, c);
                    used.set(ci, true);
                    proof {
                        assert(grown == (ChainView { pts: w.chains[ci as int].pts.push(q), last: b as int }));
                        assert(chains@ =~= before.update(ci as int, c));
                        assert(chain_views(chains@) =~= w.chains.update(ci as int, grown));
                    }
                },
                None => {
                    let mut pts: Vec<usize> = Vec::new();
                    pts.push(q);
                    let c = Chain { pts, last: b };
                    proof {
                        assert(c.pts@ =~= seq![q]);
                    }
                    chains.push(c);
                    proof {
                        assert(chain_views(chains@) =~= w.chains.push(c@));
                    }
                },
            }
            q = q + 1;
            k = k + 1;
        }
        let ghost all = chains@;
        let ghost lines0 = line_views(done@);
        let mut i: usize = 0;
        let ghost mut m: int = 0;
        proof {
            assert(all.take(0) =~= Seq::<Chain>::empty());
            assert(chain_views(all.take(0)) =~= Seq::<ChainView>::empty());
            assert(all.skip(0) =~= all);
            assert(lines0 + Seq::<Seq<usize>>::empty() =~= lines0);
        }
        while i < chains.len()
            invariant
                0 <= m <= all.len(),
                i <= chains.len(),
                chains.len() - i == all.len() - m,
                chains@.skip(i as int) == all.skip(m),
                chain_views(chains@.take(i as int)) == kept(chain_views(all.take(m)), b as int),
                line_views(done@) == lines0 + retired(chain_views(all.take(m)), b as int),
                forall|x: int| 0 <= x < chains.len() ==> #[trigger] chains@[x].pts.len() > 0,
            decreases all.len() - m,
        {
            let ghost cur = chains@;
            let ghost c0 = chains@[i as int];
            proof {
                assert(c0 == chains@.skip(i as int)[0]);
                assert(c0 == all.skip(m)[0]);
                assert(c0 == all[m]);
                assert(chain_views(all.take(m + 1)).drop_last() =~= chain_views(all.take(m)));
                assert(chain_views(all.take(m + 1)).last() == c0@);
            }
            if chains[i].last < b && b - chains[i].last > MAX_AZ_GAP {
                let ghost old_done = done@;
                let ch = chains.remove(i);
                if ch.pts.len() >= MIN_LEN {
                    done.push(ch.pts);
                    proof {
                        assert(line_views(done@) =~= line_views(old_done).push(c0.pts@));
                        assert(line_views(done@) =~= lines0 + retired(chain_views(all.take(m + 1)), b as int));
                    }
                }
                proof {
                    assert(chains@.take(i as int) =~= cur.take(i as int));
                    assert(chains@.skip(i as int) =~= cur.skip(i as int + 1));
                    assert(all.skip(m + 1) =~= all.skip(m).skip(1));
                    assert(cur.skip(i as int + 1) =~= cur.skip(i as int).skip(1));
                }
            } else {
                proof {
                    assert(chain_views(cur.take(i as int + 1)) =~= chain_views(cur.take(i as int)).push(c0@));
                    assert(all.skip(m + 1) =~= all.skip(m).skip(1));
                    assert(cur.skip(i as int + 1) =~= cur.skip(i as int).skip(1));
                }
                i = i + 1;
            }
            proof {
                m = m + 1;
            }
        }
        proof {
            assert(all.take(m) =~= all);
            assert(chains@.take(i as int) =~= chains@);
        }
        b = b + 1;
    }
    let ghost all = chains@;
    let ghost lines0 = line_views(done@);
    let ghost mut m: int = 0;
    proof {
        assert(chain_views(all.take(0)) =~= Seq::<ChainView>::empty());
        assert(all.skip(0) =~= all);
        assert(lines0 + Seq::<Seq<usize>>::empty() =~= lines0);
    }
    while chains.len() > 0
        invariant
            0 <= m <= all.len(),
            chains@ == all.skip(m),
            line_views(done@) == lines0 + long_lines(chain_views(all.take(m))),
        decreases chains.len(),
    {
        let ghost old_done = done@;
        let ghost cur = chains@;
        let ch = chains.remove(0);
        proof {
            assert(ch == all[m]);
            assert(chain_views(all.take(m + 1)).drop_last() =~= chain_views(all.take(m)));
            assert(chain_views(all.take(m + 1)).last() == ch@);
            assert(chains@ =~= all.skip(m + 1));
        }
        if ch.pts.len() >= MIN_LEN {
            done.push(ch.pts);
            proof {
                assert(line_views(done@) =~= line_views(old_done).push(ch.pts@));
                assert(line_views(done@) =~= lines0 + long_lines(chain_views(all.take(m + 1))));
            }
        }
        proof {
            m = m + 1;
        }
    }
    proof {
        assert(all.take(m) =~= all);
        lemma_lines_sound(edges@, links@);
        assert forall|k: int, i: int| 0 <= k < done.len() && 0 <= i < done@[k].len() implies #[trigger] done@[k]@[i]
            < links.len() by {
            assert(line_views(done@)[k] == done@[k]@);
            assert(sound_line(edges@, links@, line_views(done@)[k], links.len() as int));
        }
    }
    done
}

proof fn lemma_points_before(edges: Seq<Vec<(Single, Single)>>, a: int, b: int)
    requires
        a <= b,
    ensures
        points_before(edges, a) <= points_before(edges, b),
    decreases b - a,
{
    if a < b {
        lemma_points_before(edges, a, b - 1);
    }
}

proof fn lemma_points_len(edges: Seq<Vec<(Single, Single)>>, n: int)
    ensures
        points_of(edges, n).len() == points_before(edges, n),
    decreases n,
{
    if n > 0 {
        lemma_points_len(edges, n - 1);
    }
}

impl Horizon {
    /// The occlusion edge points of all buckets, numbered bucket by bucket.
    pub fn edge_points(&self) -> (pts: Vec<EdgePoint>)
        ensures
            pts@ == points_of(self.edges@, self.edges.len() as int),
    {
        let mut pts: Vec<EdgePoint> = Vec::new();
        let mut b: usize = 0;
        while b < self.edges.len()
            invariant
                b <= self.edges.len(),
                pts@ == points_of(self.edges@, b as int),
            decreases self.edges.len() - b,
        {
            let e = &self.edges[b];
            let ghost near = pts@;
            let mut k: usize = 0;
            while k < e.len()
                invariant
                    k <= e.len(),
                    pts@ == near + e@.take(k as int).map_values(
                        |e: (Single, Single)| EdgePoint { bucket: b, elev: e.0, dist: e.1 },
                    ),
                decreases e.len() - k,
            {
                pts.push(EdgePoint { bucket: b, elev: e[k].0, dist: e[k].1 });
                k = k + 1;
                proof {
                    assert(pts@ =~= near + e@.take(k as int).map_values(
                        |e: (Single, Single)| EdgePoint { bucket: b, elev: e.0, dist: e.1 },
                    ));
                }
            }
            proof {
                assert(e@.take(k as int) =~= e@);
                assert(e@.map_values(
                    |e: (Single, Single)| EdgePoint { bucket: b, elev: e.0, dist: e.1 },
                ) =~= self.edges@[b as int]@.map_values(
                    |e: (Single, Single)|
                        EdgePoint { bucket: (b + 1 - 1) as usize, elev: e.0, dist: e.1 },
                ));
            }
            b = b + 1;
        }
        pts
    }

    /// Trace the occlusion edge points into polylines of `(bucket, elev_rad)`.
    /// `links` compares each edge point (see [`Horizon::edge_points`]) with the
    /// earlier points it may continue.
    pub fn edge_polylines(&self, links: &Vec<Vec<Link>>) -> (lines: Vec<Vec<(usize, Single)>>)
        requires
            links.len() == points_before(self.edges@, self.edges.len() as int),
        ensures
            ({
                let ids = ridge_lines(self.edges@, links@);
                let pts = points_of(self.edges@, self.edges.len() as int);
                &&& lines.len() == ids.len()
                &&& forall|k: int|
                    0 <= k < lines.len() ==> #[trigger] lines@[k]@ == ids[k].map_values(
                        |q: usize| (pts[q as int].bucket, pts[q as int].elev),
                    )
                &&& forall|k: int, i: int|
                    0 <= k < ids.len() && 0 <= i < ids[k].len() ==> #[trigger] ids[k][i] < pts.len()
            }),
    {
        let pts = self.edge_points();
        let ids = link_edges(&self.edges, links);
        proof {
            lemma_points_len(self.edges@, self.edges.len() as int);
            lemma_lines_sound(self.edges@, links@);
        }
        let mut lines: Vec<Vec<(usize, Single)>> = Vec::new();
        let mut k: usize = 0;
        while k < ids.len()
            invariant
                k <= ids.len(),
                lines.len() == k,
                pts@ == points_of(self.edges@, self.edges.len() as int),
                pts.len() == points_before(self.edges@, self.edges.len() as int),
                line_views(ids@) == ridge_lines(self.edges@, links@),
                sound_lines(self.edges@, links@, ridge_lines(self.edges@, links@), pts.len() as int),
                forall|j: int|
                    0 <= j < k ==> #[trigger] lines@[j]@ == ids@[j]@.map_values(
                        |q: usize| (pts@[q as int].bucket, pts@[q as int].elev),
                    ),
            decreases ids.len() - k,
        {
            let line = &ids[k];
            let mut out: Vec<(usize, Single)> = Vec::new();
            let mut i: usize = 0;
            proof {
                assert(line_views(ids@)[k as int] == line@);
                assert(sound_line(self.edges@, links@, line@, pts.len() as int));
            }
            while i < line.len()
                invariant
                    i <= line.len(),
                    sound_line(self.edges@, links@, line@, pts.len() as int),
                    out@ == line@.take(i as int).map_values(
                        |q: usize| (pts@[q as int].bucket, pts@[q as int].elev),
                    ),
                decreases line.len() - i,
            {
                let q: usize = line[i];
                out.push((pts[q].bucket, pts[q].elev));
                i = i + 1;
                proof {
                    assert(out@ =~= line@.take(i as int).map_values(
                        |q: usize| (pts@[q as int].bucket, pts@[q as int].elev),
                    ));
                }
            }
            proof {
                assert(line@.take(i as int) =~= line@);
            }
            lines.push(out);
            k = k + 1;
        }
        proof {
            assert forall|j: int| 0 <= j < lines.len() implies #[trigger] lines@[j]@ == ridge_lines(
                self.edges@,
                links@,
            )[j].map_values(|q: usize| (pts@[q as int].bucket, pts@[q as int].elev)) by {
                assert(line_views(ids@)[j] == ids@[j]@);
            }
            let all = ridge_lines(self.edges@, links@);
            assert forall|j: int, i: int| 0 <= j < all.len() && 0 <= i < all[j].len() implies #[trigger] all[j][i]
                < pts@.len() by {
                assert(sound_line(self.edges@, links@, all[j], pts.len() as int));
            }
        }
        lines
    }
}

/// Point `q` stands in bucket `b`.
pub open spec fn stands_in(edges: Seq<Vec<(Single, Single)>>, q: usize, b: int) -> bool {
    points_before(edges, b) <= q < points_before(edges, b + 1)
}

/// Point `q` continues point `p`: their link fits, and `q` stands at most
/// [`MAX_AZ_GAP`] buckets after `p`.
pub open spec fn continues(
    edges: Seq<Vec<(Single, Single)>>,
    links: Seq<Vec<Link>>,
    p: usize,
    q: usize,
) -> bool {
    &&& score_from(links[q as int]@, p) is Some
    &&& exists|bp: int, bq: int| #[trigger]
        stands_in(edges, p, bp) && #[trigger] stands_in(edges, q, bq) && bp < bq <= bp + MAX_AZ_GAP
}

/// A line of points numbered below `next`, each continuing the one before it.
pub open spec fn sound_line(
    edges: Seq<Vec<(Single, Single)>>,
    links: Seq<Vec<Link>>,
    line: Seq<usize>,
    next: int,
) -> bool {
    &&& forall|i: int| 0 <= i < line.len() ==> #[trigger] line[i] < next
    &&& forall|i: int, j: int|
        #![trigger line[i], line[j]]
        0 <= i && j == i + 1 && j < line.len() ==> continues(edges, links, line[i], line[j])
}

pub open spec fn sound_lines(
    edges: Seq<Vec<(Single, Single)>>,
    links: Seq<Vec<Link>>,
    lines: Seq<Seq<usize>>,
    next: int,
) -> bool {
    forall|k: int|
        0 <= k < lines.len() ==> #[trigger] lines[k].len() >= MIN_LEN && sound_line(
            edges,
            links,
            lines[k],
            next,
        )
}

/// How often `q` occurs on a line.
pub open spec fn times_on(line: Seq<usize>, q: usize) -> nat
    decreases line.len(),
{
    if line.len() == 0 {
        0
    } else {
        times_on(line.drop_last(), q) + if line.last() == q {
            1nat
        } else {
            0nat
        }
    }
}

/// How often `q` occurs on the lines, all together.
pub open spec fn times_in(lines: Seq<Seq<usize>>, q: usize) -> nat
    decreases lines.len(),
{
    if lines.len() == 0 {
        0
    } else {
        times_in(lines.drop_last(), q) + times_on(lines.last(), q)
    }
}

/// The points of chains.
pub open spec fn chain_lines(chains: Seq<ChainView>) -> Seq<Seq<usize>> {
    chains.map_values(|c: ChainView| c.pts)
}

/// What the chains of a bucket keep while its points are placed: `next` is the
/// number of the next point.
spec fn sound_weave(
    edges: Seq<Vec<(Single, Single)>>,
    links: Seq<Vec<Link>>,
    w: Weave,
    b: int,
    next: int,
) -> bool {
    &&& w.used.len() <= w.chains.len()
    &&& forall|i: int|
        0 <= i < w.chains.len() ==> sound_chain(edges, links, #[trigger] w.chains[i], b, next)
    &&& forall|i: int|
        0 <= i < w.used.len() && !#[trigger] w.used[i] ==> w.chains[i].last < b
}

spec fn sound_chain(
    edges: Seq<Vec<(Single, Single)>>,
    links: Seq<Vec<Link>>,
    c: ChainView,
    b: int,
    next: int,
) -> bool {
    &&& c.pts.len() > 0
    &&& c.last <= b
    &&& stands_in(edges, c.pts.last(), c.last)
    &&& sound_line(edges, links, c.pts, next)
}

proof fn lemma_best_chain(w: Weave, links: Seq<Link>, b: int, n: int)
    requires
        n <= w.used.len(),
    ensures
        best_chain(w, links, b, n).0 matches Some(c) ==> 0 <= c < n && !w.used[c] && b
            - w.chains[c].last <= MAX_AZ_GAP && score_from(links, w.chains[c].pts.last()) is Some,
    decreases n,
{
    if n > 0 {
        lemma_best_chain(w, links, b, n - 1);
    }
}

proof fn lemma_place_sound(
    edges: Seq<Vec<(Single, Single)>>,
    links: Seq<Vec<Link>>,
    w: Weave,
    q: usize,
    b: int,
)
    requires
        sound_weave(edges, links, w, b, q as int),
        stands_in(edges, q, b),
    ensures
        sound_weave(edges, links, place(w, links[q as int]@, q, b), b, q + 1),
{
    let lq = links[q as int]@;
    let v = place(w, lq, q, b);
    lemma_best_chain(w, lq, b, w.used.len() as int);
    match best_chain(w, lq, b, w.used.len() as int).0 {
        Some(c) => {
            let old_chain = w.chains[c];
            let line = old_chain.pts.push(q);
            assert(sound_chain(edges, links, old_chain, b, q as int));
            assert forall|i: int, j: int|
                #![trigger line[i], line[j]]
                0 <= i && j == i + 1 && j < line.len() implies continues(edges, links, line[i], line[j]) by {
                if j == old_chain.pts.len() {
                    assert(line[i] == old_chain.pts.last());
                    assert(stands_in(edges, line[i], old_chain.last));
                } else {
                    assert(line[i] == old_chain.pts[i] && line[j] == old_chain.pts[j]);
                }
            }
            assert(sound_chain(edges, links, v.chains[c], b, q + 1));
            assert forall|i: int| 0 <= i < v.chains.len() implies sound_chain(
                edges,
                links,
                #[trigger] v.chains[i],
                b,
                q + 1,
            ) by {
                if i != c {
                    assert(v.chains[i] == w.chains[i]);
                }
            }
        },
        None => {
            assert forall|i: int| 0 <= i < v.chains.len() implies sound_chain(
                edges,
                links,
                #[trigger] v.chains[i],
                b,
                q + 1,
            ) by {
                if i < w.chains.len() {
                    assert(v.chains[i] == w.chains[i]);
                }
            }
        },
    }
}

proof fn lemma_place_all_sound(
    edges: Seq<Vec<(Single, Single)>>,
    links: Seq<Vec<Link>>,
    w: Weave,
    first: int,
    n: int,
    b: int,
)
    requires
        0 <= n <= edges[b].len(),
        0 <= b < edges.len(),
        first == points_before(edges, b),
        points_before(edges, b + 1) <= usize::MAX,
        sound_weave(edges, links, w, b, first),
    ensures
        sound_weave(edges, links, place_all(w, links, first, n, b), b, first + n),
    decreases n,
{
    if n > 0 {
        lemma_place_all_sound(edges, links, w, first, n - 1, b);
        let q = (first + n - 1) as usize;
        assert(q == first + n - 1);
        assert(stands_in(edges, q, b));
        lemma_place_sound(edges, links, place_all(w, links, first, n - 1, b), q, b);
    }
}

proof fn lemma_retire_sound(
    edges: Seq<Vec<(Single, Single)>>,
    links: Seq<Vec<Link>>,
    chains: Seq<ChainView>,
    b: int,
    next: int,
)
    requires
        forall|i: int|
            0 <= i < chains.len() ==> sound_chain(edges, links, #[trigger] chains[i], b, next),
    ensures
        forall|i: int|
            0 <= i < kept(chains, b).len() ==> sound_chain(
                edges,
                links,
                #[trigger] kept(chains, b)[i],
                b,
                next,
            ),
        sound_lines(edges, links, retired(chains, b), next),
        sound_lines(edges, links, long_lines(chains), next),
    decreases chains.len(),
{
    if chains.len() > 0 {
        let rest = chains.drop_last();
        assert forall|i: int| 0 <= i < rest.len() implies sound_chain(
            edges,
            links,
            #[trigger] rest[i],
            b,
            next,
        ) by {
            assert(rest[i] == chains[i]);
        }
        lemma_retire_sound(edges, links, rest, b, next);
        assert(sound_chain(edges, links, chains[chains.len() - 1], b, next));
        assert forall|i: int| 0 <= i < kept(chains, b).len() implies sound_chain(
            edges,
            links,
            #[trigger] kept(chains, b)[i],
            b,
            next,
        ) by {
            if i < kept(rest, b).len() {
                assert(kept(chains, b)[i] == kept(rest, b)[i]);
            }
        }
        assert forall|k: int| 0 <= k < retired(chains, b).len() implies #[trigger] retired(
            chains,
            b,
        )[k].len() >= MIN_LEN && sound_line(edges, links, retired(chains, b)[k], next) by {
            if k < retired(rest, b).len() {
                assert(retired(chains, b)[k] == retired(rest, b)[k]);
            }
        }
        assert forall|k: int| 0 <= k < long_lines(chains).len() implies #[trigger] long_lines(
            chains,
        )[k].len() >= MIN_LEN && sound_line(edges, links, long_lines(chains)[k], next) by {
            if k < long_lines(rest).len() {
                assert(long_lines(chains)[k] == long_lines(rest)[k]);
            }
        }
    }
}

proof fn lemma_woven_sound(edges: Seq<Vec<(Single, Single)>>, links: Seq<Vec<Link>>, n: int)
    requires
        0 <= n <= edges.len(),
        points_before(edges, edges.len() as int) <= usize::MAX,
    ensures
        ({
            let (chains, done) = woven(edges, links, n);
            let next = points_before(edges, n) as int;
            &&& forall|i: int|
                0 <= i < chains.len() ==> sound_chain(edges, links, #[trigger] chains[i], n - 1, next)
            &&& sound_lines(edges, links, done, next)
        }),
    decreases n,
{
    if n > 0 {
        lemma_woven_sound(edges, links, n - 1);
        lemma_points_before(edges, n, edges.len() as int);
        let (chains, done) = woven(edges, links, n - 1);
        let first = points_before(edges, n - 1) as int;
        let next = points_before(edges, n) as int;
        let w = fresh(chains);
        assert forall|i: int| 0 <= i < w.chains.len() implies sound_chain(
            edges,
            links,
            #[trigger] w.chains[i],
            n - 1,
            first,
        ) by {}
        assert forall|i: int| 0 <= i < w.used.len() && !#[trigger] w.used[i] implies w.chains[i].last < n - 1 by {
            assert(sound_chain(edges, links, chains[i], n - 2, first));
        }
        lemma_place_all_sound(edges, links, w, first, edges[n - 1].len() as int, n - 1);
        let v = place_all(w, links, first, edges[n - 1].len() as int, n - 1);
        lemma_retire_sound(edges, links, v.chains, n - 1, next);
        let all = done + retired(v.chains, n - 1);
        assert forall|k: int| 0 <= k < all.len() implies #[trigger] all[k].len() >= MIN_LEN
            && sound_line(edges, links, all[k], next) by {
            if k < done.len() {
                assert(all[k] == done[k]);
                assert(sound_line(edges, links, done[k], first));
            } else {
                assert(all[k] == retired(v.chains, n - 1)[k - done.len()]);
            }
        }
    }
}

proof fn lemma_lines_sound(edges: Seq<Vec<(Single, Single)>>, links: Seq<Vec<Link>>)
    requires
        points_before(edges, edges.len() as int) <= usize::MAX,
    ensures
        sound_lines(
            edges,
            links,
            ridge_lines(edges, links),
            points_before(edges, edges.len() as int) as int,
        ),
{
    let n = edges.len() as int;
    let next = points_before(edges, n) as int;
    lemma_woven_sound(edges, links, n);
    let (chains, done) = woven(edges, links, n);
    lemma_retire_sound(edges, links, chains, n - 1, next);
    let all = ridge_lines(edges, links);
    assert forall|k: int| 0 <= k < all.len() implies #[trigger] all[k].len() >= MIN_LEN && sound_line(
        edges,
        links,
        all[k],
        next,
    ) by {
        if k < done.len() {
            assert(all[k] == done[k]);
        } else {
            assert(all[k] == long_lines(chains)[k - done.len()]);
        }
    }
}

/// Every ridge line has at least [`MIN_LEN`] points, and each of its points
/// continues the one before: their link fits, and they stand one to four buckets
/// apart, clockwise.
pub proof fn ridge_lines_continue(
    edges: Seq<Vec<(Single, Single)>>,
    links: Seq<Vec<Link>>,
    k: int,
    i: int,
)
    requires
        points_before(edges, edges.len() as int) <= usize::MAX,
        0 <= k < ridge_lines(edges, links).len(),
        0 <= i < ridge_lines(edges, links)[k].len() - 1,
    ensures
        ridge_lines(edges, links)[k].len() >= MIN_LEN,
        continues(edges, links, ridge_lines(edges, links)[k][i], ridge_lines(edges, links)[k][i + 1]),
{
    lemma_lines_sound(edges, links);
    let line = ridge_lines(edges, links)[k];
    assert(sound_line(edges, links, line, points_before(edges, edges.len() as int) as int));
    assert(continues(edges, links, line[i], line[i + 1]));
}

proof fn lemma_times_push(line: Seq<usize>, q: usize, x: usize)
    ensures
        times_on(line.push(q), x) == times_on(line, x) + if q == x {
            1nat
        } else {
            0nat
        },
{
    assert(line.push(q).drop_last() =~= line);
}

proof fn lemma_times_add(a: Seq<Seq<usize>>, b: Seq<Seq<usize>>, x: usize)
    ensures
        times_in(a + b, x) == times_in(a, x) + times_in(b, x),
    decreases b.len(),
{
    if b.len() == 0 {
        assert(a + b =~= a);
    } else {
        assert((a + b).drop_last() =~= a + b.drop_last());
        lemma_times_add(a, b.drop_last(), x);
    }
}

proof fn lemma_times_update(a: Seq<Seq<usize>>, c: int, line: Seq<usize>, x: usize)
    requires
        0 <= c < a.len(),
    ensures
        times_in(a.update(c, line), x) == times_in(a, x) - times_on(a[c], x) + times_on(line, x),
    decreases a.len(),
{
    if c == a.len() - 1 {
        assert(a.update(c, line).drop_last() =~= a.drop_last());
    } else {
        assert(a.update(c, line).drop_last() =~= a.drop_last().update(c, line));
        lemma_times_update(a.drop_last(), c, line, x);
    }
}

proof fn lemma_place_times(w: Weave, links: Seq<Link>, q: usize, b: int, x: usize)
    requires
        w.used.len() <= w.chains.len(),
    ensures
        times_in(chain_lines(place(w, links, q, b).chains), x) == times_in(chain_lines(w.chains), x)
            + if q == x {
            1nat
        } else {
            0nat
        },
        place(w, links, q, b).used.len() <= place(w, links, q, b).chains.len(),
{
    lemma_best_chain(w, links, b, w.used.len() as int);
    let before = chain_lines(w.chains);
    let after = chain_lines(place(w, links, q, b).chains);
    match best_chain(w, links, b, w.used.len() as int).0 {
        Some(c) => {
            let line = before[c].push(q);
            assert(after =~= before.update(c, line));
            lemma_times_update(before, c, line, x);
            lemma_times_push(before[c], q, x);
        },
        None => {
            assert(after =~= before.push(seq![q]));
            assert(after.drop_last() =~= before);
            assert(seq![q] =~= Seq::<usize>::empty().push(q));
            lemma_times_push(Seq::empty(), q, x);
        },
    }
}

proof fn lemma_place_all_times(
    w: Weave,
    links: Seq<Vec<Link>>,
    first: int,
    n: int,
    b: int,
    x: usize,
)
    requires
        w.used.len() <= w.chains.len(),
        0 <= n,
        0 <= first,
        first + n <= usize::MAX,
    ensures
        times_in(chain_lines(place_all(w, links, first, n, b).chains), x) == times_in(
            chain_lines(w.chains),
            x,
        ) + if first <= x < first + n {
            1nat
        } else {
            0nat
        },
        place_all(w, links, first, n, b).used.len() <= place_all(w, links, first, n, b).chains.len(),
    decreases n,
{
    if n > 0 {
        lemma_place_all_times(w, links, first, n - 1, b, x);
        lemma_place_times(
            place_all(w, links, first, n - 1, b),
            links[first + n - 1]@,
            (first + n - 1) as usize,
            b,
            x,
        );
    }
}

proof fn lemma_retire_times(chains: Seq<ChainView>, b: int, x: usize)
    ensures
        times_in(chain_lines(kept(chains, b)), x) + times_in(retired(chains, b), x) <= times_in(
            chain_lines(chains),
            x,
        ),
        times_in(long_lines(chains), x) <= times_in(chain_lines(chains), x),
    decreases chains.len(),
{
    if chains.len() > 0 {
        let rest = chains.drop_last();
        lemma_retire_times(rest, b, x);
        assert(chain_lines(chains).drop_last() =~= chain_lines(rest));
        assert(chain_lines(kept(rest, b).push(chains.last())).drop_last() =~= chain_lines(
            kept(rest, b),
        ));
        assert(retired(rest, b).push(chains.last().pts).drop_last() =~= retired(rest, b));
        assert(long_lines(rest).push(chains.last().pts).drop_last() =~= long_lines(rest));
    }
}

proof fn lemma_woven_times(
    edges: Seq<Vec<(Single, Single)>>,
    links: Seq<Vec<Link>>,
    n: int,
    x: usize,
)
    requires
        0 <= n <= edges.len(),
        points_before(edges, edges.len() as int) <= usize::MAX,
    ensures
        times_in(chain_lines(woven(edges, links, n).0), x) + times_in(woven(edges, links, n).1, x)
            <= if x < points_before(edges, n) {
            1nat
        } else {
            0nat
        },
    decreases n,
{
    if n > 0 {
        lemma_woven_times(edges, links, n - 1, x);
        lemma_points_before(edges, n, edges.len() as int);
        let (chains, done) = woven(edges, links, n - 1);
        let first = points_before(edges, n - 1) as int;
        let v = place_all(fresh(chains), links, first, edges[n - 1].len() as int, n - 1);
        lemma_place_all_times(fresh(chains), links, first, edges[n - 1].len() as int, n - 1, x);
        lemma_retire_times(v.chains, n - 1, x);
        lemma_times_add(done, retired(v.chains, n - 1), x);
    } else {
        assert(chain_lines(Seq::empty()) =~= Seq::empty());
    }
}

/// No edge point is drawn twice: a point stands on at most one ridge line, and
/// there at most once.
pub proof fn ridge_lines_share_no_point(
    edges: Seq<Vec<(Single, Single)>>,
    links: Seq<Vec<Link>>,
    q: usize,
)
    requires
        points_before(edges, edges.len() as int) <= usize::MAX,
    ensures
        times_in(ridge_lines(edges, links), q) <= 1,
{
    let n = edges.len() as int;
    let (chains, done) = woven(edges, links, n);
    lemma_woven_times(edges, links, n, q);
    lemma_retire_times(chains, n, q);
    lemma_times_add(done, long_lines(chains), q);
}

/// The point's first link back to `p` fits, with this score.
pub open spec fn scores(links: Seq<Link>, p: usize, score: Single) -> bool {
    exists|i: int|
        #![trigger links[i]]
        0 <= i < links.len() && links[i].from == p && links[i].score == score
            && links[i].elev_step.below(Single { bits: ELEV_TOL_BITS }) && links[i].dist_step.below(
            Single { bits: DIST_TOL_BITS },
        ) && forall|j: int| 0 <= j < i ==> (#[trigger] links[j]).from != p
}

/// Chain `c` is open to a point of bucket `b` at this score: it existed before the
/// bucket and got no point there yet, it is at most [`MAX_AZ_GAP`] buckets behind,
/// and the point's link to its end fits.
pub open spec fn open_at(w: Weave, links: Seq<Link>, b: int, c: int, score: Single) -> bool {
    &&& 0 <= c < w.used.len()
    &&& !w.used[c]
    &&& b - w.chains[c].last <= MAX_AZ_GAP
    &&& scores(links, w.chains[c].pts.last(), score)
    &&& score.below(Single { bits: SINGLE_MAX_BITS })
}

proof fn lemma_scores(links: Seq<Link>, p: usize, score: Single)
    ensures
        score_from(links, p) == Some(score) <==> scores(links, p, score),
    decreases links.len(),
{
    if links.len() > 0 {
        let rest = links.drop_first();
        lemma_scores(rest, p, score);
        if scores(links, p, score) {
            let i = choose|i: int|
                #![trigger links[i]]
                0 <= i < links.len() && links[i].from == p && links[i].score == score
                    && links[i].elev_step.below(Single { bits: ELEV_TOL_BITS })
                    && links[i].dist_step.below(Single { bits: DIST_TOL_BITS }) && forall|j: int|
                    0 <= j < i ==> (#[trigger] links[j]).from != p;
            if i > 0 {
                assert(links[0].from != p);
                assert(rest[i - 1] == links[i]);
                assert forall|j: int| 0 <= j < i - 1 implies (#[trigger] rest[j]).from != p by {
                    assert(rest[j] == links[j + 1]);
                }
            }
        }
        if score_from(links, p) == Some(score) {
            if links[0].from != p {
                let i = choose|i: int|
                    #![trigger rest[i]]
                    0 <= i < rest.len() && rest[i].from == p && rest[i].score == score
                        && rest[i].elev_step.below(Single { bits: ELEV_TOL_BITS })
                        && rest[i].dist_step.below(Single { bits: DIST_TOL_BITS }) && forall|j: int|
                        0 <= j < i ==> (#[trigger] rest[j]).from != p;
                assert(links[i + 1] == rest[i]);
                assert forall|j: int| 0 <= j < i + 1 implies (#[trigger] links[j]).from != p by {
                    if j > 0 {
                        assert(rest[j - 1] == links[j]);
                    }
                }
            } else {
                assert(links[0].score == score);
            }
        }
    }
}

proof fn lemma_best_is_least(w: Weave, links: Seq<Link>, b: int, n: int)
    requires
        0 <= n <= w.used.len(),
    ensures
        match best_chain(w, links, b, n) {
            (Some(c), s) => c < n && open_at(w, links, b, c, s) && forall|d: int, t: Single| #[trigger]
                open_at(w, links, b, d, t) && d < n ==> !t.below(s) && (d < c ==> s.below(t)),
            (None, s) => s == (Single { bits: SINGLE_MAX_BITS }) && forall|d: int, t: Single|
                d < n ==> !#[trigger] open_at(w, links, b, d, t),
        },
    decreases n,
{
    if n > 0 {
        lemma_best_is_least(w, links, b, n - 1);
        let c = w.chains[n - 1];
        let (at, least) = best_chain(w, links, b, n - 1);
        assert forall|t: Single| #[trigger] open_at(w, links, b, n - 1, t) implies score_from(
            links,
            c.pts.last(),
        ) == Some(t) && !w.used[n - 1] && b - c.last <= MAX_AZ_GAP by {
            lemma_scores(links, c.pts.last(), t);
        }
        if let Some(s) = score_from(links, c.pts.last()) {
            lemma_scores(links, c.pts.last(), s);
        }
    }
}

/// Each edge point goes to the chain that it continues best: of all chains open to
/// it none has a lower score, and among equals the earliest gets it. Only a point
/// that no chain is open to starts a chain of its own. Nothing else changes.
pub proof fn points_join_the_best_chain(w: Weave, links: Seq<Link>, q: usize, b: int)
    requires
        w.used.len() <= w.chains.len(),
    ensures
        ({
            let v = place(w, links, q, b);
            ||| exists|c: int, s: Single|
                {
                    &&& #[trigger] open_at(w, links, b, c, s)
                    &&& v.chains == w.chains.update(
                        c,
                        ChainView { pts: w.chains[c].pts.push(q), last: b },
                    )
                    &&& v.used == w.used.update(c, true)
                    &&& forall|d: int, t: Single| #[trigger]
                        open_at(w, links, b, d, t) ==> !t.below(s) && (d < c ==> s.below(t))
                }
            ||| {
                &&& forall|d: int, t: Single| !#[trigger] open_at(w, links, b, d, t)
                &&& v.chains == w.chains.push(ChainView { pts: seq![q], last: b })
                &&& v.used == w.used
            }
        }),
{
    let n = w.used.len() as int;
    lemma_best_is_least(w, links, b, n);
    assert forall|d: int, t: Single| #[trigger] open_at(w, links, b, d, t) implies d < n by {}
    if let (Some(c), s) = best_chain(w, links, b, n) {
        assert(open_at(w, links, b, c, s));
    }
}

proof fn lemma_retiring(chains: Seq<ChainView>, b: int)
    ensures
        forall|i: int|
            0 <= i < chains.len() ==> {
                &&& (#[trigger] chains[i]).last >= b - MAX_AZ_GAP ==> kept(chains, b).contains(chains[i])
                &&& chains[i].last < b - MAX_AZ_GAP && chains[i].pts.len() >= MIN_LEN ==> retired(
                    chains,
                    b,
                ).contains(chains[i].pts)
                &&& chains[i].pts.len() >= MIN_LEN ==> long_lines(chains).contains(chains[i].pts)
            },
        forall|k: int|
            0 <= k < kept(chains, b).len() ==> chains.contains(#[trigger] kept(chains, b)[k]) && kept(
                chains,
                b,
            )[k].last >= b - MAX_AZ_GAP,
    decreases chains.len(),
{
    if chains.len() > 0 {
        let rest = chains.drop_last();
        lemma_retiring(rest, b);
        let n = chains.len() - 1;
        let (k0, k1) = (kept(rest, b), kept(chains, b));
        let (r0, r1) = (retired(rest, b), retired(chains, b));
        let (l0, l1) = (long_lines(rest), long_lines(chains));
        assert forall|i: int| 0 <= i < chains.len() implies {
            &&& (#[trigger] chains[i]).last >= b - MAX_AZ_GAP ==> k1.contains(chains[i])
            &&& chains[i].last < b - MAX_AZ_GAP && chains[i].pts.len() >= MIN_LEN ==> r1.contains(
                chains[i].pts,
            )
            &&& chains[i].pts.len() >= MIN_LEN ==> l1.contains(chains[i].pts)
        } by {
            if i < n {
                assert(rest[i] == chains[i]);
                if k0.contains(chains[i]) {
                    let k = choose|k: int| 0 <= k < k0.len() && k0[k] == chains[i];
                    assert(k1[k] == chains[i]);
                }
                if r0.contains(chains[i].pts) {
                    let k = choose|k: int| 0 <= k < r0.len() && r0[k] == chains[i].pts;
                    assert(r1[k] == chains[i].pts);
                }
                if l0.contains(chains[i].pts) {
                    let k = choose|k: int| 0 <= k < l0.len() && l0[k] == chains[i].pts;
                    assert(l1[k] == chains[i].pts);
                }
            } else {
                if chains[i].last >= b - MAX_AZ_GAP {
                    assert(k1[k1.len() - 1] == chains[i]);
                } else if chains[i].pts.len() >= MIN_LEN {
                    assert(r1[r1.len() - 1] == chains[i].pts);
                }
                if chains[i].pts.len() >= MIN_LEN {
                    assert(l1[l1.len() - 1] == chains[i].pts);
                }
            }
        }
        assert forall|k: int| 0 <= k < k1.len() implies chains.contains(#[trigger] k1[k]) && k1[k].last
            >= b - MAX_AZ_GAP by {
            if k < k0.len() {
                assert(k1[k] == k0[k]);
                let i = choose|i: int| 0 <= i < rest.len() && rest[i] == k0[k];
                assert(chains[i] == k1[k]);
            } else {
                assert(chains[n] == k1[k]);
            }
        }
    }
}

proof fn lemma_retired_are_chains(chains: Seq<ChainView>, b: int)
    ensures
        forall|k: int|
            0 <= k < retired(chains, b).len() ==> exists|i: int|
                0 <= i < chains.len() && (#[trigger] chains[i]).pts == #[trigger] retired(chains, b)[k]
                    && chains[i].last < b - MAX_AZ_GAP && chains[i].pts.len() >= MIN_LEN,
        forall|k: int|
            0 <= k < long_lines(chains).len() ==> exists|i: int|
                0 <= i < chains.len() && (#[trigger] chains[i]).pts == #[trigger] long_lines(chains)[k]
                    && chains[i].pts.len() >= MIN_LEN,
    decreases chains.len(),
{
    if chains.len() > 0 {
        let rest = chains.drop_last();
        lemma_retired_are_chains(rest, b);
        let n = chains.len() - 1;
        let (r0, r1) = (retired(rest, b), retired(chains, b));
        let (l0, l1) = (long_lines(rest), long_lines(chains));
        assert forall|k: int| 0 <= k < r1.len() implies exists|i: int|
            0 <= i < chains.len() && (#[trigger] chains[i]).pts == #[trigger] r1[k] && chains[i].last < b
                - MAX_AZ_GAP && chains[i].pts.len() >= MIN_LEN by {
            if k < r0.len() {
                assert(r1[k] == r0[k]);
                let i = choose|i: int|
                    0 <= i < rest.len() && (#[trigger] rest[i]).pts == r0[k] && rest[i].last < b
                        - MAX_AZ_GAP && rest[i].pts.len() >= MIN_LEN;
                assert(chains[i] == rest[i]);
            } else {
                assert(chains[n].pts == r1[k]);
            }
        }
        assert forall|k: int| 0 <= k < l1.len() implies exists|i: int|
            0 <= i < chains.len() && (#[trigger] chains[i]).pts == #[trigger] l1[k] && chains[i].pts.len()
                >= MIN_LEN by {
            if k < l0.len() {
                assert(l1[k] == l0[k]);
                let i = choose|i: int|
                    0 <= i < rest.len() && (#[trigger] rest[i]).pts == l0[k] && rest[i].pts.len()
                        >= MIN_LEN;
                assert(chains[i] == rest[i]);
            } else {
                assert(chains[n].pts == l1[k]);
            }
        }
    }
}

proof fn lemma_one_bucket(edges: Seq<Vec<(Single, Single)>>, p: usize, q: usize, a: int, b: int)
    requires
        0 <= a < edges.len(),
        0 <= b < edges.len(),
        stands_in(edges, p, a),
        stands_in(edges, q, b),
        p <= q,
    ensures
        a <= b,
        p == q ==> a == b,
{
    if b < a {
        lemma_points_before(edges, b + 1, a);
    }
    if p == q && a < b {
        lemma_points_before(edges, a + 1, b);
    }
}

/// Where point `other[j]` could have been continued by point `line[i]` (it stood a
/// few buckets before, the link fits, and no earlier point had continued it),
/// `line[i]` does not start its line, and follows a point with no worse score.
pub open spec fn preferred(
    edges: Seq<Vec<(Single, Single)>>,
    links: Seq<Vec<Link>>,
    line: Seq<usize>,
    other: Seq<usize>,
    i: int,
    j: int,
) -> bool {
    forall|a: int, b: int, t: Single|
        #![trigger stands_in(edges, other[j], a), stands_in(edges, line[i], b), scores(links[line[i] as int]@, other[j], t)]
        {
            &&& 0 <= a < b < edges.len()
            &&& b <= a + MAX_AZ_GAP
            &&& stands_in(edges, other[j], a)
            &&& stands_in(edges, line[i], b)
            &&& scores(links[line[i] as int]@, other[j], t)
            &&& t.below(Single { bits: SINGLE_MAX_BITS })
            &&& (j + 1 == other.len() || line[i] < other[j + 1])
        } ==> i > 0 && exists|s: Single| #[trigger]
            scores(links[line[i] as int]@, line[i - 1], s) && !t.below(s)
}

spec fn fair(
    edges: Seq<Vec<(Single, Single)>>,
    links: Seq<Vec<Link>>,
    line: Seq<usize>,
    other: Seq<usize>,
) -> bool {
    forall|i: int, j: int|
        0 <= i < line.len() && 0 <= j < other.len() ==> #[trigger] preferred(
            edges,
            links,
            line,
            other,
            i,
            j,
        )
}

spec fn all_fair(
    edges: Seq<Vec<(Single, Single)>>,
    links: Seq<Vec<Link>>,
    lines: Seq<Seq<usize>>,
) -> bool {
    forall|x: int, y: int|
        0 <= x < lines.len() && 0 <= y < lines.len() ==> #[trigger] fair(
            edges,
            links,
            lines[x],
            lines[y],
        )
}

proof fn lemma_fair_subset(
    edges: Seq<Vec<(Single, Single)>>,
    links: Seq<Vec<Link>>,
    all: Seq<Seq<usize>>,
    some: Seq<Seq<usize>>,
)
    requires
        all_fair(edges, links, all),
        forall|k: int| 0 <= k < some.len() ==> all.contains(#[trigger] some[k]),
    ensures
        all_fair(edges, links, some),
{
    assert forall|x: int, y: int| 0 <= x < some.len() && 0 <= y < some.len() implies #[trigger] fair(
        edges,
        links,
        some[x],
        some[y],
    ) by {
        let u = choose|u: int| 0 <= u < all.len() && all[u] == some[x];
        let v = choose|v: int| 0 <= v < all.len() && all[v] == some[y];
        assert(fair(edges, links, all[u], all[v]));
    }
}

/// What the lines keep while the points of bucket `b` are placed, beside
/// [`sound_weave`].
spec fn fair_weave(
    edges: Seq<Vec<(Single, Single)>>,
    links: Seq<Vec<Link>>,
    w: Weave,
    done: Seq<Seq<usize>>,
    b: int,
    next: int,
) -> bool {
    &&& sound_weave(edges, links, w, b, next)
    &&& forall|i: int|
        0 <= i < w.chains.len() && (i >= w.used.len() || w.used[i]) ==> (#[trigger] w.chains[i]).last
            == b
    &&& forall|i: int| 0 <= i < w.chains.len() ==> 0 <= (#[trigger] w.chains[i]).last
    &&& all_fair(edges, links, chain_lines(w.chains) + done)
    &&& forall|k: int| 0 <= k < done.len() ==> ended(edges, #[trigger] done[k], b, next)
}

/// The line ended more than [`MAX_AZ_GAP`] buckets before `b`.
spec fn ended(edges: Seq<Vec<(Single, Single)>>, line: Seq<usize>, b: int, next: int) -> bool {
    &&& line.len() > 0
    &&& forall|i: int| 0 <= i < line.len() ==> #[trigger] line[i] < next
    &&& exists|a: int| 0 <= a < b - MAX_AZ_GAP && #[trigger] stands_in(edges, line.last(), a)
}

proof fn lemma_fair_grown(
    edges: Seq<Vec<(Single, Single)>>,
    links: Seq<Vec<Link>>,
    line: Seq<usize>,
    other: Seq<usize>,
    q: usize,
    b: int,
)
    requires
        0 <= b < edges.len(),
        stands_in(edges, q, b),
        fair(edges, links, line, other),
        forall|i: int| 0 <= i < line.len() ==> #[trigger] line[i] < q,
    ensures
        fair(edges, links, line, other.push(q)),
{
    let more = other.push(q);
    assert forall|i: int, j: int| 0 <= i < line.len() && 0 <= j < more.len() implies #[trigger] preferred(
        edges,
        links,
        line,
        more,
        i,
        j,
    ) by {
        assert(line[i] < q);
        if j < other.len() {
            assert(more[j] == other[j]);
            assert(preferred(edges, links, line, other, i, j));
            if j + 1 < other.len() {
                assert(more[j + 1] == other[j + 1]);
            }
        } else {
            assert forall|a: int, c: int| 0 <= a < c < edges.len() && stands_in(edges, more[j], a) && stands_in(
                edges,
                line[i],
                c,
            ) implies false by {
                lemma_one_bucket(edges, line[i], q, c, a);
            }
        }
    }
}

proof fn lemma_fair_placed(
    edges: Seq<Vec<(Single, Single)>>,
    links: Seq<Vec<Link>>,
    w: Weave,
    done: Seq<Seq<usize>>,
    q: usize,
    b: int,
)
    requires
        0 <= b < edges.len(),
        fair_weave(edges, links, w, done, b, q as int),
        stands_in(edges, q, b),
    ensures
        fair_weave(edges, links, place(w, links[q as int]@, q, b), done, b, q + 1),
{
    let lq = links[q as int]@;
    let v = place(w, lq, q, b);
    let old_lines = chain_lines(w.chains) + done;
    let new_lines = chain_lines(v.chains) + done;
    lemma_place_sound(edges, links, w, q, b);
    points_join_the_best_chain(w, lq, q, b);
    // All points so far are numbered below q.
    assert forall|x: int, i: int| 0 <= x < old_lines.len() && 0 <= i < old_lines[x].len() implies #[trigger] old_lines[x][i]
        < q by {
        if x < w.chains.len() {
            assert(sound_chain(edges, links, w.chains[x], b, q as int));
            assert(old_lines[x] == w.chains[x].pts);
        } else {
            assert(old_lines[x] == done[x - w.chains.len()]);
            assert(ended(edges, done[x - w.chains.len()], b, q as int));
        }
    }
    // Nobody but an open chain could have been continued by q.
    assert forall|y: int, j: int, a: int, t: Single|
        0 <= y < old_lines.len() && j == old_lines[y].len() - 1 && 0 <= j && 0 <= a < b && b <= a
            + MAX_AZ_GAP && #[trigger] stands_in(edges, old_lines[y][j], a) && #[trigger] scores(
            lq,
            old_lines[y][j],
            t,
        ) && t.below(Single { bits: SINGLE_MAX_BITS }) implies open_at(w, lq, b, y, t) by {
        if y < w.chains.len() {
            let c = w.chains[y];
            assert(old_lines[y] == c.pts);
            assert(sound_chain(edges, links, c, b, q as int));
            lemma_one_bucket(edges, c.pts.last(), c.pts.last(), a, c.last);
        } else {
            let line = done[y - w.chains.len()];
            assert(old_lines[y] == line);
            assert(ended(edges, line, b, q as int));
            let e = choose|e: int| 0 <= e < b - MAX_AZ_GAP && #[trigger] stands_in(edges, line.last(), e);
            lemma_one_bucket(edges, line.last(), line.last(), a, e);
        }
    }
    if exists|c: int, s: Single|
        {
            &&& #[trigger] open_at(w, lq, b, c, s)
            &&& v.chains == w.chains.update(c, ChainView { pts: w.chains[c].pts.push(q), last: b })
            &&& v.used == w.used.update(c, true)
            &&& forall|d: int, t: Single| #[trigger]
                open_at(w, lq, b, d, t) ==> !t.below(s) && (d < c ==> s.below(t))
        } {
        let (c, s) = choose|c: int, s: Single|
            {
                &&& #[trigger] open_at(w, lq, b, c, s)
                &&& v.chains == w.chains.update(
                    c,
                    ChainView { pts: w.chains[c].pts.push(q), last: b },
                )
                &&& v.used == w.used.update(c, true)
                &&& forall|d: int, t: Single| #[trigger]
                    open_at(w, lq, b, d, t) ==> !t.below(s) && (d < c ==> s.below(t))
            };
        let grown = w.chains[c].pts.push(q);
        assert(sound_chain(edges, links, w.chains[c], b, q as int));
        assert(new_lines =~= old_lines.update(c, grown));
        assert forall|x: int, y: int| 0 <= x < new_lines.len() && 0 <= y < new_lines.len() implies #[trigger] fair(
            edges,
            links,
            new_lines[x],
            new_lines[y],
        ) by {
            assert(fair(edges, links, old_lines[x], old_lines[y]));
            if y == c {
                assert forall|i: int| 0 <= i < old_lines[x].len() implies #[trigger] old_lines[x][i] < q by {}
                lemma_fair_grown(edges, links, old_lines[x], old_lines[y], q, b);
            }
            if x == c {
                let other = new_lines[y];
                assert forall|a: int, t: Single|
                    0 <= a < b && b <= a + MAX_AZ_GAP && other.len() > 0 && #[trigger] stands_in(
                        edges,
                        other.last(),
                        a,
                    ) && #[trigger] scores(lq, other.last(), t) && t.below(
                        Single { bits: SINGLE_MAX_BITS },
                    ) implies !t.below(s) by {
                    if y == c {
                        lemma_one_bucket(edges, q, q, a, b);
                    } else {
                        let j = old_lines[y].len() - 1;
                        assert(old_lines[y][j] == other.last());
                        assert(stands_in(edges, old_lines[y][j], a));
                        assert(open_at(w, lq, b, y, t));
                    }
                }
                assert forall|j: int| 0 <= j < other.len() implies #[trigger] other[j] <= q by {
                    if y == c {
                        if j < old_lines[y].len() {
                            assert(other[j] == old_lines[y][j]);
                        }
                    } else {
                        assert(other[j] == old_lines[y][j]);
                    }
                }
                lemma_fair_last(edges, links, old_lines[c], new_lines[y], q, b, s);
            }
        }
    } else {
        let fresh_line = seq![q];
        assert(new_lines =~= chain_lines(w.chains).push(fresh_line) + done);
        let at = w.chains.len() as int;
        assert forall|x: int, y: int| 0 <= x < new_lines.len() && 0 <= y < new_lines.len() implies #[trigger] fair(
            edges,
            links,
            new_lines[x],
            new_lines[y],
        ) by {
            let ox = if x < at { x } else { x - 1 };
            let oy = if y < at { y } else { y - 1 };
            if x != at && y != at {
                assert(new_lines[x] == old_lines[ox] && new_lines[y] == old_lines[oy]);
                assert(fair(edges, links, old_lines[ox], old_lines[oy]));
            } else {
                assert forall|i: int, j: int| 0 <= i < new_lines[x].len() && 0 <= j < new_lines[y].len() implies #[trigger] preferred(
                    edges,
                    links,
                    new_lines[x],
                    new_lines[y],
                    i,
                    j,
                ) by {
                    if y == at {
                        // Nothing stands in a bucket after q's.
                        assert(new_lines[y][j] == q);
                        assert(new_lines[x][i] <= q) by {
                            if x != at {
                                assert(new_lines[x] == old_lines[ox]);
                                assert(old_lines[ox][i] < q);
                            }
                        }
                        assert forall|a: int, c: int| 0 <= a < c < edges.len() && stands_in(edges, q, a) && stands_in(
                            edges,
                            new_lines[x][i],
                            c,
                        ) implies false by {
                            lemma_one_bucket(edges, new_lines[x][i], q, c, a);
                        }
                    } else {
                        assert(new_lines[y] == old_lines[oy]);
                        assert(new_lines[x][i] == q);
                        if j + 1 < old_lines[oy].len() {
                            assert(old_lines[oy][j + 1] < q);
                        }
                        assert forall|a: int, c: int, t: Single|
                            #![trigger stands_in(edges, old_lines[oy][j], a), stands_in(edges, q, c), scores(lq, old_lines[oy][j], t)]
                            0 <= a < c < edges.len() && c <= a + MAX_AZ_GAP && stands_in(
                                edges,
                                old_lines[oy][j],
                                a,
                            ) && stands_in(edges, q, c) && scores(lq, old_lines[oy][j], t) && t.below(
                                Single { bits: SINGLE_MAX_BITS },
                            ) && j + 1 == old_lines[oy].len() implies false by {
                            lemma_one_bucket(edges, q, q, b, c);
                            assert(open_at(w, lq, b, oy, t));
                        }
                    }
                }
            }
        }
    }
    assert forall|k: int| 0 <= k < done.len() implies ended(edges, #[trigger] done[k], b, q + 1) by {
        assert(ended(edges, done[k], b, q as int));
    }
    assert forall|i: int| 0 <= i < v.chains.len() && (i >= v.used.len() || v.used[i]) implies (#[trigger] v.chains[i]).last
        == b by {
        if i < w.chains.len() && v.chains[i] != (ChainView { pts: w.chains[i].pts.push(q), last: b }) {
            assert(v.chains[i] == w.chains[i]);
        }
    }
    assert forall|i: int| 0 <= i < v.chains.len() implies 0 <= (#[trigger] v.chains[i]).last by {
        if i < w.chains.len() {
            assert(0 <= w.chains[i].last);
        }
    }
}

/// Point `q`, put behind `line` at score `s`, was preferred over `other`.
proof fn lemma_fair_last(
    edges: Seq<Vec<(Single, Single)>>,
    links: Seq<Vec<Link>>,
    line: Seq<usize>,
    other: Seq<usize>,
    q: usize,
    b: int,
    s: Single,
)
    requires
        0 <= b < edges.len(),
        line.len() > 0,
        stands_in(edges, q, b),
        fair(edges, links, line, other),
        scores(links[q as int]@, line.last(), s),
        forall|j: int| 0 <= j < other.len() ==> #[trigger] other[j] <= q,
        forall|a: int, t: Single|
            0 <= a < b && b <= a + MAX_AZ_GAP && other.len() > 0 && #[trigger] stands_in(
                edges,
                other.last(),
                a,
            ) && #[trigger] scores(links[q as int]@, other.last(), t) && t.below(
                Single { bits: SINGLE_MAX_BITS },
            ) ==> !t.below(s),
    ensures
        fair(edges, links, line.push(q), other),
{
    let more = line.push(q);
    let lq = links[q as int]@;
    assert forall|i: int, j: int| 0 <= i < more.len() && 0 <= j < other.len() implies #[trigger] preferred(
        edges,
        links,
        more,
        other,
        i,
        j,
    ) by {
        if i < line.len() {
            assert(more[i] == line[i]);
            assert(preferred(edges, links, line, other, i, j));
            if i > 0 {
                assert(more[i - 1] == line[i - 1]);
            }
        } else {
            assert(more[i] == q && more[i - 1] == line.last());
            assert forall|a: int, c: int, t: Single|
                #![trigger stands_in(edges, other[j], a), stands_in(edges, q, c), scores(lq, other[j], t)]
                0 <= a < c < edges.len() && c <= a + MAX_AZ_GAP && stands_in(edges, other[j], a) && stands_in(
                    edges,
                    q,
                    c,
                ) && scores(lq, other[j], t) && t.below(Single { bits: SINGLE_MAX_BITS }) && (j + 1
                    == other.len() || q < other[j + 1]) implies i > 0 && exists|r: Single| #[trigger]
                scores(lq, more[i - 1], r) && !t.below(r) by {
                lemma_one_bucket(edges, q, q, b, c);
                if j + 1 < other.len() {
                    assert(other[j + 1] <= q);
                }
                assert(other[j] == other.last());
                assert(stands_in(edges, other.last(), a) && scores(lq, other.last(), t));
                assert(scores(lq, more[i - 1], s));
            }
        }
    }
}

proof fn lemma_fair_all_placed(
    edges: Seq<Vec<(Single, Single)>>,
    links: Seq<Vec<Link>>,
    w: Weave,
    done: Seq<Seq<usize>>,
    first: int,
    n: int,
    b: int,
)
    requires
        0 <= b < edges.len(),
        0 <= n <= edges[b].len(),
        first == points_before(edges, b),
        points_before(edges, b + 1) <= usize::MAX,
        fair_weave(edges, links, w, done, b, first),
    ensures
        fair_weave(edges, links, place_all(w, links, first, n, b), done, b, first + n),
    decreases n,
{
    if n > 0 {
        lemma_fair_all_placed(edges, links, w, done, first, n - 1, b);
        let q = (first + n - 1) as usize;
        assert(q == first + n - 1);
        assert(stands_in(edges, q, b));
        lemma_fair_placed(edges, links, place_all(w, links, first, n - 1, b), done, q, b);
    }
}

proof fn lemma_fair_woven(edges: Seq<Vec<(Single, Single)>>, links: Seq<Vec<Link>>, n: int)
    requires
        0 <= n <= edges.len(),
        points_before(edges, edges.len() as int) <= usize::MAX,
    ensures
        ({
            let (chains, done) = woven(edges, links, n);
            let next = points_before(edges, n) as int;
            &&& all_fair(edges, links, chain_lines(chains) + done)
            &&& forall|i: int|
                0 <= i < chains.len() ==> sound_chain(edges, links, #[trigger] chains[i], n - 1, next)
                    && 0 <= chains[i].last
            &&& forall|k: int| 0 <= k < done.len() ==> ended(edges, #[trigger] done[k], n, next)
        }),
    decreases n,
{
    if n > 0 {
        lemma_fair_woven(edges, links, n - 1);
        lemma_points_before(edges, n, edges.len() as int);
        let (chains, done) = woven(edges, links, n - 1);
        let first = points_before(edges, n - 1) as int;
        let next = points_before(edges, n) as int;
        let w = fresh(chains);
        assert forall|i: int| 0 <= i < w.chains.len() implies sound_chain(
            edges,
            links,
            #[trigger] w.chains[i],
            n - 1,
            first,
        ) by {
            assert(sound_chain(edges, links, chains[i], n - 2, first));
        }
        assert forall|i: int| 0 <= i < w.used.len() && !#[trigger] w.used[i] implies w.chains[i].last < n - 1 by {
            assert(sound_chain(edges, links, chains[i], n - 2, first));
        }
        let m = edges[n - 1].len() as int;
        lemma_fair_all_placed(edges, links, w, done, first, m, n - 1);
        let v = place_all(w, links, first, m, n - 1);
        let all = chain_lines(v.chains) + done;
        let (kept_chains, new_done) = woven(edges, links, n);
        let some = chain_lines(kept_chains) + new_done;
        lemma_retiring(v.chains, n - 1);
        lemma_retired_are_chains(v.chains, n - 1);
        assert forall|k: int| 0 <= k < some.len() implies all.contains(#[trigger] some[k]) by {
            if k < kept_chains.len() {
                let i = choose|i: int| 0 <= i < v.chains.len() && v.chains[i] == kept_chains[k];
                assert(all[i] == some[k]);
            } else if k - kept_chains.len() < done.len() {
                assert(all[v.chains.len() + k - kept_chains.len()] == some[k]);
            } else {
                let line = retired(v.chains, n - 1)[k - kept_chains.len() - done.len()];
                assert(some[k] == line);
                let i = choose|i: int| 0 <= i < v.chains.len() && (#[trigger] v.chains[i]).pts == line;
                assert(all[i] == some[k]);
            }
        }
        lemma_fair_subset(edges, links, all, some);
        assert forall|i: int| 0 <= i < kept_chains.len() implies sound_chain(
            edges,
            links,
            #[trigger] kept_chains[i],
            n - 1,
            next,
        ) && 0 <= kept_chains[i].last by {
            let j = choose|j: int| 0 <= j < v.chains.len() && v.chains[j] == kept_chains[i];
            assert(sound_chain(edges, links, v.chains[j], n - 1, next));
        }
        assert forall|k: int| 0 <= k < new_done.len() implies ended(edges, #[trigger] new_done[k], n, next) by {
            if k < done.len() {
                assert(new_done[k] == done[k]);
                assert(ended(edges, done[k], n - 1, first + m));
                let a = choose|a: int|
                    0 <= a < n - 1 - MAX_AZ_GAP && #[trigger] stands_in(edges, done[k].last(), a);
                assert(stands_in(edges, new_done[k].last(), a));
            } else {
                let line = retired(v.chains, n - 1)[k - done.len()];
                assert(new_done[k] == line);
                let i = choose|i: int|
                    0 <= i < v.chains.len() && (#[trigger] v.chains[i]).pts == line && v.chains[i].last
                        < n - 1 - MAX_AZ_GAP;
                assert(sound_chain(edges, links, v.chains[i], n - 1, next));
                assert(stands_in(edges, line.last(), v.chains[i].last));
            }
        }
    } else {
        assert(chain_lines(Seq::empty()) =~= Seq::empty());
    }
}

/// Ridge lines follow the best links: a point follows the one before it on its
/// line although another point was free to it only where that one's score is no
/// lower, and it starts a line only where no point on a line was free to it.
pub proof fn ridge_lines_follow_the_best_links(
    edges: Seq<Vec<(Single, Single)>>,
    links: Seq<Vec<Link>>,
    k: int,
    i: int,
    l: int,
    j: int,
)
    requires
        points_before(edges, edges.len() as int) <= usize::MAX,
        0 <= k < ridge_lines(edges, links).len(),
        0 <= i < ridge_lines(edges, links)[k].len(),
        0 <= l < ridge_lines(edges, links).len(),
        0 <= j < ridge_lines(edges, links)[l].len(),
    ensures
        preferred(edges, links, ridge_lines(edges, links)[k], ridge_lines(edges, links)[l], i, j),
{
    let n = edges.len() as int;
    let (chains, done) = woven(edges, links, n);
    lemma_fair_woven(edges, links, n);
    lemma_retired_are_chains(chains, n);
    let all = chain_lines(chains) + done;
    let some = ridge_lines(edges, links);
    assert forall|x: int| 0 <= x < some.len() implies all.contains(#[trigger] some[x]) by {
        if x < done.len() {
            assert(all[chains.len() + x] == some[x]);
        } else {
            let line = long_lines(chains)[x - done.len()];
            assert(some[x] == line);
            let c = choose|c: int| 0 <= c < chains.len() && (#[trigger] chains[c]).pts == line;
            assert(all[c] == some[x]);
        }
    }
    lemma_fair_subset(edges, links, all, some);
    assert(fair(edges, links, some[k], some[l]));
}

/// Bucket by bucket nothing is lost but short chains: each point of the bucket is
/// put on a chain, chains that can still go on stay, and those that cannot become
/// lines if they are long enough. At the end all chains that are long enough
/// become lines, and finished lines stay.
pub proof fn only_short_chains_are_dropped(
    edges: Seq<Vec<(Single, Single)>>,
    links: Seq<Vec<Link>>,
    n: int,
)
    requires
        0 < n <= edges.len(),
        points_before(edges, edges.len() as int) <= usize::MAX,
    ensures
        ({
            let (before, done) = woven(edges, links, n - 1);
            let (after, all_done) = woven(edges, links, n);
            let first = points_before(edges, n - 1) as int;
            let chains = place_all(
                fresh(before),
                links,
                first,
                edges[n - 1].len() as int,
                n - 1,
            ).chains;
            &&& forall|q: usize| #[trigger]
                times_in(chain_lines(chains), q) == times_in(chain_lines(before), q) + if first <= q
                    < first + edges[n - 1].len() {
                    1nat
                } else {
                    0nat
                }
            &&& forall|i: int|
                0 <= i < chains.len() ==> {
                    &&& (#[trigger] chains[i]).last >= n - 1 - MAX_AZ_GAP ==> after.contains(chains[i])
                    &&& chains[i].last < n - 1 - MAX_AZ_GAP && chains[i].pts.len() >= MIN_LEN
                        ==> all_done.contains(chains[i].pts)
                }
            &&& done.is_prefix_of(all_done)
        }),
        ({
            let (chains, done) = woven(edges, links, edges.len() as int);
            &&& done.is_prefix_of(ridge_lines(edges, links))
            &&& forall|i: int|
                0 <= i < chains.len() && (#[trigger] chains[i]).pts.len() >= MIN_LEN ==> ridge_lines(
                    edges,
                    links,
                ).contains(chains[i].pts)
        }),
{
    let (before, done) = woven(edges, links, n - 1);
    let (after, all_done) = woven(edges, links, n);
    let first = points_before(edges, n - 1) as int;
    let m = edges[n - 1].len() as int;
    lemma_points_before(edges, n, edges.len() as int);
    let chains = place_all(fresh(before), links, first, m, n - 1).chains;
    assert forall|q: usize| #[trigger] times_in(chain_lines(chains), q) == times_in(
        chain_lines(before),
        q,
    ) + if first <= q < first + m {
        1nat
    } else {
        0nat
    } by {
        lemma_place_all_times(fresh(before), links, first, m, n - 1, q);
    }
    lemma_retiring(chains, n - 1);
    let late = retired(chains, n - 1);
    assert forall|line: Seq<usize>| late.contains(line) implies #[trigger] all_done.contains(line) by {
        let k = choose|k: int| 0 <= k < late.len() && late[k] == line;
        assert(all_done[done.len() + k] == line);
    }
    assert(done =~= all_done.take(done.len() as int));
    let (last, finished) = woven(edges, links, edges.len() as int);
    let lines = ridge_lines(edges, links);
    lemma_retiring(last, 0);
    assert(finished =~= lines.take(finished.len() as int));
    assert forall|i: int| 0 <= i < last.len() && (#[trigger] last[i]).pts.len() >= MIN_LEN implies lines.contains(
        last[i].pts,
    ) by {
        let long = long_lines(last);
        let k = choose|k: int| 0 <= k < long.len() && long[k] == last[i].pts;
        assert(lines[finished.len() + k] == last[i].pts);
    }
}

/// Points are numbered bucket by bucket: the `k`-th edge of bucket `b` comes behind all
/// those of the buckets before it, and is that edge.
pub proof fn points_are_numbered_bucket_by_bucket(
    edges: Seq<Vec<(Single, Single)>>,
    n: int,
    b: int,
    k: int,
)
    requires
        0 <= b < n <= edges.len() <= usize::MAX,
        0 <= k < edges[b].len(),
    ensures
        points_before(edges, b) + k < points_of(edges, n).len(),
        points_of(edges, n).len() == points_before(edges, n),
        points_of(edges, n)[points_before(edges, b) + k] == (EdgePoint {
            bucket: b as usize,
            elev: edges[b]@[k].0,
            dist: edges[b]@[k].1,
        }),
        points_before(edges, 0) == 0,
        points_before(edges, b + 1) == points_before(edges, b) + edges[b].len(),
    decreases n,
{
    lemma_points_len(edges, n);
    lemma_points_len(edges, n - 1);
    if b < n - 1 {
        points_are_numbered_bucket_by_bucket(edges, n - 1, b, k);
    }
}

/// Ridge lines have three points or more. From one point to the next they go on by one to
/// four buckets, step by less than 0.015 rad in elevation and by less than 30 % in distance.
pub proof fn ridge_lines_go_on_in_small_steps(
    edges: Seq<Vec<(Single, Single)>>,
    links: Seq<Vec<Link>>,
    k: int,
    i: int,
)
    requires
        points_before(edges, edges.len() as int) <= usize::MAX,
        0 <= k < ridge_lines(edges, links).len(),
        0 <= i < ridge_lines(edges, links)[k].len() - 1,
    ensures
        ridge_lines(edges, links)[k].len() >= 3,
        ({
            let p = ridge_lines(edges, links)[k][i];
            let q = ridge_lines(edges, links)[k][i + 1];
            &&& exists|a: int, b: int|
                a < b <= a + 4 && #[trigger] stands_in(edges, p, a) && #[trigger] stands_in(
                    edges,
                    q,
                    b,
                )
            &&& exists|l: int|
                0 <= l < links[q as int].len() && (#[trigger] links[q as int]@[l]).from == p
                    && links[q as int]@[l].elev_step.below(Single { bits: 0x3c75_c28f })
                    && links[q as int]@[l].dist_step.below(Single { bits: 0x3e99_999a })
        }),
{
    ridge_lines_continue(edges, links, k, i);
    let p = ridge_lines(edges, links)[k][i];
    let q = ridge_lines(edges, links)[k][i + 1];
    let s = score_from(links[q as int]@, p)->Some_0;
    lemma_scores(links[q as int]@, p, s);
    assert(scores(links[q as int]@, p, s));
}

/// After a bucket, a chain that was last continued within four buckets stays open and keeps
/// its place; one that fell further behind is closed, and becomes a line if it has three
/// points or more. At the end every open chain is closed likewise.
pub proof fn chains_close_after_four_buckets(chains: Seq<ChainView>, c: ChainView, b: int)
    ensures
        b - c.last <= 4 ==> kept(chains.push(c), b) == kept(chains, b).push(c) && retired(
            chains.push(c),
            b,
        ) == retired(chains, b),
        b - c.last > 4 ==> kept(chains.push(c), b) == kept(chains, b),
        b - c.last > 4 && c.pts.len() >= 3 ==> retired(chains.push(c), b) == retired(chains, b).push(
            c.pts,
        ),
        c.pts.len() < 3 ==> retired(chains.push(c), b) == retired(chains, b) && long_lines(
            chains.push(c),
        ) == long_lines(chains),
        c.pts.len() >= 3 ==> long_lines(chains.push(c)) == long_lines(chains).push(c.pts),
        kept(Seq::empty(), b).len() == 0,
        retired(Seq::empty(), b).len() == 0,
        long_lines(Seq::empty()).len() == 0,
{
    assert(chains.push(c).drop_last() =~= chains);
}

/// Buckets are taken in order, and so are the points of each; every chain that is open at the
/// start of a bucket may get one point there.
pub proof fn buckets_are_woven_in_order(
    edges: Seq<Vec<(Single, Single)>>,
    links: Seq<Vec<Link>>,
    n: int,
    k: int,
    w: Weave,
)
    requires
        0 < n <= edges.len(),
        0 < k,
    ensures
        ({
            let (chains, done) = woven(edges, links, n - 1);
            let first = points_before(edges, n - 1) as int;
            let placed = place_all(fresh(chains), links, first, edges[n - 1].len() as int, n - 1);
            &&& woven(edges, links, n).0 == kept(placed.chains, n - 1)
            &&& woven(edges, links, n).1 == done + retired(placed.chains, n - 1)
            &&& place_all(w, links, first, 0, n - 1) == w
            &&& place_all(w, links, first, k, n - 1) == place(
                place_all(w, links, first, k - 1, n - 1),
                links[first + k - 1]@,
                (first + k - 1) as usize,
                n - 1,
            )
            &&& fresh(chains).chains == chains
            &&& fresh(chains).used.len() == chains.len()
            &&& forall|i: int| 0 <= i < chains.len() ==> !#[trigger] fresh(chains).used[i]
        }),
        woven(edges, links, 0).0.len() == 0 && woven(edges, links, 0).1.len() == 0,
        ridge_lines(edges, links) == woven(edges, links, edges.len() as int).1 + long_lines(
            woven(edges, links, edges.len() as int).0,
        ),
{
}

/// The polylines give each point of a ridge line by its bucket and its elevation.
pub proof fn polylines_follow_their_points(
    h: &Horizon,
    links: &Vec<Vec<Link>>,
    lines: Vec<Vec<(usize, Single)>>,
    k: int,
    i: int,
)
    requires
        links.len() == points_before(h.edges@, h.edges.len() as int),
        call_ensures(Horizon::edge_polylines, (h, links), lines),
        0 <= k < lines.len(),
        0 <= i < lines@[k].len(),
    ensures
        ({
            let q = ridge_lines(h.edges@, links@)[k][i] as int;
            let pts = points_of(h.edges@, h.edges.len() as int);
            &&& lines.len() == ridge_lines(h.edges@, links@).len()
            &&& lines@[k].len() == ridge_lines(h.edges@, links@)[k].len()
            &&& q < pts.len()
            &&& lines@[k]@[i].0 == pts[q].bucket && lines@[k]@[i].1 == pts[q].elev
        }),
{
    let ids = ridge_lines(h.edges@, links@);
    assert(ids[k][i] < points_of(h.edges@, h.edges.len() as int).len());
}

}

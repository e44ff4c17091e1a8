//! The panorama and compass views: which of the visible summits they show and
//! in what order, how far the compass reaches, and the hand-drawn jitter.

use vstd::prelude::*;
use crate::ieee::{Double, Single};
use crate::order::{Ranked, stable_sort};

verus! {

/// 1.0 in binary64: the compass reaches at least one mile.
pub const NEAREST_REACH_BITS: u64 = 0x3ff0_0000_0000_0000;

/// 25.0 in binary64: the compass reaches at most twenty-five miles.
pub const FARTHEST_REACH_BITS: u64 = 0x4039_0000_0000_0000;

/// A summit that could stand on the panorama.
#[derive(Debug, Clone, Copy)]
pub struct PanoCandidate {
    /// Summit hidden behind a nearer ridge but the fell's slopes are in view.
    pub obscured: bool,
    pub dist_km: Double,
    /// Prominence (m), and the least prominence worth showing at its distance.
    pub prominence: Double,
    pub cut: Double,
}

impl PanoCandidate {
    pub open spec fn stands_out(self) -> bool {
        self.cut.at_most(self.prominence)
    }

    /// Visible summits first, then nearer ones.
    pub open spec fn wins_over(self, other: PanoCandidate) -> bool {
        ||| !self.obscured && other.obscured
        ||| self.obscured == other.obscured && self.dist_km.below(other.dist_km)
    }
}

struct PanoRank {
    at: usize,
    obscured: bool,
    dist_km: Double,
}

impl Ranked for PanoRank {
    closed spec fn precedes(&self, other: &Self) -> bool {
        if self.obscured != other.obscured {
            !self.obscured
        } else {
            self.dist_km.key() <= other.dist_km.key()
        }
    }

    proof fn total(a: &Self, b: &Self) {
    }

    proof fn transitive(a: &Self, b: &Self, c: &Self) {
    }

    fn ranks_before(&self, other: &Self) -> (r: bool) {
        if self.obscured != other.obscured {
            !self.obscured
        } else {
            self.dist_km.order_key() <= other.dist_km.order_key()
        }
    }
}

/// The summits to show: those prominent enough for their distance, visible
/// summits before obscured ones and nearer before farther, so that these win the
/// name-collision pass. Positions into `peaks`; ties keep their order.
pub fn select_peaks(peaks: &Vec<PanoCandidate>) -> (chosen: Vec<usize>)
    requires
        forall|i: int| 0 <= i < peaks.len() ==> !(#[trigger] peaks@[i]).dist_km.nan(),
    ensures
        forall|i: usize| #[trigger]
            chosen@.contains(i) <==> i < peaks.len() && peaks@[i as int].stands_out(),
        forall|a: int, b: int|
            #![trigger chosen@[a], chosen@[b]]
            0 <= a < b < chosen.len() ==> {
                let (p, q) = (peaks@[chosen@[a] as int], peaks@[chosen@[b] as int]);
                p.wins_over(q) || !q.wins_over(p) && chosen@[a] < chosen@[b]
            },
{
    let mut ranks: Vec<PanoRank> = Vec::new();
    let mut i: usize = 0;
    while i < peaks.len()
        invariant
            i <= peaks.len(),
            forall|k: int|
                0 <= k < ranks.len() ==> {
                    let r = #[trigger] ranks@[k];
                    &&& r.at < i
                    &&& peaks@[r.at as int].stands_out()
                    &&& r.obscured == peaks@[r.at as int].obscured
                    &&& r.dist_km == peaks@[r.at as int].dist_km
                },
            forall|a: int, b: int|
                #![trigger ranks@[a], ranks@[b]]
                0 <= a < b < ranks.len() ==> ranks@[a].at < ranks@[b].at,
            forall|p: usize|
                p < i && (#[trigger] peaks@[p as int]).stands_out() ==> exists|k: int|
                    0 <= k < ranks.len() && (#[trigger] ranks@[k]).at == p,
        decreases peaks.len() - i,
    {
        let p = peaks[i];
        let ghost before = ranks@;
        if p.cut.le(p.prominence) {
            ranks.push(PanoRank { at: i, obscured: p.obscured, dist_km: p.dist_km });
        }
        proof {
            assert forall|q: usize| q < i + 1 && (#[trigger] peaks@[q as int]).stands_out() implies exists|k: int|
                0 <= k < ranks.len() && (#[trigger] ranks@[k]).at == q by {
                if q < i {
                    let k = choose|k: int| 0 <= k < before.len() && (#[trigger] before[k]).at == q;
                    assert(ranks@[k].at == q);
                } else {
                    assert(ranks@[before.len() as int].at == q);
                }
            }
        }
        i = i + 1;
    }
    let order = stable_sort(&ranks);
    let mut chosen: Vec<usize> = Vec::new();
    let mut k: usize = 0;
    while k < order.len()
        invariant
            k <= order.len(),
            order.len() == ranks.len(),
            chosen.len() == k,
            forall|j: int| 0 <= j < order.len() ==> #[trigger] order@[j] < ranks.len(),
            forall|j: int| 0 <= j < k ==> #[trigger] chosen@[j] == ranks@[order@[j] as int].at,
        decreases order.len() - k,
    {
        chosen.push(ranks[order[k]].at);
        k = k + 1;
    }
    proof {
        assert forall|p: usize| #[trigger] chosen@.contains(p) <==> p < peaks.len()
            && peaks@[p as int].stands_out() by {
            if chosen@.contains(p) {
                let j = choose|j: int| 0 <= j < chosen.len() && chosen@[j] == p;
                assert(ranks@[order@[j] as int].at == p);
            }
            if p < peaks.len() && peaks@[p as int].stands_out() {
                let k = choose|k: int| 0 <= k < ranks.len() && (#[trigger] ranks@[k]).at == p;
                assert(order@.contains(k as usize));
                let j = choose|j: int| 0 <= j < order.len() && order@[j] == k as usize;
                assert(chosen@[j] == p);
            }
        }
        assert forall|a: int, b: int|
            #![trigger chosen@[a], chosen@[b]]
            0 <= a < b < chosen.len() implies {
                let (p, q) = (peaks@[chosen@[a] as int], peaks@[chosen@[b] as int]);
                p.wins_over(q) || !q.wins_over(p) && chosen@[a] < chosen@[b]
            } by {
            let (x, y) = (order@[a], order@[b]);
            assert(crate::order::stands_before(ranks@, x, y));
            assert(ranks@[x as int].at == chosen@[a] && ranks@[y as int].at == chosen@[b]);
        }
    }
    chosen
}

/// The largest of the distances, but no less than the least reach.
pub open spec fn reach(miles: Seq<Double>) -> Double
    decreases miles.len(),
{
    if miles.len() == 0 {
        Double { bits: NEAREST_REACH_BITS }
    } else {
        reach(miles.drop_last()).larger(miles.last())
    }
}

/// How far (miles) the compass view reaches: to the farthest summit, but never
/// less than one mile nor more than twenty-five.
pub fn compass_reach(miles: &Vec<Double>) -> (r: Double)
    ensures
        r == (if (Double { bits: FARTHEST_REACH_BITS }).below(reach(miles@)) {
            Double { bits: FARTHEST_REACH_BITS }
        } else {
            reach(miles@)
        }),
{
    let mut far = Double { bits: NEAREST_REACH_BITS };
    let mut i: usize = 0;
    while i < miles.len()
        invariant
            i <= miles.len(),
            far == reach(miles@.take(i as int)),
        decreases miles.len() - i,
    {
        proof {
            assert(miles@.take(i as int + 1).drop_last() =~= miles@.take(i as int));
        }
        far = far.max(miles[i]);
        i = i + 1;
    }
    proof {
        assert(miles@.take(i as int) =~= miles@);
    }
    let limit = Double { bits: FARTHEST_REACH_BITS };
    if limit.lt(far) {
        limit
    } else {
        far
    }
}

/// Before it is capped, the reach is at least one mile and no summit is farther
/// away.
pub proof fn reach_covers(miles: Seq<Double>, i: int)
    requires
        0 <= i < miles.len(),
        !miles[i].nan(),
    ensures
        !reach(miles).nan(),
        (Double { bits: 0x3ff0_0000_0000_0000 }).at_most(reach(miles)),
        miles[i].at_most(reach(miles)),
    decreases miles.len(),
{
    lemma_reach_number(miles.drop_last());
    if i < miles.len() - 1 {
        reach_covers(miles.drop_last(), i);
    }
}

proof fn lemma_reach_number(miles: Seq<Double>)
    ensures
        !reach(miles).nan(),
        (Double { bits: NEAREST_REACH_BITS }).at_most(reach(miles)),
    decreases miles.len(),
{
    if miles.len() > 0 {
        lemma_reach_number(miles.drop_last());
    }
}

/// Cheap deterministic jitter from an integer, for hand-drawn variation: a
/// number of 65535ths.
pub fn jitter(i: u32) -> (j: u32)
    ensures
        j == (i * 2_654_435_761) % 0x1_0000_0000 / 256 % 0x1_0000,
        j <= 65_535,
{
    let x: u64 = (i as u64 * 2_654_435_761) % 0x1_0000_0000;
    (x / 256 % 0x1_0000) as u32
}

/// The ring radii (miles) in binary32: 1, 2, 3, 5, 10, 15, 20 and 25.
pub open spec fn ring_radius(k: int) -> Single {
    Single {
        bits: if k == 0 {
            0x3f80_0000
        } else if k == 1 {
            0x4000_0000
        } else if k == 2 {
            0x4040_0000
        } else if k == 3 {
            0x40a0_0000
        } else if k == 4 {
            0x4120_0000
        } else if k == 5 {
            0x4170_0000
        } else if k == 6 {
            0x41a0_0000
        } else {
            0x41c8_0000
        },
    }
}

/// The compass rings to draw: radii in order, up to the first that exceeds
/// `limit`.
pub fn compass_rings(limit: Single) -> (rings: Vec<Single>)
    ensures
        rings.len() <= 8,
        forall|k: int| 0 <= k < rings.len() ==> #[trigger] rings@[k] == ring_radius(k) && !limit.below(
            ring_radius(k),
        ),
        rings.len() < 8 ==> limit.below(ring_radius(rings.len() as int)),
{
    let all: [u32; 8] = [
        0x3f80_0000,
        0x4000_0000,
        0x4040_0000,
        0x40a0_0000,
        0x4120_0000,
        0x4170_0000,
        0x41a0_0000,
        0x41c8_0000,
    ];
    let mut rings: Vec<Single> = Vec::new();
    let mut k: usize = 0;
    while k < 8
        invariant
            k <= 8,
            rings.len() == k,
            all@ == seq![
                0x3f80_0000u32,
                0x4000_0000,
                0x4040_0000,
                0x40a0_0000,
                0x4120_0000,
                0x4170_0000,
                0x41a0_0000,
                0x41c8_0000,
            ],
            forall|j: int| 0 <= j < k ==> #[trigger] rings@[j] == ring_radius(j) && !limit.below(
                ring_radius(j),
            ),
        decreases 8 - k,
    {
        let r = Single { bits: all[k] };
        proof {
            assert(r == ring_radius(k as int));
        }
        if limit.lt(r) {
            return rings;
        }
        rings.push(r);
        k = k + 1;
    }
    rings
}

/// The reach before it is capped is the distance of a summit, or one mile.
pub proof fn reach_is_a_summit(miles: Seq<Double>)
    ensures
        reach(miles) == (Double { bits: 0x3ff0_0000_0000_0000 }) || exists|i: int|
            0 <= i < miles.len() && #[trigger] miles[i] == reach(miles),
    decreases miles.len(),
{
    if miles.len() > 0 {
        let before = miles.drop_last();
        reach_is_a_summit(before);
        lemma_reach_number(before);
        let last = miles.len() - 1;
        if reach(before) != (Double { bits: NEAREST_REACH_BITS }) {
            let i = choose|i: int| 0 <= i < before.len() && #[trigger] before[i] == reach(before);
            assert(miles[i] == before[i]);
        }
        assert(miles[last] == miles.last());
    }
}

/// A summit in view beats every obscured one, however near that is; of two that
/// are both in view, or both obscured, the nearer wins, and none beats itself.
pub proof fn nearer_summits_in_view_win(p: PanoCandidate, q: PanoCandidate)
    ensures
        !p.obscured && q.obscured ==> p.wins_over(q) && !q.wins_over(p),
        p.obscured == q.obscured ==> p.wins_over(q) == p.dist_km.below(q.dist_km),
        !p.wins_over(p),
        p.stands_out() == p.cut.at_most(p.prominence),
{
}

/// The rings widen outwards, from one mile to twenty-five.
pub proof fn rings_widen(k: int)
    requires
        0 <= k < 7,
    ensures
        ring_radius(k).below(ring_radius(k + 1)),
        ring_radius(0).at_most(ring_radius(k)),
        ring_radius(k).at_most(ring_radius(7)),
{
}

/// The compass never reaches less than one mile nor more than twenty-five, and between the
/// two reaches every summit.
pub proof fn compass_reaches_the_summits(miles: &Vec<Double>, r: Double, i: int)
    requires
        call_ensures(compass_reach, (miles,), r),
    ensures
        (Double { bits: 0x3ff0_0000_0000_0000 }).at_most(r),
        r.at_most(Double { bits: 0x4039_0000_0000_0000 }),
        0 <= i < miles.len() && miles@[i].at_most(Double { bits: 0x4039_0000_0000_0000 })
            ==> miles@[i].at_most(r),
        r == (Double { bits: 0x3ff0_0000_0000_0000 }) || r == (Double {
            bits: 0x4039_0000_0000_0000,
        }) || miles@.contains(r),
{
    lemma_reach_number(miles@);
    reach_is_a_summit(miles@);
    if 0 <= i < miles.len() && !miles@[i].nan() {
        reach_covers(miles@, i);
    }
}

/// The summits chosen are exactly those whose prominence is at least their cut, each once.
/// Those in view come before obscured ones, among these the nearer first, and of two as near
/// the one that came first.
pub proof fn chosen_summits_are_prominent_and_near(
    peaks: &Vec<PanoCandidate>,
    chosen: Vec<usize>,
    a: int,
    b: int,
)
    requires
        call_ensures(select_peaks, (peaks,), chosen),
        0 <= a < b < chosen.len(),
    ensures
        forall|i: usize|
            i < peaks.len() ==> (#[trigger] chosen@.contains(i) <==> peaks@[i as int].cut.at_most(
                peaks@[i as int].prominence,
            )),
        chosen@[a] < peaks.len() && chosen@[b] < peaks.len() && chosen@[a] != chosen@[b],
        ({
            let (p, q) = (peaks@[chosen@[a] as int], peaks@[chosen@[b] as int]);
            &&& p.obscured ==> q.obscured
            &&& p.obscured == q.obscured ==> !q.dist_km.below(p.dist_km)
            &&& p.obscured == q.obscured && p.dist_km.same(q.dist_km) ==> chosen@[a] < chosen@[b]
        }),
{
    assert(chosen@.contains(chosen@[a]) && chosen@.contains(chosen@[b]));
}

/// The rings drawn are those of the eight that the limit does not fall short of, from the
/// innermost outwards: 1, 2, 3, 5, 10, 15, 20 and 25 miles.
pub proof fn rings_stop_at_the_limit(limit: Single, rings: Vec<Single>, k: int)
    requires
        call_ensures(compass_rings, (limit,), rings),
        0 <= k < 8,
    ensures
        ({
            let radii = seq![
                0x3f80_0000u32,
                0x4000_0000,
                0x4040_0000,
                0x40a0_0000,
                0x4120_0000,
                0x4170_0000,
                0x41a0_0000,
                0x41c8_0000,
            ];
            let r = Single { bits: radii[k] };
            &&& k < rings.len() ==> rings@[k] == r
            &&& r.at_most(limit) <==> k < rings.len() && !limit.nan()
        }),
{
    let n = rings.len() as int;
    if k >= n {
        lemma_rings_widen(n, k);
    }
}

proof fn lemma_rings_widen(j: int, k: int)
    requires
        0 <= j <= k < 8,
    ensures
        ring_radius(j).at_most(ring_radius(k)),
    decreases k - j,
{
    if j < k {
        lemma_rings_widen(j, k - 1);
        rings_widen(k - 1);
    }
}

/// The jitter is sixteen bits out of the middle of a product, so that neighbours differ.
pub proof fn jitter_scatters(i: u32, j: u32)
    requires
        call_ensures(jitter, (i,), j),
    ensures
        j <= 0xffff,
        j == (i * 2_654_435_761) / 256 % 0x1_0000,
{
    lemma_middle_bits(i * 2_654_435_761);
}

proof fn lemma_middle_bits(x: int)
    ensures
        x % 0x1_0000_0000 / 256 % 0x1_0000 == x / 256 % 0x1_0000,
{
    let (q, r) = (x / 0x1_0000_0000, x % 0x1_0000_0000);
    let h = r / 256;
    let (t, l) = (h / 0x1_0000, h % 0x1_0000);
    assert(x == q * 0x1_0000_0000 + r);
    vstd::arithmetic::div_mod::lemma_fundamental_div_mod_converse(
        x,
        256,
        q * 0x100_0000 + h,
        r % 256,
    );
    vstd::arithmetic::div_mod::lemma_fundamental_div_mod_converse(
        x / 256,
        0x1_0000,
        q * 256 + t,
        l,
    );
}

}

use airhorizon::horizon::{
    bucket_of, cast, scan_ray, Horizon, Sample, AZIMUTH_BUCKETS, NADIR_BITS, NADIR_SINGLE_BITS,
};
use airhorizon::ieee::{Double, Single};
use airhorizon::panorama::{
    compass_reach, compass_rings, jitter, select_peaks, PanoCandidate,
};
use airhorizon::ridge::{link_edges, EdgePoint, Link};
use airhorizon::sight::{
    ravines, visible_peaks, visible_water, Depth, Probe, Ravine, Sighting, Visibility, WaterSample,
};
use airhorizon::water::{Patch, Row, WaterMask};

fn d(v: f64) -> Double {
    Double { bits: v.to_bits() }
}

fn s(v: f32) -> Single {
    Single { bits: v.to_bits() }
}

/// Samples at the given (distance, angle) pairs.
fn ray(points: &[(f64, f64)]) -> Vec<Sample> {
    points
        .iter()
        .map(|&(dist, angle)| Sample {
            angle: d(angle),
            elev: s(angle as f32),
            dist: s(dist as f32),
            slope: s(dist as f32 / 10.0),
            past: points.iter().filter(|&&(near, _)| dist - near > 2000.0).count(),
        })
        .collect()
}

#[test]
fn constants_are_the_numbers_they_stand_for() {
    assert_eq!(NADIR_BITS, (-std::f64::consts::PI / 2.0).to_bits());
    assert_eq!(NADIR_SINGLE_BITS, ((-std::f64::consts::PI / 2.0) as f32).to_bits());
}

#[test]
fn a_ray_shows_what_rises_above_everything_nearer() {
    let v = scan_ray(&ray(&[(1000.0, 0.1), (2000.0, 0.05), (3000.5, 0.1), (4000.0, 0.2)]));
    assert_eq!((v.elev, v.dist), (s(0.2), s(4000.0)));
    assert_eq!(v.profile, vec![(s(0.1), s(100.0)), (s(0.2), s(400.0))]);
    // The crest at 1 km ends in a jump of 3 km, so it is an edge.
    assert_eq!(v.edges, vec![(s(0.1), s(1000.0))]);
}

#[test]
fn a_short_step_is_no_edge() {
    let v = scan_ray(&ray(&[(1000.0, -0.3), (2900.0, 0.05), (3000.0, 0.06)]));
    assert!(v.edges.is_empty());
    assert_eq!(v.profile.len(), 3);
    let v = scan_ray(&ray(&[(1000.0, -0.3), (3000.0, 0.05)]));
    assert!(v.edges.is_empty());
    let v = scan_ray(&ray(&[(1000.0, -0.3), (3001.0, 0.05)]));
    assert_eq!(v.edges, vec![(s(-0.3), s(1000.0))]);
}

#[test]
fn edges_stay_below_the_skyline() {
    let points = [(100.0, -0.2), (2500.0, -0.1), (2600.0, 0.0), (9000.0, 0.3), (9100.0, 0.2)];
    let v = scan_ray(&ray(&points));
    assert_eq!(v.edges, vec![(s(-0.2), s(100.0)), (s(0.0), s(2600.0))]);
    assert!(v.edges.iter().all(|e| e.0.lt(v.elev)));
}

#[test]
fn a_ray_without_terrain_looks_at_nothing() {
    let v = scan_ray(&Vec::new());
    assert_eq!((v.elev.bits, v.dist), (NADIR_SINGLE_BITS, s(0.0)));
    assert!(v.edges.is_empty() && v.profile.is_empty());
    let v = scan_ray(&ray(&[(50.0, f64::NAN)]));
    assert_eq!(v.elev.bits, NADIR_SINGLE_BITS);
    let v = scan_ray(&ray(&[(50.0, f64::NAN), (60.0, -1.0)]));
    assert_eq!((v.elev, v.dist), (s(-1.0), s(60.0)));
}

fn horizon() -> Horizon {
    let mut rays: Vec<Vec<Sample>> = (0..AZIMUTH_BUCKETS).map(|_| ray(&[(900.0, 0.1)])).collect();
    rays[7] = ray(&[(1000.0, 0.1), (5000.0, 0.25)]);
    rays[9] = ray(&[(1000.0, 0.2), (5000.0, 0.25)]);
    rays[20] = Vec::new();
    cast(Some(d(81.0)), &rays).unwrap()
}

#[test]
fn horizons_are_cast_ray_by_ray() {
    let h = horizon();
    assert_eq!(h.eye_ground_m, d(81.0));
    assert_eq!(h.elev_rad.len(), 3600);
    assert_eq!(h.at_bearing_deg(7), s(0.25));
    assert_eq!(h.at_bearing_deg(3607), s(0.25));
    assert_eq!(h.at_bearing_deg(20).bits, NADIR_SINGLE_BITS);
    assert_eq!(h.dist_at_bearing_deg(3600), s(900.0));
    assert_eq!(h.dist_at_bearing_deg(9), s(5000.0));
    // The first of the two equal maxima.
    assert_eq!(h.highest(), 7);
    let top = h.edge_top();
    assert_eq!((top[7], top[9], top[0]), (s(0.1), s(0.2), s(f32::NEG_INFINITY)));
    assert!(cast(None, &(0..3600).map(|_| Vec::new()).collect()).is_none());
}

#[test]
fn buckets_wrap_around() {
    assert_eq!(bucket_of(0), 0);
    assert_eq!(bucket_of(-1), 3599);
    assert_eq!(bucket_of(-3600), 0);
    assert_eq!(bucket_of(3605), 5);
    assert_eq!(bucket_of(i32::MIN), i32::MIN.rem_euclid(3600) as usize);
    assert_eq!(bucket_of(i32::MAX), i32::MAX.rem_euclid(3600) as usize);
}

/// Compare each point with those of the four buckets before it.
fn links(points: &[EdgePoint]) -> Vec<Vec<Link>> {
    let num = |v: Single| f32::from_bits(v.bits);
    points
        .iter()
        .map(|q| {
            let near = points.iter().enumerate();
            near.filter(|(_, p)| p.bucket < q.bucket && q.bucket - p.bucket <= 4)
                .map(|(i, p)| {
                    let de = (num(p.elev) - num(q.elev)).abs();
                    let dd = (num(p.dist) - num(q.dist)).abs() / num(p.dist).max(1.0);
                    Link {
                        from: i,
                        elev_step: s(de),
                        dist_step: s(dd),
                        score: s(de / 0.015 + dd / 0.30),
                    }
                })
                .collect()
        })
        .collect()
}

fn with_edges(edges: &[(usize, f32, f32)]) -> Horizon {
    let mut h = horizon();
    for e in h.edges.iter_mut() {
        e.clear();
    }
    for &(b, elev, dist) in edges {
        h.edges[b].push((s(elev), s(dist)));
    }
    h
}

fn lines(h: &Horizon) -> Vec<Vec<(usize, f32)>> {
    let l = links(&h.edge_points());
    let lines = h.edge_polylines(&l);
    lines
        .iter()
        .map(|line| line.iter().map(|&(b, e)| (b, f32::from_bits(e.bits))).collect())
        .collect()
}

#[test]
fn edges_are_traced_into_lines() {
    let h = with_edges(&[
        (10, 0.10, 1000.0),
        (11, 0.105, 1100.0),
        (11, 0.30, 9000.0),
        (12, 0.11, 1200.0),
        // A gap of three buckets is bridged.
        (16, 0.115, 1250.0),
        // Two points are too few.
        (40, 0.5, 700.0),
        (41, 0.5, 700.0),
    ]);
    assert_eq!(h.edge_points()[2], EdgePoint { bucket: 11, elev: s(0.30), dist: s(9000.0) });
    assert_eq!(lines(&h), vec![vec![(10, 0.10), (11, 0.105), (12, 0.11), (16, 0.115)]]);
}

#[test]
fn a_wide_gap_or_a_big_step_ends_a_line() {
    let gap = [(10, 0.1, 900.0), (11, 0.1, 900.0), (12, 0.1, 900.0), (17, 0.1, 900.0)];
    assert_eq!(lines(&with_edges(&gap)), vec![vec![(10, 0.1), (11, 0.1), (12, 0.1)]]);
    let rise = [(10, 0.1, 900.0), (11, 0.1, 900.0), (12, 0.1, 900.0), (13, 0.12, 900.0)];
    assert_eq!(lines(&with_edges(&rise)), vec![vec![(10, 0.1), (11, 0.1), (12, 0.1)]]);
    let jump = [(10, 0.1, 900.0), (11, 0.1, 900.0), (12, 0.1, 900.0), (13, 0.1, 1300.0)];
    assert_eq!(lines(&with_edges(&jump)), vec![vec![(10, 0.1), (11, 0.1), (12, 0.1)]]);
}

#[test]
fn the_best_chain_gets_the_point() {
    let h = with_edges(&[
        (1, 0.100, 900.0),
        (1, 0.110, 900.0),
        (2, 0.109, 900.0),
        (3, 0.108, 900.0),
        (3, 0.107, 900.0),
    ]);
    assert_eq!(lines(&h), vec![vec![(1, 0.110), (2, 0.109), (3, 0.108)]]);
    // No point is on two lines.
    let l = links(&h.edge_points());
    let ids = link_edges(&h.edges, &l);
    assert_eq!(ids, vec![vec![1, 2, 3]]);
}

#[test]
fn ravines_are_cut_into_what_shows() {
    let probe = |angle: f64, depth: f64| Probe {
        angle: d(angle),
        lowered: d(angle - 0.035),
        elev: s(angle as f32),
        dist: s(100.0),
        depths: vec![
            Depth { wide: d(f64::MIN), narrow: s(f32::NEG_INFINITY) },
            Depth { wide: d(depth), narrow: s(depth as f32) },
            Depth { wide: d(depth / 2.0), narrow: s(depth as f32 / 2.0) },
        ],
    };
    let rays = vec![
        vec![],
        vec![probe(0.10, 1.0), probe(0.07, 8.0), probe(0.06, 9.0), probe(0.2, 5.0)],
    ];
    let found = ravines(Some(d(80.0)), &rays, d(5.0));
    let at = |elev: f32, depth: f32| Ravine { bucket: 1, elev: s(elev), depth: s(depth), dist: s(100.0) };
    assert_eq!(found, vec![at(0.07, 8.0), at(0.2, 5.0)]);
    assert!(ravines(None, &rays, d(5.0)).is_empty());
    let blind = vec![vec![Probe { depths: vec![], ..probe(0.1, 0.0) }]];
    assert!(ravines(Some(d(80.0)), &blind, d(-1.0e300)).is_empty());
}

fn water(samples: &[(f32, bool)]) -> Vec<(Single, Single)> {
    let ray = samples.iter().map(|&(angle, wet)| WaterSample { angle: s(angle), wet }).collect();
    visible_water(&vec![vec![], ray])[1].clone()
}

#[test]
fn water_shows_where_nothing_nearer_hides_it() {
    assert_eq!(water(&[(-0.3, false), (-0.2, true), (-0.1, true)]), vec![(s(-0.1), s(-0.2))]);
    assert_eq!(water(&[(-0.1, false), (-0.2, true)]), vec![]);
    // Level with what stands nearer still shows.
    assert_eq!(water(&[(-0.2, false), (-0.2, true)]), vec![(s(-0.2), s(-0.2))]);
}

#[test]
fn short_gaps_in_water_are_bridged() {
    let mut five = vec![(-0.5, true)];
    five.extend([(-0.6, false); 5]);
    five.push((-0.4, true));
    assert_eq!(water(&five), vec![(s(-0.4), s(-0.5))]);
    // All water that shows is in a band.
    let mut six = vec![(-0.5, true)];
    six.extend([(-0.6, false); 6]);
    six.push((-0.4, true));
    assert_eq!(water(&six), vec![(s(-0.5), s(-0.5)), (s(-0.4), s(-0.4))]);
}

#[test]
fn asking_for_deeper_ravines_keeps_the_deeper_ones() {
    let probe = |elev: f32, depth: f64| Probe {
        angle: d(0.1),
        lowered: d(0.065),
        elev: s(elev),
        dist: s(100.0),
        depths: vec![Depth { wide: d(depth), narrow: s(depth as f32) }],
    };
    let rays = vec![
        vec![probe(1.0, 6.0), probe(2.0, 12.0), probe(3.0, 3.0)],
        vec![],
        vec![probe(4.0, 9.0), probe(5.0, 12.0)],
    ];
    let found = |least: f64| -> Vec<(usize, f32)> {
        ravines(Some(d(0.0)), &rays, d(least))
            .iter()
            .map(|r| (r.bucket, f32::from_bits(r.elev.bits)))
            .collect()
    };
    assert_eq!(found(3.0), vec![(0, 1.0), (0, 2.0), (0, 3.0), (2, 4.0), (2, 5.0)]);
    assert_eq!(found(6.0), vec![(0, 1.0), (0, 2.0), (2, 4.0), (2, 5.0)]);
    assert_eq!(found(9.5), vec![(0, 2.0), (2, 5.0)]);
    assert!(found(12.5).is_empty());
}

#[test]
fn ravines_are_ordered_by_bucket_and_distance() {
    let probe = |dist: f32| Probe {
        angle: d(0.1),
        lowered: d(0.065),
        elev: s(0.1),
        dist: s(dist),
        depths: vec![Depth { wide: d(7.0), narrow: s(7.0) }],
    };
    let rays = vec![
        vec![probe(50.0), probe(58.0), probe(66.0)],
        vec![probe(50.0), probe(58.0)],
    ];
    let found: Vec<(usize, f32)> = ravines(Some(d(0.0)), &rays, d(5.0))
        .iter()
        .map(|r| (r.bucket, f32::from_bits(r.dist.bits)))
        .collect();
    assert_eq!(found, vec![(0, 50.0), (0, 58.0), (0, 66.0), (1, 50.0), (1, 58.0)]);
}

#[test]
fn a_farther_ridge_hides_no_slopes() {
    let h = horizon();
    let see = |raised: f64, behind: f64| {
        let s = Sighting { tenths: 7, dist: d(6500.0), raised: d(raised), behind: d(behind) };
        visible_peaks(&h, &vec![s]).first().map(|v| v.1)
    };
    assert_eq!(see(0.249, -5000.0), None);
    assert_eq!(see(0.249, -0.1), None);
    assert_eq!(see(0.249, -0.0), Some(Visibility::Slopes));
    assert_eq!(see(0.249, 0.0), Some(Visibility::Slopes));
    assert_eq!(see(0.249, 1500.1), None);
    assert_eq!(see(0.249, f64::NAN), None);
    // A summit over the skyline shows, wherever the ridge stands.
    assert_eq!(see(0.25, -5000.0), Some(Visibility::Summit));
}

#[test]
fn summits_show_over_the_skyline_or_by_their_slopes() {
    let h = horizon();
    let see = |dist: f64, raised: f64, behind: f64| {
        let s = Sighting { tenths: 7, dist: d(dist), raised: d(raised), behind: d(behind) };
        visible_peaks(&h, &vec![s]).first().map(|v| v.1)
    };
    assert_eq!(see(8000.0, 0.25, 3000.0), Some(Visibility::Summit));
    assert_eq!(see(8000.0, 0.249, 3000.0), None);
    assert_eq!(see(6500.0, 0.249, 1500.0), Some(Visibility::Slopes));
    assert_eq!(see(29.9, 0.5, 0.0), None);
    assert_eq!(see(30.0, 0.5, 0.0), Some(Visibility::Summit));
    let all = vec![
        Sighting { tenths: 0, dist: d(900.0), raised: d(0.0), behind: d(9000.0) },
        Sighting { tenths: 0, dist: d(900.0), raised: d(0.0), behind: d(0.0) },
        Sighting { tenths: 20, dist: d(900.0), raised: d(-1.0), behind: d(0.0) },
    ];
    let seen = visible_peaks(&h, &all);
    assert_eq!(seen, vec![(1, Visibility::Slopes), (2, Visibility::Summit)]);
}

/// The polygon against a grid of unit cells with its corner at the origin.
fn patch(ring: &[(f64, f64)], cx0: usize, cy0: usize, nx: usize, ny: usize) -> Patch {
    let rows = (0..ny)
        .map(|r| {
            let n = (cy0 + r) as f64 + 0.5;
            let cross = (0..ring.len())
                .map(|i| {
                    let j = if i == 0 { ring.len() - 1 } else { i - 1 };
                    let ((xi, yi), (xj, yj)) = (ring[i], ring[j]);
                    d((xj - xi) * (n - yi) / (yj - yi) + xi)
                })
                .collect();
            Row { n: d(n), cross }
        })
        .collect();
    Patch {
        ys: ring.iter().map(|p| d(p.1)).collect(),
        cx0,
        cy0,
        es: (0..nx).map(|c| d((cx0 + c) as f64 + 0.5)).collect(),
        rows,
    }
}

fn wet(m: &WaterMask) -> Vec<(i64, i64)> {
    let mut out = Vec::new();
    for cy in -1..8 {
        for cx in -1..8 {
            if m.is_water(cx, cy) {
                out.push((cx, cy));
            }
        }
    }
    out
}

#[test]
fn lakes_are_rasterised() {
    let ring = [(1.0, 1.0), (4.0, 1.0), (4.0, 3.0), (1.0, 3.0), (1.0, 1.0)];
    let m = WaterMask::from_polygons(d(0.0), d(0.0), d(1.0), 6, 5, &vec![patch(&ring, 0, 0, 6, 5)]);
    assert_eq!(wet(&m), vec![(1, 1), (2, 1), (3, 1), (1, 2), (2, 2), (3, 2)]);
    assert_eq!((m.nx, m.ny, m.cell), (6, 5, d(1.0)));
    // A triangle, and a block that reaches beyond the grid.
    let ring = [(0.0, 0.0), (4.0, 0.0), (0.0, 4.0), (0.0, 0.0)];
    let m = WaterMask::from_polygons(d(0.0), d(0.0), d(1.0), 2, 3, &vec![patch(&ring, 0, 0, 4, 4)]);
    assert_eq!(wet(&m), vec![(0, 0), (1, 0), (0, 1), (1, 1), (0, 2)]);
    // Too few vertices enclose nothing.
    let m = WaterMask::from_polygons(d(0.0), d(0.0), d(1.0), 4, 4, &vec![patch(&ring[..3], 0, 0, 4, 4)]);
    assert!(wet(&m).is_empty());
}

#[test]
fn rivers_are_stamped() {
    let mut m = WaterMask::from_polygons(d(0.0), d(0.0), d(50.0), 6, 6, &vec![]);
    m.add_line(&vec![(0, 0), (3, 3)], 0);
    assert_eq!(wet(&m), vec![(0, 0), (3, 3)]);
    m.add_line(&vec![(0, 5)], 1);
    assert_eq!(wet(&m), vec![(0, 0), (3, 3), (0, 4), (1, 4), (0, 5), (1, 5)]);
    m.add_line(&vec![(2, 2)], -1);
    m.add_line(&vec![(i64::MAX, i64::MIN)], 2);
    assert_eq!(wet(&m).len(), 6);
    assert!(!m.is_water(6, 0) && !m.is_water(0, 6) && !m.is_water(-1, 0));
}

#[test]
fn prominent_summits_are_shown_nearest_first() {
    let peak = |obscured: bool, km: f64, prom: f64| PanoCandidate {
        obscured,
        dist_km: d(km),
        prominence: d(prom),
        cut: d(25.0 + 7.0 * km),
    };
    let peaks = vec![
        peak(true, 1.0, 500.0),
        peak(false, 9.0, 500.0),
        peak(false, 10.0, 94.9),
        peak(false, 10.0, 95.0),
        peak(false, 2.0, 72.0),
        peak(true, 0.5, 500.0),
        peak(false, 9.0, 200.0),
    ];
    assert_eq!(select_peaks(&peaks), vec![4, 1, 6, 3, 5, 0]);
}

#[test]
fn the_compass_reaches_its_farthest_summit() {
    assert_eq!(compass_reach(&vec![]), d(1.0));
    assert_eq!(compass_reach(&vec![d(0.3)]), d(1.0));
    assert_eq!(compass_reach(&vec![d(3.0), d(f64::NAN), d(12.5), d(7.0)]), d(12.5));
    assert_eq!(compass_reach(&vec![d(3.0), d(40.0)]), d(25.0));
}

#[test]
fn rings_are_drawn_within_reach() {
    let rings = |limit: f32| {
        compass_rings(s(limit)).iter().map(|r| f32::from_bits(r.bits)).collect::<Vec<f32>>()
    };
    assert_eq!(rings(0.5), Vec::<f32>::new());
    assert_eq!(rings(1.01), vec![1.0]);
    assert_eq!(rings(10.0), vec![1.0, 2.0, 3.0, 5.0, 10.0]);
    assert_eq!(rings(25.01), vec![1.0, 2.0, 3.0, 5.0, 10.0, 15.0, 20.0, 25.0]);
}

#[test]
fn jitter_is_a_hash() {
    assert_eq!(jitter(0), 0);
    for i in [1u32, 4, 17, 3599, u32::MAX] {
        assert_eq!(jitter(i), (i.wrapping_mul(2_654_435_761) >> 8) & 0xffff);
    }
    assert_eq!(jitter(1), 0x3779);
}

use airhorizon::tile::{
    plan_frame, slippy_zoom, visible_tiles, Tile, Window, MAX_SLIPPY_ZOOM, TILE_BUDGET_PER_FRAME,
    TILE_EXTENT,
};

const MAX_LATITUDE: f64 = 85.051_128_779_806_59;

/// Fractional tile coordinates of a position, rounded down.
fn column_row(lat: f64, lon: f64, z: u8) -> (i64, i64) {
    let n = Tile::count_per_axis(z) as f64;
    let lat = lat.clamp(-MAX_LATITUDE, MAX_LATITUDE).to_radians();
    let xf = (lon + 180.0) / 360.0 * n;
    let yf = (1.0 - (lat.tan() + 1.0 / lat.cos()).ln() / std::f64::consts::PI) / 2.0 * n;
    (xf.floor() as i64, yf.floor() as i64)
}

fn containing(lat: f64, lon: f64, z: u8) -> Tile {
    let (column, row) = column_row(lat, lon, z);
    Tile::containing(column, row, z)
}

/// North-west corner of a tile (latitude, longitude).
fn nw_corner(t: Tile) -> (f64, f64) {
    let n = Tile::count_per_axis(t.z) as f64;
    let lon = t.x as f64 / n * 360.0 - 180.0;
    let lat = (std::f64::consts::PI * (1.0 - 2.0 * t.y as f64 / n)).sinh().atan();
    (lat.to_degrees(), lon)
}

fn close(a: f64, b: f64, tol: f64) {
    assert!((a - b).abs() < tol, "{a} != {b} (tol {tol})");
}

#[test]
fn zoom0_is_one_world_tile() {
    assert_eq!(Tile::count_per_axis(0), 1);
    let t = containing(54.6, -3.14, 0);
    assert_eq!(t, Tile::new(0, 0, 0));
    // Its NW corner is the top-left of the Mercator world.
    let (lat, lon) = nw_corner(t);
    close(lon, -180.0, 1e-9);
    close(lat, MAX_LATITUDE, 1e-6);
}

#[test]
fn known_keswick_tile_z12() {
    let t = containing(54.6012, -3.1399, 12);
    assert_eq!(t, Tile::new(12, 2012, 1303));
}

#[test]
fn nw_corner_round_trips_to_same_tile() {
    let t = Tile::new(14, 8021, 5210);
    // A point just inside the NW corner must map back to the same tile.
    let (lat, lon) = nw_corner(t);
    assert_eq!(containing(lat - 1e-6, lon + 1e-6, 14), t);
}

#[test]
fn tms_flip_is_involutive() {
    let t = Tile::new(12, 2012, 1304);
    let flipped = Tile::new(12, t.x, t.tms_y());
    assert_eq!(flipped.tms_y(), t.y);
}

#[test]
fn tms_rows_count_from_the_south() {
    assert_eq!(Tile::new(12, 2012, 1304).tms_y(), 2791);
    assert_eq!(Tile::new(0, 0, 0).tms_y(), 0);
    assert_eq!(Tile::new(31, 0, 0).tms_y(), 0x7fff_ffff);
    assert_eq!(Tile::count_per_axis(31), 0x8000_0000);
}

#[test]
fn positions_off_the_map_go_to_the_nearest_tile() {
    assert_eq!(Tile::containing(-1, 99, 3), Tile::new(3, 0, 7));
    assert_eq!(Tile::containing(i64::MAX, i64::MIN, 3), Tile::new(3, 7, 0));
    assert_eq!(Tile::containing(5, 6, 3), Tile::new(3, 5, 6));
}

#[test]
fn zooms_nest_on_the_map_and_off_it() {
    for (column, row) in [(13i64, 6i64), (-1, -7), (16, 15), (99, -2), (0, 31)] {
        let inner = Tile::containing(column, row, 4);
        let outer = Tile::containing(column.div_euclid(2), row.div_euclid(2), 3);
        assert_eq!((inner.x / 2, inner.y / 2), (outer.x, outer.y));
    }
    assert_eq!(Tile::containing(13, 6, 4), Tile::new(4, 13, 6));
    assert_eq!(Tile::containing(6, 3, 3), Tile::new(3, 6, 3));
}

#[test]
fn slippy_zoom_stays_within_the_archive() {
    assert_eq!(slippy_zoom(-3, MAX_SLIPPY_ZOOM), 0);
    assert_eq!(slippy_zoom(9, MAX_SLIPPY_ZOOM), 9);
    assert_eq!(slippy_zoom(20, MAX_SLIPPY_ZOOM), 14);
    assert_eq!(TILE_EXTENT, 4096);
}

#[test]
fn windows_are_clamped_to_the_map() {
    let w = visible_tiles(2, (-1, 1), (9, 2));
    assert_eq!(w, Window { z: 2, x0: 0, y0: 1, x1: 3, y1: 2 });
}

#[test]
fn windows_fill_from_the_middle() {
    let w = Window { z: 4, x0: 2, y0: 5, x1: 4, y1: 7 };
    let order: Vec<(u32, u32)> = w.centre_out().iter().map(|t| (t.x, t.y)).collect();
    assert_eq!(
        order,
        vec![(3, 6), (3, 5), (2, 6), (4, 6), (3, 7), (2, 5), (4, 5), (2, 7), (4, 7)]
    );
    assert!(w.centre_out().iter().all(|t| t.z == 4));
    // An even window has no middle tile: four are equally near.
    let w = Window { z: 4, x0: 0, y0: 0, x1: 1, y1: 1 };
    let order: Vec<(u32, u32)> = w.centre_out().iter().map(|t| (t.x, t.y)).collect();
    assert_eq!(order, vec![(0, 0), (1, 0), (0, 1), (1, 1)]);
}

#[test]
fn a_window_turned_inside_out_is_empty() {
    assert!(Window { z: 4, x0: 3, y0: 0, x1: 2, y1: 5 }.centre_out().is_empty());
    assert!(Window { z: 4, x0: 0, y0: 6, x1: 2, y1: 5 }.centre_out().is_empty());
}

#[test]
fn frames_load_within_their_budget() {
    let plan = plan_frame(&vec![true, false, false, true, false]);
    assert_eq!(plan.load, vec![1, 2, 4]);
    assert!(!plan.more);
    let plan = plan_frame(&vec![false; 4]);
    assert_eq!(plan.load, vec![0, 1, 2, 3]);
    assert!(!plan.more);
    let plan = plan_frame(&vec![false, true, false, false, false, false, false]);
    assert_eq!(plan.load, vec![0, 2, 3, 4]);
    assert!(plan.more);
    let plan = plan_frame(&Vec::new());
    assert!(plan.load.is_empty() && !plan.more);
}

#[test]
fn frames_one_after_another_load_everything_once() {
    let mut cached = vec![false; 11];
    cached[3] = true;
    let mut loaded: Vec<usize> = Vec::new();
    let mut frames = 0;
    loop {
        let plan = plan_frame(&cached);
        frames += 1;
        assert!(plan.load.len() <= TILE_BUDGET_PER_FRAME);
        for i in plan.load {
            cached[i] = true;
            loaded.push(i);
        }
        if !plan.more {
            break;
        }
    }
    assert_eq!(frames, 3);
    assert_eq!(loaded, vec![0, 1, 2, 4, 5, 6, 7, 8, 9, 10]);
}

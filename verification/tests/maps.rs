use std::io::Write;

use airhorizon::atlas::{build, Glyph};
use airhorizon::basemap::{
    decode_tile, maybe_gunzip, summarise, Metadata, RawFeature, RawLayer, TileError,
};
use airhorizon::ieee::Double;
use airhorizon::label::{
    label_min_zoom, label_priority, on_screen, peak_min_zoom, peak_priority, place_boxes, place_by,
    place_labels, Candidate, Rect,
};
use airhorizon::mesh::{
    fills, flatten, group_rings, lake_rings, open_ring, place_names, river_lines, signed_area,
    strokes, style, FillArea, Stroke, Style,
};
use airhorizon::mvt::{
    decode_geometry, decode_vector_tile, Feature, GeomKind, VectorLayer, VectorTile,
};

fn d(v: f64) -> Double {
    Double { bits: v.to_bits() }
}

#[test]
fn gunzips_gzip_blobs_and_passes_through_raw() {
    let payload = b"vector tile bytes";
    // Round-trip through gzip -> maybe_gunzip recovers the payload.
    let mut enc = flate2::write::GzEncoder::new(Vec::new(), flate2::Compression::default());
    enc.write_all(payload).unwrap();
    let gz = enc.finish().unwrap();
    assert_eq!(gz[0], 0x1f);
    assert_eq!(gz[1], 0x8b);
    assert_eq!(maybe_gunzip(&gz).unwrap(), payload);
    // A non-gzip blob (no magic) is returned untouched.
    assert_eq!(maybe_gunzip(payload).unwrap(), payload);
}

#[test]
fn broken_gzip_is_an_error() {
    assert!(matches!(maybe_gunzip(&[0x1f, 0x8b, 0x00]), Err(TileError::Io(_))));
    assert_eq!(maybe_gunzip(&[0x1f]).unwrap(), vec![0x1f]);
    assert!(maybe_gunzip(&[]).unwrap().is_empty());
}

fn varint(mut v: u64, out: &mut Vec<u8>) {
    while v >= 0x80 {
        out.push((v as u8 & 0x7f) | 0x80);
        v >>= 7;
    }
    out.push(v as u8);
}

fn number_field(field: u64, v: u64) -> Vec<u8> {
    let mut out = Vec::new();
    varint(field << 3, &mut out);
    varint(v, &mut out);
    out
}

fn bytes_field(field: u64, bytes: &[u8]) -> Vec<u8> {
    let mut out = Vec::new();
    varint(field << 3 | 2, &mut out);
    varint(bytes.len() as u64, &mut out);
    out.extend_from_slice(bytes);
    out
}

fn packed(v: &[u32]) -> Vec<u8> {
    let mut out = Vec::new();
    for &x in v {
        varint(x as u64, &mut out);
    }
    out
}

fn feature(kind: u64, tags: &[u32], geometry: &[u32]) -> Vec<u8> {
    let mut f = number_field(1, 77);
    f.extend(bytes_field(2, &packed(tags)));
    if kind > 0 {
        f.extend(number_field(3, kind));
    }
    f.extend(bytes_field(4, &packed(geometry)));
    f
}

/// A tile with a names layer (a point with two string attributes and a number)
/// and an unnamed-extent layer of one line and one polygon.
fn message() -> Vec<u8> {
    let mut names = bytes_field(1, b"names");
    names.extend(bytes_field(2, &feature(1, &[0, 0, 1, 1, 1, 2], &[9, 50, 34])));
    names.extend(bytes_field(3, b"name1"));
    names.extend(bytes_field(3, b"type"));
    names.extend(bytes_field(4, &bytes_field(1, b"Keswick")));
    names.extend(bytes_field(4, &bytes_field(1, b"Town")));
    names.extend(bytes_field(4, &number_field(5, 3)));
    names.extend(number_field(5, 512));
    names.extend(number_field(15, 2));
    let mut water = bytes_field(1, b"surfacewater");
    water.extend(bytes_field(2, &feature(2, &[], &[9, 4, 4, 18, 0, 16, 16, 0])));
    water.extend(bytes_field(2, &feature(3, &[], &[9, 6, 12, 18, 10, 12, 24, 44, 15])));
    water.extend(bytes_field(2, &feature(0, &[], &[])));
    let mut tile = bytes_field(3, &names);
    tile.extend(bytes_field(3, &water));
    tile
}

#[test]
fn tiles_are_summarised() {
    assert!(matches!(decode_tile(None), Ok(None)));
    let t = decode_tile(Some(&message())).unwrap().unwrap();
    assert_eq!(t.total_features(), 4);
    let (a, b) = (&t.layers[0], &t.layers[1]);
    assert_eq!((a.name.as_str(), a.version, a.extent, a.features), ("names", 2, 512, 1));
    assert_eq!((a.points, a.lines, a.polygons), (1, 0, 0));
    assert_eq!(a.keys, vec!["name1", "type"]);
    assert_eq!((b.name.as_str(), b.extent, b.features), ("surfacewater", 4096, 3));
    assert_eq!((b.points, b.lines, b.polygons), (0, 1, 1));
    assert!(b.keys.is_empty());
}

#[test]
fn gzipped_tiles_are_decoded_too() {
    let mut enc = flate2::write::GzEncoder::new(Vec::new(), flate2::Compression::default());
    enc.write_all(&message()).unwrap();
    let gz = enc.finish().unwrap();
    assert_eq!(decode_tile(Some(&gz)).unwrap().unwrap().total_features(), 4);
    let cut = &gz[..gz.len() / 2];
    assert!(matches!(decode_tile(Some(cut)), Err(TileError::Io(_))));
    assert!(matches!(decode_tile(Some(&[0x1a, 0x05])), Err(TileError::Decode(_))));
    assert!(matches!(decode_vector_tile(Some(&[0x1a, 0x05])), Err(TileError::Decode(_))));
    assert!(matches!(decode_vector_tile(Some(cut)), Err(TileError::Io(_))));
    assert!(matches!(decode_vector_tile(None), Ok(None)));
}

#[test]
fn features_are_decoded() {
    let t = decode_vector_tile(Some(&message())).unwrap().unwrap();
    assert_eq!(t.layer("surfacewater"), Some(1));
    assert_eq!(t.layer("roads"), None);
    let f = &t.layers[0].features[0];
    assert_eq!(f.kind, GeomKind::Point);
    assert_eq!(f.parts, vec![vec![(25, 17)]]);
    assert_eq!(f.attr("name1"), Some("Keswick"));
    // The number under the same key gives no string attribute.
    assert_eq!(f.attr("type"), Some("Town"));
    assert_eq!(f.attrs.len(), 2);
    assert_eq!(f.attr("missing"), None);
    let w = &t.layers[1].features;
    assert_eq!(w[0].kind, GeomKind::Line);
    assert_eq!(w[0].parts, vec![vec![(2, 2), (2, 10), (10, 10)]]);
    assert_eq!(w[1].kind, GeomKind::Polygon);
    assert_eq!(w[1].parts, vec![vec![(3, 6), (8, 12), (20, 34), (3, 6)]]);
    assert_eq!(w[2].kind, GeomKind::Unknown);
    assert!(w[2].parts.is_empty());
}

#[test]
fn geometry_stops_at_what_it_cannot_read() {
    // Two points in one command.
    assert_eq!(decode_geometry(&vec![17, 10, 14, 3, 9]), vec![vec![(5, 7)], vec![(3, 2)]]);
    // A missing parameter.
    assert_eq!(decode_geometry(&vec![9, 2, 2, 18, 2, 2, 2]), vec![vec![(1, 1), (2, 2)]]);
    // An unknown command.
    assert_eq!(decode_geometry(&vec![9, 2, 2, 12, 9, 2, 2]), vec![vec![(1, 1)]]);
    // Off the coordinate range.
    assert_eq!(
        decode_geometry(&vec![9, 0xffff_fffe, 0, 10, 2, 0]),
        vec![vec![(i32::MAX, 0)]]
    );
    // Closing nothing, and a line without a start.
    assert!(decode_geometry(&vec![15]).is_empty());
    assert_eq!(decode_geometry(&vec![10, 2, 4]), vec![vec![(1, 2)]]);
    assert!(decode_geometry(&vec![]).is_empty());
}

#[test]
fn layers_without_extent_get_the_default() {
    let raw = RawLayer {
        name: "contours".to_string(),
        version: 1,
        extent: None,
        features: vec![
            RawFeature { kind: vec![0x18, 2], tags: vec![], geometry: vec![] },
            RawFeature { kind: vec![0x18, 4], tags: vec![], geometry: vec![] },
            RawFeature { kind: vec![], tags: vec![], geometry: vec![] },
        ],
        keys: vec![],
        values: vec![],
    };
    let t = summarise(&vec![raw]);
    assert_eq!((t.layers[0].extent, t.layers[0].features, t.layers[0].lines), (4096, 3, 1));
    assert_eq!((t.layers[0].points, t.layers[0].polygons), (0, 0));
}

#[test]
fn metadata_zooms_are_numbers() {
    let some = |s: &str| Some(s.to_string());
    let m = Metadata::from_values(some("Zoomstack"), some("pbf"), some(" 0\n"), some("14"), None);
    assert_eq!(m.name.as_deref(), Some("Zoomstack"));
    assert_eq!(m.format.as_deref(), Some("pbf"));
    assert_eq!((m.minzoom, m.maxzoom), (Some(0), Some(14)));
    assert!(m.bounds.is_none());
    let m = Metadata::from_values(None, None, some("x"), some("256"), some("-8,49,2,61"));
    assert_eq!((m.minzoom, m.maxzoom), (None, None));
    assert_eq!(m.bounds.as_deref(), Some("-8,49,2,61"));
    let m = Metadata::default();
    assert!(m.name.is_none() && m.maxzoom.is_none());
}

#[test]
fn layers_are_styled_by_name() {
    assert_eq!(style("woodland"), Some(Style::Woodland));
    assert_eq!(style("greenspaces"), Some(Style::Greenspaces));
    assert_eq!(style("surfacewater"), Some(Style::Surfacewater));
    assert_eq!(style("buildings"), Some(Style::Buildings));
    assert_eq!(style("roads"), Some(Style::Roads));
    assert_eq!(style("waterlines"), Some(Style::Waterlines));
    assert_eq!(style("contours"), Some(Style::Contours));
    assert_eq!(style("national_parks"), None);
    assert!(Style::Buildings.is_fill() && !Style::Contours.is_fill());
}

fn square(x: i32, y: i32, side: i32, clockwise: bool) -> Vec<(i32, i32)> {
    let mut ring = vec![(x, y), (x + side, y), (x + side, y + side), (x, y + side), (x, y)];
    if !clockwise {
        ring.reverse();
    }
    ring
}

#[test]
fn rings_have_signed_areas() {
    let ring = square(0, 0, 10, true);
    assert_eq!(open_ring(&ring), 4);
    assert_eq!(signed_area(&ring, 4), 200);
    assert_eq!(signed_area(&square(0, 0, 10, false), 4), -200);
    assert_eq!(signed_area(&ring, 2), 0);
    assert_eq!(open_ring(&vec![(1, 1), (2, 2)]), 2);
    assert_eq!(open_ring(&vec![(1, 1)]), 1);
    let far = vec![(i32::MIN, i32::MIN), (i32::MAX, i32::MIN), (i32::MAX, i32::MAX)];
    assert_eq!(signed_area(&far, 3), 0xffff_ffff_i128 * 0xffff_ffff);
}

#[test]
fn rings_group_into_polygons_with_holes() {
    let parts = vec![
        square(0, 0, 100, true),
        square(10, 10, 10, false),
        vec![(1, 1), (2, 2), (1, 1)],
        square(40, 40, 10, false),
        square(200, 0, 50, true),
    ];
    let groups = group_rings(&parts);
    assert_eq!(groups, vec![vec![0, 1, 3], vec![4]]);
    let flat = flatten(&parts, &groups[0]);
    assert_eq!(flat.holes, vec![4, 8]);
    assert_eq!(flat.points.len(), 12);
    assert_eq!(flat.points[4], parts[1][0]);
    assert_eq!(flatten(&parts, &groups[1]).holes, Vec::<usize>::new());
    // A hole without an exterior starts a polygon of its own.
    assert_eq!(group_rings(&vec![square(0, 0, 5, false)]), vec![vec![0]]);
}

fn tile_of(layers: Vec<(&str, Vec<Feature>)>) -> VectorTile {
    VectorTile {
        layers: layers
            .into_iter()
            .map(|(name, features)| VectorLayer { name: name.to_string(), features })
            .collect(),
    }
}

fn feat(kind: GeomKind, parts: Vec<Vec<(i32, i32)>>, attrs: Vec<(&str, &str)>) -> Feature {
    Feature {
        kind,
        parts,
        attrs: attrs.into_iter().map(|(k, v)| (k.to_string(), v.to_string())).collect(),
    }
}

#[test]
fn lines_are_stroked_and_areas_filled() {
    let line = || feat(GeomKind::Line, vec![vec![(0, 0), (1, 1)], vec![(5, 5)]], vec![]);
    let area = || feat(GeomKind::Polygon, vec![square(0, 0, 5, true)], vec![]);
    let dot = || feat(GeomKind::Point, vec![vec![(0, 0), (1, 1)]], vec![]);
    let t = tile_of(vec![
        ("sites", vec![area()]),
        ("roads", vec![line()]),
        ("woodland", vec![line(), area()]),
        ("contours", vec![dot(), area(), line()]),
    ]);
    let contours = [
        Stroke { style: Style::Contours, layer: 3, feature: 1, part: 0 },
        Stroke { style: Style::Contours, layer: 3, feature: 2, part: 0 },
    ];
    assert_eq!(strokes(&t, false), contours);
    let mut all = vec![Stroke { style: Style::Roads, layer: 1, feature: 0, part: 0 }];
    all.extend(contours);
    assert_eq!(strokes(&t, true), all);
    assert_eq!(fills(&t), vec![FillArea { style: Style::Woodland, layer: 2, feature: 1 }]);
}

#[test]
fn place_names_come_from_points() {
    let t = tile_of(vec![(
        "names",
        vec![
            feat(GeomKind::Point, vec![vec![(3, 4), (5, 6)]], vec![("name1", "Grange"), ("type", "Hamlet")]),
            feat(GeomKind::Line, vec![vec![(3, 4)]], vec![("name1", "Not a point")]),
            feat(GeomKind::Point, vec![vec![(1, 2)]], vec![("name2", "No first name")]),
            feat(GeomKind::Point, vec![], vec![("name1", "Nowhere")]),
            feat(GeomKind::Point, vec![vec![(7, 8)]], vec![("name1", "Untyped")]),
        ],
    )]);
    let places = place_names(&t);
    assert_eq!(places.len(), 2);
    assert_eq!((places[0].name.as_str(), places[0].kind.as_str()), ("Grange", "Hamlet"));
    assert_eq!(places[0].at, (3, 4));
    assert_eq!((places[1].name.as_str(), places[1].kind.as_str()), ("Untyped", ""));
    assert!(place_names(&tile_of(vec![])).is_empty());
}

#[test]
fn water_is_found() {
    let t = tile_of(vec![
        (
            "surfacewater",
            vec![
                feat(GeomKind::Line, vec![square(0, 0, 5, true)], vec![]),
                feat(GeomKind::Polygon, vec![vec![(0, 0), (1, 0), (0, 0)], square(0, 0, 5, true)], vec![]),
            ],
        ),
        (
            "waterlines",
            vec![feat(GeomKind::Line, vec![vec![(0, 0)], vec![(0, 0), (1, 1)]], vec![])],
        ),
    ]);
    assert_eq!(lake_rings(&t), vec![(1, 1)]);
    assert_eq!(river_lines(&t), vec![(0, 1)]);
    assert!(lake_rings(&tile_of(vec![])).is_empty());
}

#[test]
fn labels_appear_by_importance() {
    let kinds = [
        ("City", 7, 0),
        ("Town", 9, 1),
        ("Village", 11, 2),
        ("Suburban Area", 11, 2),
        ("Hamlet", 13, 4),
        ("Small Settlements", 13, 4),
        ("Water", 13, 3),
        ("Landform", 12, 3),
    ];
    for (kind, zoom, priority) in kinds {
        assert_eq!(label_min_zoom(kind), zoom, "{kind}");
        assert_eq!(label_priority(kind), priority, "{kind}");
    }
    let proms = [(600.0, 8, 1), (599.9, 10, 1), (300.0, 10, 1), (150.0, 11, 2), (100.0, 12, 3)];
    for (prom, zoom, priority) in proms {
        assert_eq!(peak_min_zoom(d(prom)), zoom, "{prom}");
        assert_eq!(peak_priority(d(prom)), priority, "{prom}");
    }
    assert_eq!((peak_min_zoom(d(99.0)), peak_priority(d(f64::NAN))), (13, 3));
}

#[test]
fn labels_may_hang_over_the_edge() {
    let seen = |x: f64, y: f64| on_screen(d(x), d(y), d(900.0), d(620.0));
    assert!(seen(-99.0, -19.0) && seen(899.0, 619.0));
    assert!(!seen(-100.0, 0.0) && !seen(0.0, -20.0) && !seen(900.0, 0.0) && !seen(0.0, 620.0));
}

fn rect(l: f64, t: f64, r: f64, b: f64) -> Rect {
    Rect { left: d(l), top: d(t), right: d(r), bottom: d(b) }
}

#[test]
fn boxes_are_placed_where_there_is_room() {
    let boxes = vec![
        rect(0.0, 0.0, 10.0, 10.0),
        rect(5.0, 5.0, 15.0, 15.0),
        rect(10.0, 0.0, 20.0, 10.0),
        rect(12.0, 9.0, 14.0, 30.0),
        rect(6.0, 11.0, 9.0, 12.0),
    ];
    assert_eq!(place_boxes(&boxes), vec![0, 2, 4]);
}

#[test]
fn summits_and_important_names_win() {
    let cand = |marker: bool, priority: u8, text: &str, x: f64| Candidate {
        marker,
        priority,
        text: text.to_string(),
        sx: d(x),
        area: rect(x - 5.0, 0.0, x + 5.0, 10.0),
    };
    let cands = vec![
        cand(false, 0, "Carlisle", 0.0),
        cand(true, 3, "Haystacks", 4.0),
        cand(false, 2, "Rosthwaite", 20.0),
        cand(false, 2, "Grange", 22.0),
        cand(false, 2, "Grange", 40.0),
        cand(false, 2, "Grange", 38.0),
    ];
    assert_eq!(place_labels(&cands), vec![1, 3, 5]);
}

#[test]
fn repeated_labels_collapse() {
    let cand = || Candidate {
        marker: false,
        priority: 1,
        text: "Keswick".to_string(),
        sx: d(5.0),
        area: rect(0.0, 0.0, 10.0, 4.0),
    };
    assert_eq!(place_labels(&vec![cand(), cand(), cand()]), vec![0]);
    assert_eq!(place_boxes(&vec![rect(0.0, 0.0, 0.0, 4.0), rect(0.0, 0.0, 0.0, 4.0)]), vec![0, 1]);
}

#[test]
fn names_are_placed_in_turn() {
    let at = [0.0f64, 3.0, 6.0, 7.0, 20.0];
    let placed = place_by(5, |i: usize, j: usize| (at[i] - at[j]).abs() < 5.0);
    assert_eq!(placed, vec![0, 2, 4]);
    assert!(place_by(0, |_: usize, _: usize| true).is_empty());
}

fn glyph(width: u32, height: u32, v: u8) -> Glyph {
    Glyph { width, height, coverage: vec![v; (width * height) as usize] }
}

#[test]
fn glyphs_are_packed_on_shelves() {
    let glyphs = vec![glyph(300, 4, 1), glyph(0, 7, 0), glyph(209, 6, 2), glyph(200, 2, 3), glyph(9, 3, 4)];
    let a = build(&glyphs);
    assert_eq!(a.places, vec![Some((1, 1)), None, Some((302, 1)), Some((1, 8)), Some((202, 8))]);
    assert_eq!(a.height, 12);
    assert_eq!(a.pixels.len(), 512 * 12);
    let px = |x: usize, y: usize| a.pixels[y * 512 + x];
    assert_eq!(px(0, 0), 255);
    assert_eq!((px(1, 1), px(300, 4), px(301, 1), px(300, 5)), (1, 1, 0, 0));
    assert_eq!((px(302, 1), px(510, 6), px(511, 6)), (2, 2, 0));
    assert_eq!((px(1, 8), px(200, 9), px(200, 10), px(202, 8), px(210, 10)), (3, 3, 0, 4, 4));
    assert_eq!((px(1, 0), px(0, 1), px(1, 7)), (0, 0, 0));
    let sum: usize = a.pixels.iter().map(|&v| v as usize).sum();
    assert_eq!(sum, 255 + 1200 + 2 * 209 * 6 + 3 * 400 + 4 * 27);
}

#[test]
fn one_glyph_leaves_the_first_row_and_column_free() {
    let a = build(&vec![glyph(510, 3, 9)]);
    assert_eq!(a.places, vec![Some((1, 1))]);
    let px = |x: usize, y: usize| a.pixels[y * 512 + x];
    assert!((1..512).all(|x| px(x, 0) == 0));
    assert!((1..a.height as usize).all(|y| px(0, y) == 0));
    assert_eq!((px(1, 1), px(510, 3), px(511, 1)), (9, 9, 0));
}

#[test]
fn glyph_pixels_keep_their_places() {
    let g = Glyph { width: 2, height: 3, coverage: vec![1, 2, 3, 4, 5, 6] };
    let a = build(&vec![g]);
    assert_eq!(a.height, 5);
    let rows: Vec<Vec<u8>> = (0..5).map(|y| a.pixels[y * 512..y * 512 + 4].to_vec()).collect();
    assert_eq!(
        rows,
        vec![vec![255, 0, 0, 0], vec![0, 1, 2, 0], vec![0, 3, 4, 0], vec![0, 5, 6, 0], vec![0, 0, 0, 0]]
    );
}

#[test]
fn an_atlas_without_glyphs_has_its_solid_pixel() {
    let a = build(&Vec::new());
    assert_eq!(a.height, 2);
    assert_eq!(a.pixels[0], 255);
}

use std::collections::HashSet;
use std::io::Write;

use airhorizon::ieee::Double;
use airhorizon::mapdata::{classify, load_paths, stitch_paths, LooseWay, PathError, PathKind};
use airhorizon::pbf::check_numbers;

fn d(v: f64) -> Double {
    Double { bits: v.to_bits() }
}

#[test]
fn classify_picks_path_highways() {
    assert_eq!(classify(&[("highway", "footway")]), Some(PathKind::Foot));
    assert_eq!(classify(&[("highway", "bridleway")]), Some(PathKind::Bridleway));
    assert_eq!(classify(&[("highway", "track")]), Some(PathKind::Track));
    assert_eq!(classify(&[("highway", "motorway")]), None);
    // A Right of Way designation without a path highway still counts.
    assert_eq!(classify(&[("designation", "public_footpath")]), Some(PathKind::Foot));
}

#[test]
fn every_kind_of_footway_counts() {
    for value in ["footway", "path", "steps", "pedestrian", "cycleway"] {
        assert_eq!(classify(&[("surface", "mud"), ("highway", value)]), Some(PathKind::Foot));
    }
    assert_eq!(classify(&[]), None);
    assert_eq!(classify(&[("name", "footway")]), None);
    // The last highway value counts, and a highway goes before a designation.
    assert_eq!(classify(&[("highway", "track"), ("highway", "road")]), None);
    assert_eq!(
        classify(&[("designation", "restricted_byway"), ("highway", "track")]),
        Some(PathKind::Track)
    );
    assert_eq!(
        classify(&[("highway", "residential"), ("designation", "public_footpath")]),
        Some(PathKind::Foot)
    );
}

fn varint(mut v: u64, out: &mut Vec<u8>) {
    while v >= 0x80 {
        out.push((v as u8 & 0x7f) | 0x80);
        v >>= 7;
    }
    out.push(v as u8);
}

fn number_field(field: u64, v: u64) -> Vec<u8> {
    let mut out = Vec::new();
    varint(field << 3, &mut out);
    varint(v, &mut out);
    out
}

fn bytes_field(field: u64, bytes: &[u8]) -> Vec<u8> {
    let mut out = Vec::new();
    varint(field << 3 | 2, &mut out);
    varint(bytes.len() as u64, &mut out);
    out.extend_from_slice(bytes);
    out
}

fn zigzag(v: i64) -> u64 {
    ((v << 1) ^ (v >> 63)) as u64
}

fn deltas(v: &[i64]) -> Vec<u8> {
    let mut out = Vec::new();
    let mut last = 0;
    for &x in v {
        varint(zigzag(x - last), &mut out);
        last = x;
    }
    out
}

fn packed(v: &[u64]) -> Vec<u8> {
    let mut out = Vec::new();
    for &x in v {
        varint(x, &mut out);
    }
    out
}

fn blob(kind: &[u8], body: &[u8]) -> Vec<u8> {
    let data = bytes_field(1, body);
    let mut header = bytes_field(1, kind);
    header.extend(number_field(3, data.len() as u64));
    let mut out = (header.len() as u32).to_be_bytes().to_vec();
    out.extend(header);
    out.extend(data);
    out
}

fn way(id: u64, keys: &[u64], vals: &[u64], refs: &[i64]) -> Vec<u8> {
    let mut w = number_field(1, id);
    w.extend(bytes_field(2, &packed(keys)));
    w.extend(bytes_field(3, &packed(vals)));
    w.extend(bytes_field(8, &deltas(refs)));
    w
}

/// Four dense nodes and a plain one, a footway over some of them and a node that
/// is missing, and a motorway.
fn extract() -> Vec<u8> {
    let mut strings = Vec::new();
    for text in ["", "highway", "footway", "motorway", "track"] {
        strings.extend(bytes_field(1, text.as_bytes()));
    }
    let mut dense = bytes_field(1, &deltas(&[10, 11, 12, 13]));
    dense.extend(bytes_field(8, &deltas(&[544_600_000, 544_610_000, 544_620_000, 1])));
    dense.extend(bytes_field(9, &deltas(&[-32_500_000, -32_510_000, -32_520_000, 2])));
    let mut node = number_field(1, zigzag(20));
    node.extend(number_field(8, zigzag(545_000_000)));
    node.extend(number_field(9, zigzag(-31_000_000)));
    let mut block = bytes_field(1, &strings);
    block.extend(bytes_field(2, &bytes_field(2, &dense)));
    block.extend(bytes_field(2, &bytes_field(1, &node)));
    let mut ways = bytes_field(3, &way(1, &[1], &[3], &[13, 10]));
    ways.extend(bytes_field(3, &way(2, &[1], &[2], &[10, 11, 99, 12, 20])));
    ways.extend(bytes_field(3, &way(3, &[1], &[4], &[20, 11])));
    block.extend(bytes_field(2, &ways));
    let mut file = blob(b"OSMHeader", &bytes_field(4, b"OsmSchema-V0.6"));
    file.extend(blob(b"OSMData", &block));
    file
}

#[test]
fn paths_are_read_with_their_nodes() {
    let ways = load_paths(&extract()).unwrap();
    assert_eq!(ways.len(), 2);
    assert_eq!(ways[0].kind, PathKind::Foot);
    let at = |p: Option<(Double, Double)>| {
        p.map(|(a, b)| (f64::from_bits(a.bits), f64::from_bits(b.bits)))
    };
    let nodes: Vec<Option<(f64, f64)>> = ways[0].nodes.iter().map(|&p| at(p)).collect();
    assert_eq!(nodes.len(), 5);
    let close = |p: Option<(f64, f64)>, lat: f64, lon: f64| {
        let (a, b) = p.unwrap();
        assert!((a - lat).abs() < 1e-9 && (b - lon).abs() < 1e-9, "{a} {b}");
    };
    close(nodes[0], 54.46, -3.25);
    close(nodes[1], 54.461, -3.251);
    assert_eq!(nodes[2], None);
    close(nodes[3], 54.462, -3.252);
    close(nodes[4], 54.5, -3.1);
    assert_eq!(ways[1].kind, PathKind::Track);
    assert_eq!(ways[1].nodes, vec![ways[0].nodes[4], ways[0].nodes[1]]);
}

#[test]
fn broken_extracts_are_errors() {
    let bytes = extract();
    assert!(load_paths(&bytes[..bytes.len() - 5]).is_err());
    assert!(load_paths(&[]).unwrap().is_empty());
    // A block without its string table, a blob without data.
    assert!(matches!(load_paths(&blob(b"OSMData", b"")), Err(PathError::Osm(_))));
    let mut empty = bytes_field(1, b"OSMData");
    empty.extend(number_field(3, 0));
    let mut file = (empty.len() as u32).to_be_bytes().to_vec();
    file.extend(empty);
    assert!(matches!(load_paths(&file), Err(PathError::Osm(_))));
    // A header that is too long, a field that is none.
    assert!(matches!(load_paths(&[0, 1, 0, 0, 9, 9]), Err(PathError::Numbers)));
    assert!(matches!(load_paths(&blob(b"OSMData", &[0x0f])), Err(PathError::Numbers)));
}

#[test]
fn lines_break_at_gaps() {
    let p = |i: usize| Some((d(i as f64), d(-(i as f64))));
    let ways = vec![
        LooseWay { kind: PathKind::Foot, nodes: vec![p(0), p(1), None, p(3), p(4), p(5)] },
        LooseWay { kind: PathKind::Track, nodes: vec![p(6), p(7), p(8), None] },
        LooseWay { kind: PathKind::Bridleway, nodes: vec![p(9), p(10)] },
        LooseWay { kind: PathKind::Foot, nodes: vec![] },
    ];
    let gaps = vec![
        vec![d(0.0), d(10.0), d(0.0), d(9000.0), d(400.0), d(400.5)],
        vec![d(0.0), d(401.0), d(20.0), d(0.0)],
        vec![d(999.0), d(f64::NAN)],
        vec![],
    ];
    let paths = stitch_paths(&ways, &gaps);
    let got: Vec<(PathKind, Vec<f64>)> = paths
        .iter()
        .map(|w| (w.kind, w.points.iter().map(|q| f64::from_bits(q.0.bits)).collect()))
        .collect();
    assert_eq!(
        got,
        vec![
            (PathKind::Foot, vec![0.0, 1.0]),
            (PathKind::Foot, vec![3.0, 4.0]),
            (PathKind::Track, vec![7.0, 8.0]),
            (PathKind::Bridleway, vec![9.0, 10.0]),
        ]
    );
}

#[test]
fn ways_may_come_before_their_nodes() {
    let mut strings = Vec::new();
    for text in ["", "highway", "footway"] {
        strings.extend(bytes_field(1, text.as_bytes()));
    }
    let mut ways = bytes_field(1, &strings);
    ways.extend(bytes_field(2, &bytes_field(3, &way(2, &[1], &[2], &[30, 31, 32]))));
    let mut nodes = bytes_field(1, &strings);
    // Node 30 stands twice, and node 33 is on no path.
    for (id, lat) in [(30, 10_000_000), (31, 20_000_000), (33, 30_000_000), (30, 40_000_000)] {
        let mut node = number_field(1, zigzag(id));
        node.extend(number_field(8, zigzag(lat)));
        node.extend(number_field(9, zigzag(0)));
        nodes.extend(bytes_field(2, &bytes_field(1, &node)));
    }
    let mut file = blob(b"OSMHeader", &bytes_field(4, b"OsmSchema-V0.6"));
    file.extend(blob(b"OSMData", &ways));
    file.extend(blob(b"OSMData", &nodes));
    let paths = load_paths(&file).unwrap();
    assert_eq!(paths.len(), 1);
    let lats: Vec<Option<i64>> = paths[0]
        .nodes
        .iter()
        .map(|n| n.map(|(lat, _)| f64::from_bits(lat.bits).round() as i64))
        .collect();
    // The last entry of a node counts, and node 32 is missing.
    assert_eq!(lats, vec![Some(4), Some(2), None]);
}

#[test]
fn references_are_running_sums_within_64_bits() {
    let mut strings = Vec::new();
    for text in ["", "highway", "path"] {
        strings.extend(bytes_field(1, text.as_bytes()));
    }
    let mut block = bytes_field(1, &strings);
    for (id, lat) in [(i64::MAX, 10_000_000), (i64::MIN, 20_000_000), (-3, 30_000_000)] {
        let mut node = number_field(1, zigzag(id));
        node.extend(number_field(8, zigzag(lat)));
        node.extend(number_field(9, zigzag(0)));
        block.extend(bytes_field(2, &bytes_field(1, &node)));
    }
    let steps: Vec<u64> = [i64::MAX, 1, i64::MAX, -2].iter().map(|&x| zigzag(x)).collect();
    let mut w = number_field(1, 1);
    w.extend(bytes_field(2, &packed(&[1])));
    w.extend(bytes_field(3, &packed(&[2])));
    w.extend(bytes_field(8, &packed(&steps)));
    block.extend(bytes_field(2, &bytes_field(3, &w)));
    let paths = load_paths(&blob(b"OSMData", &block)).unwrap();
    let lats: Vec<Option<i64>> = paths[0]
        .nodes
        .iter()
        .map(|n| n.map(|(lat, _)| f64::from_bits(lat.bits).round() as i64))
        .collect();
    assert_eq!(lats, vec![Some(1), Some(2), None, Some(3)]);
}

/// A block of nothing but a string table, what `group` holds and `more` fields.
fn block_of(group: &[u8], more: &[u8]) -> Vec<u8> {
    let mut block = bytes_field(1, &bytes_field(1, b""));
    block.extend(bytes_field(2, group));
    block.extend_from_slice(more);
    block
}

fn zigzags(v: &[i64]) -> Vec<u8> {
    packed(&v.iter().map(|&x| zigzag(x)).collect::<Vec<u64>>())
}

fn dense_of(ids: &[i64], lats: &[i64], lons: &[i64], info: &[u8]) -> Vec<u8> {
    let mut dense = bytes_field(1, &zigzags(ids));
    dense.extend(bytes_field(5, info));
    dense.extend(bytes_field(8, &zigzags(lats)));
    dense.extend(bytes_field(9, &zigzags(lons)));
    bytes_field(2, &dense)
}

fn refused(block: &[u8]) -> bool {
    let file = blob(b"OSMData", block);
    let held = check_numbers(&file, &HashSet::new());
    match load_paths(&file) {
        Ok(ways) => {
            assert!(held && ways.is_empty());
            false
        }
        Err(e) => {
            assert!(!held && matches!(e, PathError::Numbers));
            true
        }
    }
}

#[test]
fn sums_that_leave_their_range_are_refused() {
    let max = i64::MAX;
    assert!(!refused(&block_of(&dense_of(&[max, -5, 5], &[1, 1, 1], &[2, 2, 2], &[]), &[])));
    assert!(refused(&block_of(&dense_of(&[max, 1], &[1, 1], &[2, 2], &[]), &[])));
    assert!(!refused(&block_of(&dense_of(&[i64::MIN, 0], &[1, 1], &[2, 2], &[]), &[])));
    assert!(refused(&block_of(&dense_of(&[i64::MIN, -1], &[1, 1], &[2, 2], &[]), &[])));
    // The users' numbers have 32 bits, timestamps 64.
    let info = |times: &[i64], users: &[i64]| {
        let mut out = bytes_field(1, &packed(&vec![1; users.len()]));
        out.extend(bytes_field(2, &zigzags(times)));
        out.extend(bytes_field(3, &zigzags(&vec![0; users.len()])));
        out.extend(bytes_field(4, &zigzags(users)));
        out.extend(bytes_field(5, &zigzags(&vec![0; users.len()])));
        out
    };
    let top = i32::MAX as i64;
    let of = |info: &[u8]| refused(&block_of(&dense_of(&[1, 1], &[0, 0], &[0, 0], info), &[]));
    assert!(!of(&info(&[1_700_000_000, -5], &[top, -top])));
    assert!(of(&info(&[1_700_000_000, -5], &[top, 1])));
    assert!(of(&info(&[max, 1], &[0, 0])));
}

#[test]
fn only_the_rows_that_are_walked_are_summed() {
    let max = i64::MAX;
    // The shortest of the three columns ends the walk.
    assert!(!refused(&block_of(&dense_of(&[max, 1], &[1], &[2, 2], &[]), &[])));
    assert!(!refused(&block_of(&dense_of(&[1], &[max, 1], &[max, 1], &[]), &[])));
    assert!(!refused(&block_of(&dense_of(&[max, 1, 1], &[1, 1], &[], &[]), &[])));
    // So does the shortest of the metadata's five; it is walked one node further
    // than there are nodes.
    let info = |versions: usize, times: &[i64], users: &[i64]| {
        let mut out = bytes_field(1, &packed(&vec![1; versions]));
        out.extend(bytes_field(2, &zigzags(times)));
        out.extend(bytes_field(3, &zigzags(&[0; 4])));
        out.extend(bytes_field(4, &zigzags(users)));
        out.extend(bytes_field(5, &zigzags(&[0; 4])));
        out
    };
    let of = |info: &[u8]| refused(&block_of(&dense_of(&[1, 1], &[0, 0], &[0, 0], info), &[]));
    assert!(!of(&info(0, &[max, 1, 1, 1], &[0, 0, 0, 0])));
    assert!(!of(&info(1, &[max, 1, 1, 1], &[0, 0, 0, 0])));
    assert!(of(&info(2, &[max, 1, 1, 1], &[0, 0, 0, 0])));
    assert!(!of(&info(4, &[max, 1, 1, 1], &[0])));
    assert!(of(&info(4, &[max, 0, 1, 0], &[0, 0, 0])));
    assert!(!of(&info(4, &[max, 0, 0, 1], &[0, 0, 0, 0])));
    // Of several lots of dense nodes, and of metadata, the last counts.
    let mut lots = dense_of(&[max, 1], &[0, 0], &[0, 0], &[]);
    lots.extend(dense_of(&[1, 1], &[0, 0], &[0, 0], &[]));
    assert!(!refused(&block_of(&lots, &[])));
    lots.extend(dense_of(&[max, 1], &[0, 0], &[0, 0], &[]));
    assert!(refused(&block_of(&lots, &[])));
}

/// Whether the extract of one block is read, with a path over nodes 7 and 8.
fn placed(group: &[u8], more: &[u8]) -> bool {
    let mut strings = Vec::new();
    for text in ["", "highway", "path"] {
        strings.extend(bytes_field(1, text.as_bytes()));
    }
    let mut block = bytes_field(1, &strings);
    block.extend(bytes_field(2, group));
    block.extend(bytes_field(2, &bytes_field(3, &way(1, &[1], &[2], &[7, 8]))));
    block.extend_from_slice(more);
    let file = blob(b"OSMData", &block);
    let held = check_numbers(&file, &HashSet::from([7, 8]));
    assert!(check_numbers(&file, &HashSet::new()));
    match load_paths(&file) {
        Ok(ways) => {
            assert!(held);
            assert_eq!((ways.len(), ways[0].nodes.len()), (1, 2));
            true
        }
        Err(e) => {
            assert!(!held && matches!(e, PathError::Numbers));
            false
        }
    }
}

#[test]
fn coordinates_that_scale_out_of_range_are_refused() {
    // A hundred units to a step, unless the block says otherwise.
    let most = i64::MAX / 100;
    let dense = |lat: i64, lon: i64| dense_of(&[7], &[lat], &[lon], &[]);
    assert!(placed(&dense(most, -most), &[]));
    assert!(!placed(&dense(most + 1, 0), &[]));
    assert!(!placed(&dense(0, -most - 1), &[]));
    assert!(placed(&dense(most + 1, 0), &number_field(17, 1)));
    assert!(!placed(&dense(i64::MAX, 0), &[number_field(17, 1), number_field(19, 1)].concat()));
    assert!(placed(&dense(i64::MAX, 0), &[number_field(17, 1), number_field(20, 1)].concat()));
    let node = |id: i64, lat: i64, lon: i64| {
        let mut node = number_field(1, zigzag(id));
        node.extend(number_field(8, zigzag(lat)));
        node.extend(number_field(9, zigzag(lon)));
        bytes_field(1, &node)
    };
    assert!(placed(&node(8, -most, most), &[]));
    assert!(!placed(&node(8, most + 1, 0), &[]));
    assert!(!placed(&node(8, 0, most + 1), &[]));
}

#[test]
fn nodes_on_no_path_may_stand_anywhere() {
    let far = 1i64 << 62;
    assert!(placed(&dense_of(&[6, 1, 2], &[far, -far, far], &[0, 0, 0], &[]), &[]));
    assert!(!placed(&dense_of(&[6, 1, 2], &[0, far, 0], &[0, 0, 0], &[]), &[]));
    let mut node = number_field(1, zigzag(9));
    node.extend(number_field(8, zigzag(far)));
    node.extend(number_field(9, zigzag(-far)));
    assert!(placed(&bytes_field(1, &node), &[]));
}

#[test]
fn deflated_extracts_are_read_too() {
    let deflated = |body: &[u8]| {
        let mut enc = flate2::write::ZlibEncoder::new(Vec::new(), flate2::Compression::default());
        enc.write_all(body).unwrap();
        let mut data = number_field(2, body.len() as u64);
        data.extend(bytes_field(3, &enc.finish().unwrap()));
        let mut header = bytes_field(1, b"OSMData");
        header.extend(number_field(3, data.len() as u64));
        let mut out = (header.len() as u32).to_be_bytes().to_vec();
        out.extend(header);
        out.extend(data);
        out
    };
    let over = block_of(&dense_of(&[i64::MAX, 1], &[1, 1], &[2, 2], &[]), &[]);
    assert!(matches!(load_paths(&deflated(&over)), Err(PathError::Numbers)));
    let mut strings = Vec::new();
    for text in ["", "highway", "steps"] {
        strings.extend(bytes_field(1, text.as_bytes()));
    }
    let mut block = bytes_field(1, &strings);
    block.extend(bytes_field(2, &bytes_field(3, &way(9, &[1], &[2], &[4, 5]))));
    let good = deflated(&block);
    let ways = load_paths(&good).unwrap();
    assert_eq!((ways.len(), ways[0].nodes.len()), (1, 2));
    let mut bad = good.clone();
    let n = bad.len();
    bad[n - 1] ^= 0xff;
    assert!(load_paths(&bad).is_err());
}

#[test]
fn unknown_blobs_and_fields_are_passed_over() {
    let mut file = blob(b"Index", &[0x0f, 0xff, 0xff]);
    let mut more = bytes_field(40, b"anything");
    more.extend([(41 << 3 | 5) as u8 | 0x80, 2, 1, 2, 3, 4]);
    more.extend([(42 << 3 | 1) as u8 | 0x80, 2, 1, 2, 3, 4, 5, 6, 7, 8]);
    // A group, with a group of nodes in it that counts for nothing.
    more.extend([(43 << 3 | 3) as u8 | 0x80, 2]);
    more.extend(bytes_field(2, &dense_of(&[i64::MAX, 1], &[1, 1], &[2, 2], &[])));
    more.extend([(43 << 3 | 4) as u8 | 0x80, 2]);
    file.extend(blob(b"OSMData", &block_of(&[], &more)));
    assert!(load_paths(&file).unwrap().is_empty());
}

use std::io::{Cursor, Write};

use airhorizon::asc::{
    grid_cells, parse_header_with_offset, AscError, AscHeader, AscTile, Corners, Field,
    HeaderNumbers, Span, NODATA_BITS,
};
use airhorizon::dem::{open_lidar, prefer_lidar, Dem, DemError, Lookup, TileCache, TileStore};
use airhorizon::gridfile::{decode_grid, encode_grid, CacheError};
use airhorizon::ieee::{Double, Single};
use airhorizon::tiffdir::{check_counts, check_jpeg};
use airhorizon::lidar::{
    choose_entries, decimate, decode_tif, index_zip, read_world, LidarError, Raster, World,
};

fn d(v: f64) -> Double {
    Double { bits: v.to_bits() }
}

fn s(v: f32) -> Single {
    Single { bits: v.to_bits() }
}

fn singles(v: &[f32]) -> Vec<Single> {
    v.iter().map(|&x| s(x)).collect()
}

fn wide(v: Single) -> f64 {
    f32::from_bits(v.bits) as f64
}

fn number(v: Double) -> f64 {
    f64::from_bits(v.bits)
}

fn synthetic_tile() -> AscTile {
    AscTile {
        header: AscHeader {
            ncols: 2,
            nrows: 2,
            xllcorner: d(1000.0),
            yllcorner: d(2000.0),
            cellsize: d(50.0),
            nodata: d(-9999.0),
        },
        data: singles(&[10.0, 20.0, 30.0, 40.0]),
    }
}

/// Bilinear-interpolated elevation at a point.
fn sample_bilinear(t: &AscTile, e: f64, n: f64) -> Option<f64> {
    let h = &t.header;
    let (xll, yll, cs) = (number(h.xllcorner), number(h.yllcorner), number(h.cellsize));
    let east = xll + h.ncols as f64 * cs;
    let north = yll + h.nrows as f64 * cs;
    if h.outside(d(e), d(n), d(east), d(north)) {
        return None;
    }
    let col = ((e - xll) / cs - 0.5).clamp(0.0, (h.ncols - 1) as f64);
    let row = (h.nrows as f64 - 0.5 - (n - yll) / cs).clamp(0.0, (h.nrows - 1) as f64);
    let (r0, c0) = (row.floor() as usize, col.floor() as usize);
    let (fx, fy) = (col - c0 as f64, row - r0 as f64);
    let c = t.corners(r0, c0)?;
    let top = wide(c.v00) * (1.0 - fx) + wide(c.v10) * fx;
    let bottom = wide(c.v01) * (1.0 - fx) + wide(c.v11) * fx;
    Some(top * (1.0 - fy) + bottom * fy)
}

#[test]
fn bilinear_centre() {
    let t = synthetic_tile();
    let v = sample_bilinear(&t, 1050.0, 2050.0).unwrap();
    assert!((v - 25.0).abs() < 1e-9, "got {v}");
}

#[test]
fn bilinear_cell_centre() {
    let t = synthetic_tile();
    let v = sample_bilinear(&t, 1025.0, 2025.0).unwrap();
    assert!((v - 30.0).abs() < 1e-9, "got {v}");
}

#[test]
fn outside_returns_none() {
    let t = synthetic_tile();
    assert!(sample_bilinear(&t, 5000.0, 5000.0).is_none());
}

/// The numbers that a header's values spell.
fn numbers(text: &str) -> (AscHeader, usize) {
    let (h, at) = parse_header_with_offset(text.as_bytes());
    let num = |v: Span| text[v.from..v.to].parse::<f64>().ok().map(d);
    let numbers = HeaderNumbers {
        xll: h.xll.and_then(num),
        yll: h.yll.and_then(num),
        cell: h.cell.and_then(num),
        nodata: h.nodata.iter().map(|&v| num(v)).collect(),
    };
    (AscHeader::assemble(&h, &numbers).unwrap(), at)
}

#[test]
fn parses_header() {
    let text = "ncols 4\nnrows 3\nxllcorner 100\nyllcorner 200\ncellsize 50\nNODATA_value -9999\n";
    let (h, _) = numbers(text);
    assert_eq!(h.ncols, 4);
    assert_eq!(h.cellsize, d(50.0));
    assert_eq!(h.nodata, d(-9999.0));
}

#[test]
fn the_grid_begins_after_the_header() {
    let text = "NCOLS 2\r\nnrows 1\r\nXLLCENTER 100\nyllcenter 200\ncellsize 50\n 1.5\t-2\n";
    let (h, at) = numbers(text);
    assert_eq!((h.ncols, h.nrows), (2, 1));
    assert_eq!(h.nodata, Double { bits: NODATA_BITS });
    assert_eq!(&text[at..], " 1.5\t-2\n");
    let cells = grid_cells(text.as_bytes(), at);
    let words: Vec<&str> = cells.iter().map(|c| &text[c.from..c.to]).collect();
    assert_eq!(words, vec!["1.5", "-2"]);
}

#[test]
fn a_header_may_end_with_the_text() {
    let text = "ncols 2";
    let (h, at) = parse_header_with_offset(text.as_bytes());
    assert_eq!(h.ncols, Some(2));
    assert_eq!(at, text.len());
    assert!(grid_cells(text.as_bytes(), at).is_empty());
    // A blank line is no header line.
    let (h, at) = parse_header_with_offset(b"\nncols 2");
    assert_eq!((h.ncols, at), (None, 0));
}

#[test]
fn later_header_values_count() {
    let text = "ncols 9\nncols x\nncols 4\nnodata_value 7\nnodata_value y\n";
    let (h, _) = parse_header_with_offset(text.as_bytes());
    assert_eq!(h.ncols, Some(4));
    assert_eq!(h.nodata.len(), 2);
    let (h, _) = parse_header_with_offset(b"ncols 4\nncols x\n");
    assert_eq!(h.ncols, None);
}

#[test]
fn missing_header_fields_are_named() {
    let full = |skip: usize| {
        let (mut h, _) = parse_header_with_offset(b"ncols 2\nnrows 3\n");
        if skip == 0 {
            h.ncols = None;
        }
        if skip == 1 {
            h.nrows = None;
        }
        let n = HeaderNumbers {
            xll: if skip == 2 { None } else { Some(d(1.0)) },
            yll: if skip == 3 { None } else { Some(d(2.0)) },
            cell: if skip == 4 { None } else { Some(d(50.0)) },
            nodata: vec![Some(d(-1.0)), Some(d(-2.0)), None],
        };
        AscHeader::assemble(&h, &n)
    };
    assert_eq!(full(0), Err(AscError::Missing(Field::Ncols)));
    assert_eq!(full(1), Err(AscError::Missing(Field::Nrows)));
    assert_eq!(full(2), Err(AscError::Missing(Field::Xllcorner)));
    assert_eq!(full(3), Err(AscError::Missing(Field::Yllcorner)));
    assert_eq!(full(4), Err(AscError::Missing(Field::Cellsize)));
    let h = full(5).unwrap();
    assert_eq!((h.ncols, h.nrows, h.xllcorner, h.yllcorner), (2, 3, d(1.0), d(2.0)));
    assert_eq!(h.nodata, d(-2.0));
}

#[test]
fn grids_are_checked() {
    let header = synthetic_tile().header;
    let cells = |v: &[f32]| v.iter().map(|&x| Some(s(x))).collect::<Vec<_>>();
    let t = AscTile::assemble(header, &cells(&[1.0, 2.0, 3.0, 4.0])).unwrap();
    assert_eq!(t.data, singles(&[1.0, 2.0, 3.0, 4.0]));
    assert_eq!(t.header, header);
    let short = AscTile::assemble(header, &cells(&[1.0, 2.0, 3.0]));
    assert_eq!(short.unwrap_err(), AscError::CellCount { expected: 4, got: 3 });
    let bad = AscTile::assemble(header, &vec![Some(s(1.0)), None, None]);
    assert_eq!(bad.unwrap_err(), AscError::BadCell(1));
}

#[test]
fn missing_cells_have_no_corners() {
    let mut t = synthetic_tile();
    assert_eq!(
        t.corners(0, 0),
        Some(Corners { v00: s(10.0), v10: s(20.0), v01: s(30.0), v11: s(40.0) })
    );
    // At the edge the last row and column repeat.
    assert_eq!(
        t.corners(1, 1),
        Some(Corners { v00: s(40.0), v10: s(40.0), v01: s(40.0), v11: s(40.0) })
    );
    t.data[3] = s(-9999.0);
    assert_eq!(t.corners(0, 0), None);
    assert!(t.corners(0, 0).is_none() && t.corners(1, 0).is_none());
    t.header.ncols = 1;
    t.header.nrows = 4;
    assert_eq!(
        t.corners(0, 0),
        Some(Corners { v00: s(10.0), v10: s(10.0), v01: s(20.0), v11: s(20.0) })
    );
}

#[test]
fn footprints_have_their_west_and_south_edges() {
    let h = synthetic_tile().header;
    let inside = |e: f64, n: f64| h.contains(d(e), d(n), d(1100.0), d(2100.0));
    let outside = |e: f64, n: f64| h.outside(d(e), d(n), d(1100.0), d(2100.0));
    assert!(inside(1000.0, 2000.0) && inside(1099.0, 2099.0));
    assert!(!inside(1100.0, 2050.0) && !inside(1050.0, 2100.0));
    assert!(!outside(1100.0, 2100.0) && !outside(1000.0, 2000.0));
    assert!(outside(999.0, 2050.0) && outside(1050.0, 2100.5));
    for e in [999.0, 1000.0, 1050.0, 1100.0, 1101.0] {
        assert!(!(inside(e, 2050.0) && outside(e, 2050.0)));
    }
}

#[test]
fn grid_files_read_back() {
    let t = synthetic_tile();
    let bytes = encode_grid(&t);
    assert_eq!(bytes.len(), 52 + 16);
    assert_eq!(&bytes[0..8], b"AHLDTM01");
    assert_eq!(&bytes[8..20], &[2, 0, 0, 0, 2, 0, 0, 0, 2, 0, 0, 0]);
    assert_eq!(&bytes[20..28], &1000.0f64.to_le_bytes());
    assert_eq!(&bytes[44..52], &(-9999.0f64).to_le_bytes());
    assert_eq!(&bytes[52..56], &10.0f32.to_le_bytes());
    let back = decode_grid(&bytes).unwrap();
    assert_eq!(back.header, t.header);
    assert_eq!(back.data, t.data);
    assert_eq!(encode_grid(&back), bytes);
}

#[test]
fn broken_grid_files_are_refused() {
    let bytes = encode_grid(&synthetic_tile());
    assert_eq!(decode_grid(&bytes[..51]).unwrap_err(), CacheError::BadHeader);
    let mut other = bytes.clone();
    other[7] = b'2';
    assert_eq!(decode_grid(&other).unwrap_err(), CacheError::BadHeader);
    let mut other = bytes.clone();
    other[8] = 1;
    assert_eq!(decode_grid(&other).unwrap_err(), CacheError::Stale);
    assert_eq!(decode_grid(&bytes[..67]).unwrap_err(), CacheError::BodySize);
    let mut other = bytes.clone();
    other[12..20].copy_from_slice(&[255; 8]);
    assert_eq!(decode_grid(&other).unwrap_err(), CacheError::BodySize);
}

fn zipped(entries: &[(&str, &[u8])]) -> Vec<u8> {
    let mut w = zip::ZipWriter::new(Cursor::new(Vec::new()));
    for (name, bytes) in entries {
        w.start_file(*name, zip::write::SimpleFileOptions::default()).unwrap();
        w.write_all(bytes).unwrap();
    }
    w.finish().unwrap().into_inner()
}

fn tiff_of(width: u32, height: u32, samples: &[f32]) -> Vec<u8> {
    let mut out = Cursor::new(Vec::new());
    let mut enc = tiff::encoder::TiffEncoder::new(&mut out).unwrap();
    enc.write_image::<tiff::encoder::colortype::Gray32Float>(width, height, samples).unwrap();
    out.into_inner()
}

#[test]
fn zips_are_indexed_by_their_world_file() {
    let z = zipped(&[
        ("readme.txt", b"x"),
        ("old.TIF", b"a"),
        ("tile/ny10.Tiff", b"b"),
        ("tile/ny10.tfw", b"1.0\n0.0\r\n0.0\n-1.0\n315000.5\n509999.5\n"),
    ]);
    let i = index_zip(&z).unwrap();
    assert_eq!(i.tif, "tile/ny10.Tiff");
    assert_eq!(i.world, vec!["1.0", "0.0", "0.0", "-1.0", "315000.5", "509999.5"]);
}

#[test]
fn unusable_zips_are_refused() {
    assert!(matches!(index_zip(b"no zip at all"), Err(LidarError::Zip(_))));
    assert!(matches!(index_zip(&zipped(&[("a.tfw", b"1")])), Err(LidarError::NoTif)));
    assert!(matches!(index_zip(&zipped(&[("a.tif", b"1")])), Err(LidarError::NoTfw)));
    let z = zipped(&[("a.tif", b"1"), ("a.tfw", &[0xff, 0xfe])]);
    assert!(matches!(index_zip(&z), Err(LidarError::Zip(_))));
}

#[test]
fn the_last_of_each_kind_is_chosen() {
    let names = |n: &[&str]| n.iter().map(|x| x.to_string()).collect::<Vec<_>>();
    let picked = choose_entries(&names(&["a.tif", "a.tfw", "b.TIFF", "b.TFW", "c.txt"])).unwrap();
    assert_eq!(picked, (2, 3));
    assert!(matches!(choose_entries(&names(&[])), Err(LidarError::NoTif)));
    assert!(matches!(choose_entries(&names(&["x.tiff"])), Err(LidarError::NoTfw)));
}

#[test]
fn world_files_hold_six_numbers() {
    let words = |w: &[&str]| w.iter().map(|x| x.parse::<f64>().ok().map(d)).collect::<Vec<_>>();
    let w = read_world(&words(&["1", "x", "0", "0", "-1", "300000.5", "499999.5"])).unwrap();
    assert_eq!(w, World { px: d(1.0), py: d(-1.0), ox: d(300000.5), oy: d(499999.5) });
    let short = read_world(&words(&["1", "0", "0", "-1", "300000.5", "y"]));
    assert!(matches!(short, Err(LidarError::ShortTfw)));
}

#[test]
fn rasters_are_thinned_and_tidied() {
    let samples = [
        1.0,
        2.0,
        -20000.0,
        4.0,
        5.0,
        6.0,
        7.0,
        8.0,
        f32::NAN,
        10.0,
        f32::INFINITY,
        12.0,
        13.0,
        14.0,
        15.0,
        16.0,
        17.0,
        18.0,
        19.0,
        20.0,
    ];
    let z = zipped(&[("t.tif", &tiff_of(4, 5, &samples))]);
    let t = decode_tif(&z, "t.tif").unwrap();
    assert_eq!((t.ncols, t.nrows), (2, 2));
    assert_eq!(t.data, singles(&[1.0, -9999.0, -9999.0, -9999.0]));
    let tile = t.into_tile(d(315000.0), d(505000.0));
    assert_eq!(
        tile.header,
        AscHeader {
            ncols: 2,
            nrows: 2,
            xllcorner: d(315000.0),
            yllcorner: d(505000.0),
            cellsize: d(2.0),
            nodata: d(-9999.0),
        }
    );
    assert_eq!(tile.data, singles(&[1.0, -9999.0, -9999.0, -9999.0]));
}

#[test]
fn heights_at_the_limit_are_spurious() {
    let image = Raster { width: 2, height: 2, samples: Some(singles(&[-10000.0, 0.0, 0.0, 0.0])) };
    assert_eq!(decimate(&image).unwrap().data, singles(&[-9999.0]));
    let image = Raster { width: 2, height: 2, samples: Some(singles(&[-9999.5, 0.0, 0.0, 0.0])) };
    assert_eq!(decimate(&image).unwrap().data, singles(&[-9999.5]));
}

#[test]
fn unusable_rasters_are_refused() {
    let z = zipped(&[("t.tif", b"not a raster")]);
    assert!(matches!(decode_tif(&z, "missing.tif"), Err(LidarError::Zip(_))));
    assert!(matches!(decode_tif(&z, "t.tif"), Err(LidarError::Tiff(_))));
    let mut grey = Cursor::new(Vec::new());
    tiff::encoder::TiffEncoder::new(&mut grey)
        .unwrap()
        .write_image::<tiff::encoder::colortype::Gray8>(2, 2, &[1, 2, 3, 4])
        .unwrap();
    let z = zipped(&[("t.tif", &grey.into_inner())]);
    assert!(matches!(decode_tif(&z, "t.tif"), Err(LidarError::SampleType)));
    let image = Raster { width: 2, height: 2, samples: Some(singles(&[1.0, 2.0, 3.0])) };
    assert!(matches!(decimate(&image), Err(LidarError::SizeMismatch)));
    let image = Raster { width: 2, height: 2, samples: None };
    assert!(matches!(decimate(&image), Err(LidarError::SampleType)));
}

/// A file of nothing but a directory, of entries (tag, type, count, value field).
fn directory(big_endian: bool, entries: &[(u16, u16, u32, [u8; 4])]) -> Vec<u8> {
    let two = |v: u16| if big_endian { v.to_be_bytes() } else { v.to_le_bytes() };
    let four = |v: u32| if big_endian { v.to_be_bytes() } else { v.to_le_bytes() };
    let mut out = if big_endian { b"MM".to_vec() } else { b"II".to_vec() };
    out.extend(two(42));
    out.extend(four(8));
    out.extend(two(entries.len() as u16));
    for &(tag, kind, count, value) in entries {
        out.extend(two(tag));
        out.extend(two(kind));
        out.extend(four(count));
        out.extend(value);
    }
    out.extend(four(0));
    out
}

fn wide_directory(entries: &[(u16, u16, u64, u64)]) -> Vec<u8> {
    let mut out = b"II\x2b\x00\x08\x00\x00\x00".to_vec();
    out.extend(16u64.to_le_bytes());
    out.extend((entries.len() as u64).to_le_bytes());
    for &(tag, kind, count, value) in entries {
        out.extend(tag.to_le_bytes());
        out.extend(kind.to_le_bytes());
        out.extend(count.to_le_bytes());
        out.extend(value.to_le_bytes());
    }
    out.extend(0u64.to_le_bytes());
    out
}

#[test]
fn counts_beyond_any_raster_are_refused() {
    // One row per strip, two planes: 2 * 0xffff_ffff strips.
    let le = |v: u32| v.to_le_bytes();
    let tall = directory(
        false,
        &[
            (256, 4, 1, le(1)),
            (257, 4, 1, le(0xffff_ffff)),
            (262, 3, 1, le(1)),
            (273, 4, 1, le(8)),
            (277, 3, 1, le(2)),
            (278, 4, 1, le(1)),
            (279, 4, 1, le(1)),
            (284, 3, 1, le(2)),
        ],
    );
    assert!(!check_counts(&tall));
    let z = zipped(&[("t.tif", &tall)]);
    assert!(matches!(decode_tif(&z, "t.tif"), Err(LidarError::Counts)));
    // With one plane there is nothing to overflow; the strips are missing.
    let tall = directory(false, &[(256, 4, 1, le(1)), (257, 4, 1, le(0xffff_ffff))]);
    assert!(check_counts(&tall));
    let z = zipped(&[("t.tif", &tall)]);
    assert!(matches!(decode_tif(&z, "t.tif"), Err(LidarError::Tiff(_))));
}

/// A black 16 x 16 picture of three components, the second and third at half the
/// resolution.
fn jpeg() -> Vec<u8> {
    let mut out = vec![0xff, 0xd8, 0xff, 0xdb, 0, 67, 0];
    out.extend([1; 64]);
    out.extend([0xff, 0xc0, 0, 17, 8, 0, 16, 0, 16, 3, 1, 0x22, 0, 2, 0x11, 0, 3, 0x11, 0]);
    for table in [0x00, 0x10] {
        // One code, of one bit, for the value zero.
        out.extend([0xff, 0xc4, 0, 20, table, 1]);
        out.extend([0; 16]);
    }
    out.extend([0xff, 0xda, 0, 12, 3, 1, 0, 2, 0, 3, 0, 0, 63, 0]);
    out.extend([0x00, 0x0f, 0xff, 0xd9]);
    out
}

#[test]
fn rasters_stored_as_jpeg_are_refused() {
    let strip = jpeg();
    let le = |v: u32| v.to_le_bytes();
    let raster = |compression: u32, photometric: u32, bits: u32| {
        let mut file = directory(
            false,
            &[
                (256, 3, 1, le(16)),
                (257, 3, 1, le(16)),
                (258, 3, 1, le(bits)),
                (259, 3, 1, le(compression)),
                (262, 3, 1, le(photometric)),
                (273, 4, 1, le(122)),
                (277, 3, 1, le(1)),
                (278, 3, 1, le(16)),
                (279, 4, 1, le(strip.len() as u32)),
            ],
        );
        assert_eq!(file.len(), 122);
        file.extend(&strip);
        file
    };
    for photometric in [0, 1] {
        let file = raster(7, photometric, 8);
        assert!(check_counts(&file) && check_jpeg(&file));
        let z = zipped(&[("t.tif", &file)]);
        assert!(matches!(decode_tif(&z, "t.tif"), Err(LidarError::Jpeg)));
    }
    // The same bytes as plain samples are too few; nothing else is refused so.
    let z = zipped(&[("t.tif", &raster(1, 1, 8))]);
    assert!(matches!(decode_tif(&z, "t.tif"), Err(LidarError::Tiff(_))));
    assert!(!check_jpeg(&tiff_of(2, 2, &[0.0; 4])));
    assert!(!check_jpeg(&directory(true, &[(257, 3, 1, [0, 7, 0, 0])])));
    assert!(check_jpeg(&directory(true, &[(259, 3, 1, [0, 7, 0, 0])])));
    assert!(!check_jpeg(b""));
}

#[test]
fn counts_are_read_as_the_file_writes_them() {
    let height = |big: bool, v: u32| if big { v.to_be_bytes() } else { v.to_le_bytes() };
    let two = |big: bool| if big { [0, 2, 0, 0] } else { [2, 0, 0, 0] };
    for big in [false, true] {
        let of = |rows: u32| directory(big, &[(257, 4, 1, height(big, rows)), (277, 3, 1, two(big))]);
        assert!(check_counts(&of(0x7fff_ffff)));
        assert!(!check_counts(&of(0x8000_0000)));
    }
    let rows = (257, 4, 1, 0x8000_0000u32.to_le_bytes());
    // The last entry of a tag counts; a list and an unknown type give no number.
    let fits = |e: (u16, u16, u32, [u8; 4])| check_counts(&directory(false, &[rows, (277, 3, 1, [2, 0, 0, 0]), e]));
    assert!(fits((277, 3, 1, [1, 0, 0, 0])));
    assert!(fits((277, 1, 1, [1, 9, 9, 9])));
    assert!(fits((277, 3, 2, [2, 0, 2, 0])));
    assert!(!fits((277, 99, 1, [1, 0, 0, 0])));
    assert!(!fits((278, 3, 1, [1, 0, 0, 0])));
    // Eight-byte numbers stand elsewhere in a narrow file, in place in a wide one.
    let mut far = directory(false, &[(257, 16, 1, 38u32.to_le_bytes()), (277, 3, 1, [3, 0, 0, 0])]);
    assert_eq!(far.len(), 38);
    far.extend(0x5555_5556u64.to_le_bytes());
    assert!(!check_counts(&far));
    far[38..46].copy_from_slice(&0x5555_5555u64.to_le_bytes());
    assert!(check_counts(&far));
    assert!(!check_counts(&wide_directory(&[(257, 16, 1, 0x8000_0000), (277, 3, 1, 2)])));
    assert!(check_counts(&wide_directory(&[(257, 16, 1, 0x7fff_ffff), (277, 3, 1, 2)])));
    assert!(!check_counts(&wide_directory(&[(257, 16, 1, 0x1_0000_0000)])));
    // What is no TIFF file has no counts.
    assert!(check_counts(b""));
    assert!(check_counts(b"IM\x2a\x00\x08\x00\x00\x00"));
    assert!(check_counts(b"II\x2a\x00\xff\xff\xff\xff"));
}

#[test]
fn rasters_that_can_be_decoded_pass() {
    for (w, h) in [(1, 1), (3, 7), (700, 2)] {
        assert!(check_counts(&tiff_of(w, h, &vec![1.5; (w * h) as usize])));
    }
    let mut out = Cursor::new(Vec::new());
    let mut enc = tiff::encoder::TiffEncoder::new_big(&mut out).unwrap();
    enc.write_image::<tiff::encoder::colortype::Gray32Float>(2, 2, &[4.0, 5.0, 6.0, 7.0]).unwrap();
    let big = out.into_inner();
    assert!(check_counts(&big));
    let z = zipped(&[("t.tif", &big)]);
    assert_eq!(decode_tif(&z, "t.tif").unwrap().data, singles(&[4.0]));
}

fn marked(v: f32) -> AscTile {
    let mut t = synthetic_tile();
    t.data[0] = s(v);
    t
}

#[test]
fn the_oldest_tile_leaves_a_full_cache() {
    let mut c = TileCache::new(2);
    c.insert((0, 0), marked(1.0));
    c.insert((-1, 5), marked(2.0));
    c.insert((7, 7), marked(3.0));
    assert!(c.get((0, 0)).is_none());
    assert_eq!(c.get((-1, 5)).unwrap().data[0], s(2.0));
    assert_eq!(c.get((7, 7)).unwrap().data[0], s(3.0));
}

#[test]
fn a_used_tile_stays() {
    let mut c = TileCache::new(2);
    c.insert((0, 0), marked(1.0));
    c.insert((1, 1), marked(2.0));
    c.touch((0, 0));
    c.insert((2, 2), marked(3.0));
    assert!(c.get((1, 1)).is_none());
    assert!(c.get((0, 0)).is_some() && c.get((2, 2)).is_some());
}

#[test]
fn a_cache_without_room_keeps_one_tile() {
    let mut c = TileCache::new(0);
    c.insert((0, 0), marked(1.0));
    assert!(c.get((0, 0)).is_some());
    c.insert((1, 1), marked(2.0));
    assert!(c.get((0, 0)).is_none() && c.get((1, 1)).is_some());
}

#[test]
fn stores_know_what_to_load() {
    let mut st = TileStore::new(&vec![Some((3, 4)), None, Some((3, 5)), Some((3, 4))], 8);
    assert_eq!(st.tile_count(), 2);
    assert_eq!(st.lookup((0, 0)), Lookup::Absent);
    // Of two files for one cell the later counts.
    assert_eq!(st.lookup((3, 4)), Lookup::Load(3));
    assert_eq!(st.lookup((3, 5)), Lookup::Load(2));
    st.store((3, 4), marked(9.0));
    assert_eq!(st.lookup((3, 4)), Lookup::Ready);
    assert_eq!(st.tile((3, 4)).unwrap().data[0], s(9.0));
    assert!(st.tile((3, 5)).is_none());
    let keys = vec![(3, 4), (3, 5), (9, 9), (3, 5)];
    assert_eq!(st.missing_near(&keys, &vec![true, true, true, false]), vec![(3, 5)]);
    st.touch((3, 4));
    assert_eq!(st.lookup((3, 4)), Lookup::Ready);
}

#[test]
fn models_need_a_directory_with_tiles() {
    let missing = Dem::open("terrain", false, &vec![Some((1, 1))]);
    assert!(matches!(missing, Err(DemError::DirMissing(p)) if p == "terrain"));
    let empty = Dem::open("terrain", true, &vec![None, None]);
    assert!(matches!(empty, Err(DemError::Empty(p)) if p == "terrain"));
    let mut dem = Dem::open("terrain", true, &vec![None, Some((31, 50))]).ok().unwrap();
    assert_eq!(dem.tile_count(), 1);
    assert!(!dem.has_lidar());
    assert!(open_lidar(&vec![None]).is_none());
    assert_eq!(dem.attach_lidar(None), 0);
    assert!(!dem.has_lidar());
    assert_eq!(dem.attach_lidar(open_lidar(&vec![Some((1, 2)), Some((1, 3))])), 2);
    assert!(dem.has_lidar());
    // Nothing to attach leaves the overlay alone.
    assert_eq!(dem.attach_lidar(None), 0);
    assert!(dem.has_lidar());
}

#[test]
fn lidar_is_preferred() {
    assert_eq!(prefer_lidar(Some(1), Some(2)), Some(1));
    assert_eq!(prefer_lidar(None, Some(2)), Some(2));
    assert_eq!(prefer_lidar::<i32>(None, None), None);
}

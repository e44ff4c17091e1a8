use airhorizon::ieee::Double;
use airhorizon::peaks::{
    extract_rows, find_columns, load_csv, Column, Peak, PeakNumbers, PeakText, Peaks, PeaksError,
};

fn d(v: f64) -> Double {
    Double { bits: v.to_bits() }
}

const TABLE: &str = "Number,Name,Metres,Drop,Latitude,Longitude,Classification\n\
1, Scafell Pike ,978,912,54.454,-3.211,\"Ma,Hu,W\"\n\
2,Great Gable,899,425,54.482,-3.219,\"Ma,W\"\n\
3,Nowhere,1,2,,-3.0,W\n\
4,Short\n\
5,Lingmell,x,,54.463,-3.222,W\n";

fn numbers(rows: &[PeakText]) -> Vec<PeakNumbers> {
    let num = |s: &str| s.parse::<f64>().ok().map(d);
    rows.iter()
        .map(|r| PeakNumbers {
            lat: num(&r.lat),
            lon: num(&r.lon),
            height: num(&r.height),
            drop: num(&r.drop),
        })
        .collect()
}

fn peaks() -> Peaks {
    let rows = load_csv(TABLE.as_bytes()).unwrap();
    let numbers = numbers(&rows);
    Peaks::from_rows(&rows, &numbers)
}

#[test]
fn rows_are_read_by_column_name() {
    let rows = load_csv(TABLE.as_bytes()).unwrap();
    assert_eq!(rows.len(), 5);
    assert_eq!(rows[0].name, "Scafell Pike");
    assert_eq!((rows[0].lat.as_str(), rows[0].lon.as_str()), ("54.454", "-3.211"));
    assert_eq!((rows[0].height.as_str(), rows[0].drop.as_str()), ("978", "912"));
    assert_eq!(rows[0].class, "Ma,Hu,W");
    // A short row has empty fields.
    assert_eq!((rows[3].name.as_str(), rows[3].lat.as_str(), rows[3].class.as_str()), ("Short", "", ""));
}

#[test]
fn missing_columns_are_named() {
    let all = ["Name", "Latitude", "Longitude", "Metres", "Drop", "Classification"];
    let kinds = [
        Column::Name,
        Column::Latitude,
        Column::Longitude,
        Column::Metres,
        Column::Drop,
        Column::Classification,
    ];
    for (i, kind) in kinds.into_iter().enumerate() {
        let kept: Vec<&str> = all.iter().copied().filter(|c| *c != all[i]).collect();
        let table = format!("{}\n", kept.join(","));
        let r = load_csv(table.as_bytes());
        assert!(matches!(r, Err(PeaksError::MissingColumn(c)) if c == kind), "{kind:?}");
    }
    assert!(matches!(load_csv(b""), Err(PeaksError::MissingColumn(Column::Name))));
}

#[test]
fn tables_have_to_be_text() {
    assert!(matches!(load_csv(&[0xff, 0xfe, b'\n']), Err(PeaksError::Csv(_))));
    let mut bytes = b"Name,Latitude,Longitude,Metres,Drop,Classification\n".to_vec();
    bytes.extend([0xff, b',', b'1', b'\n']);
    assert!(matches!(load_csv(&bytes), Err(PeaksError::Csv(_))));
}

#[test]
fn columns_are_found_in_any_order() {
    let headers: Vec<String> = ["Drop", "Classification", "Name", "Name", "Metres", "Longitude", "Latitude"]
        .iter()
        .map(|h| h.to_string())
        .collect();
    let c = find_columns(&headers).unwrap();
    assert_eq!((c.name, c.lat, c.lon, c.height, c.drop, c.class), (2, 6, 5, 4, 0, 1));
    let records = vec![vec!["9".to_string(), " W ".to_string(), "Kirk Fell".to_string()]];
    let rows = extract_rows(&records, c);
    assert_eq!((rows[0].name.as_str(), rows[0].drop.as_str(), rows[0].class.as_str()), ("Kirk Fell", "9", "W"));
    assert_eq!(rows[0].lat, "");
}

#[test]
fn summits_without_coordinates_are_skipped() {
    let p = peaks();
    assert_eq!(p.len(), 3);
    assert!(!p.is_empty());
    let lingmell = p.peak(2);
    assert_eq!(lingmell.name, "Lingmell");
    assert_eq!((lingmell.height_m, lingmell.prominence_m), (d(0.0), d(0.0)));
    assert_eq!((p.peak(0).height_m, p.peak(0).prominence_m), (d(978.0), d(912.0)));
    assert_eq!((p.peak(1).lat, p.peak(1).lon), (d(54.482), d(-3.219)));
    assert!(Peaks::empty().is_empty());
    assert_eq!(Peaks::empty().len(), 0);
}

#[test]
fn classes_are_whole_codes() {
    let p = Peak {
        name: "Haystacks".to_string(),
        lat: d(54.5),
        lon: d(-3.2),
        height_m: d(597.0),
        prominence_m: d(92.0),
        classification: "Sim, W,B".to_string(),
    };
    assert!(p.has_class("W") && p.has_class("Sim") && p.has_class("B"));
    assert!(!p.has_class("S") && !p.has_class(" W") && !p.has_class(""));
}

fn found(p: &Peaks, a: f64, b: f64, c: f64, e: f64) -> Vec<usize> {
    let mut v = p.in_bbox(d(a), d(b), d(c), d(e));
    v.sort();
    v
}

#[test]
fn boxes_include_their_edges() {
    let p = peaks();
    assert_eq!(found(&p, -4.0, 54.0, -3.0, 55.0), vec![0, 1, 2]);
    assert_eq!(found(&p, -3.219, 54.4, -3.211, 54.482), vec![0, 1]);
    assert_eq!(found(&p, -3.2189, 54.4, -3.211, 54.482), vec![0]);
    // The corners may come the other way round.
    assert_eq!(found(&p, -3.0, 55.0, -4.0, 54.0), vec![0, 1, 2]);
    assert!(found(&p, 1.0, 54.0, 2.0, 55.0).is_empty());
    assert!(found(&Peaks::empty(), -180.0, -90.0, 180.0, 90.0).is_empty());
}

#[test]
fn boxes_without_a_corner_are_thin_or_empty() {
    let p = peaks();
    assert!(found(&p, -4.0, 54.0, f64::NAN, 55.0).is_empty());
    assert_eq!(found(&p, f64::NAN, 54.0, -3.211, 55.0), vec![0]);
}

#[test]
fn many_summits_are_all_found_once() {
    let rows: Vec<PeakText> = (0..400)
        .map(|i| PeakText {
            name: format!("P{i}"),
            lat: format!("{}", (i % 20) as f64 - 10.0),
            lon: format!("{}", (i / 20) as f64 - 10.0),
            height: "1".to_string(),
            drop: "1".to_string(),
            class: String::new(),
        })
        .collect();
    let numbers = numbers(&rows);
    let p = Peaks::from_rows(&rows, &numbers);
    let want: Vec<usize> = (0..400)
        .filter(|&i| {
            let (lat, lon) = ((i % 20) as f64 - 10.0, (i / 20) as f64 - 10.0);
            (-3.0..=2.0).contains(&lon) && (-1.5..=4.0).contains(&lat)
        })
        .collect();
    assert_eq!(found(&p, -3.0, -1.5, 2.0, 4.0), want);
    assert_eq!(found(&p, -180.0, -90.0, 180.0, 90.0).len(), 400);
}

#[test]
fn a_position_that_is_no_number_is_in_no_box() {
    let row = |name: &str, lat: &str, lon: &str| PeakText {
        name: name.to_string(),
        lat: lat.to_string(),
        lon: lon.to_string(),
        height: "1".to_string(),
        drop: "1".to_string(),
        class: String::new(),
    };
    let mut rows = vec![row("a", "NaN", "-3"), row("b", "54", "-3"), row("c", "54", "nan")];
    for _ in 0..20 {
        let p = Peaks::from_rows(&rows, &numbers(&rows));
        assert_eq!(p.len(), rows.len());
        let everything = found(&p, f64::NEG_INFINITY, f64::NEG_INFINITY, f64::INFINITY, f64::INFINITY);
        let want: Vec<usize> = (0..rows.len()).filter(|&i| rows[i].name == "b").collect();
        assert_eq!(everything, want);
        rows.push(row("b", "54", "-3"));
        rows.push(row("c", "NaN", "NaN"));
    }
}

#[test]
fn range_is_a_limit_on_distance() {
    let near = vec![4, 2, 9];
    let dists = vec![d(1000.0), d(40_000.5), d(40_000.0)];
    assert_eq!(Peaks::within_range(&near, &dists, d(40_000.0)), vec![4, 9]);
    let dists = vec![d(f64::NAN), d(f64::INFINITY), d(0.0)];
    assert_eq!(Peaks::within_range(&near, &dists, d(40_000.0)), vec![9]);
}

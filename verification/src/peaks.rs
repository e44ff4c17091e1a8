//! Database of British & Irish Hills: load the table of summits and query it.
//!
//! Summits are held in memory with an R-tree over longitude and latitude. The
//! tree holds ordering keys of the coordinates, which order as the coordinates
//! themselves do.

use vstd::prelude::*;
use vstd::multiset::Multiset;
use crate::ieee::Double;
use crate::text::{contains_piece, same_text, trim};

verus! {

#[verifier::external_type_specification]
#[verifier::external_body]
pub struct ExCsvError(csv::Error);

/// The columns that the table has to have.
#[derive(Debug, Clone, Copy, PartialEq, Eq, Structural)]
pub enum Column {
    Name,
    Latitude,
    Longitude,
    Metres,
    Drop,
    Classification,
}

/// Why the table of summits cannot be loaded.
#[derive(Debug)]
pub enum PeaksError {
    Csv(csv::Error),
    /// The table lacks an expected column.
    MissingColumn(Column),
}

/// One summit.
#[derive(Debug)]
pub struct Peak {
    pub name: String,
    pub lat: Double,
    pub lon: Double,
    /// Summit height in metres.
    pub height_m: Double,
    /// Prominence ("drop") in metres — the key importance filter.
    pub prominence_m: Double,
    /// Classification codes (e.g. contains "W" for Wainwrights).
    pub classification: String,
}

impl Peak {
    /// True if this hill carries classification code `code` (e.g. "W"): one of
    /// the comma-separated codes, white space aside.
    pub fn has_class(&self, code: &str) -> (r: bool)
        ensures
            r == crate::text::has_piece(self.classification@, ',', code@),
    {
        contains_piece(self.classification.as_str(), ',', code)
    }
}

/// The header row that `csv::Reader::headers` reads; `None` where it fails.
pub uninterp spec fn csv_headers(table: Seq<u8>) -> Option<Seq<Seq<char>>>;

/// The records that `csv::Reader::records` reads from a flexible table; `None`
/// where one of them fails.
pub uninterp spec fn csv_records(table: Seq<u8>) -> Option<Seq<Seq<Seq<char>>>>;

pub open spec fn record_views(records: Seq<Vec<String>>) -> Seq<Seq<Seq<char>>> {
    records.map_values(|r: Vec<String>| crate::text::string_views(r@))
}

/// `csv::Reader::headers` on a table in memory. The header row is a function of
/// the bytes alone; it is named, not stated.
#[verifier::external_body]
fn read_headers(table: &[u8]) -> (r: Result<Vec<String>, csv::Error>)
    ensures
        match csv_headers(table@) {
            Some(h) => r matches Ok(v) && crate::text::string_views(v@) == h,
            None => r is Err,
        },
{
    let mut reader = csv::ReaderBuilder::new().flexible(true).from_reader(table);
    let headers = reader.headers()?;
    Ok(headers.iter().map(|h| h.to_string()).collect())
}

/// `csv::Reader::records` on a table in memory whose rows may differ in length.
/// The records are a function of the bytes alone; they are named, not stated.
#[verifier::external_body]
fn read_records(table: &[u8]) -> (r: Result<Vec<Vec<String>>, csv::Error>)
    ensures
        match csv_records(table@) {
            Some(h) => r matches Ok(v) && record_views(v@) == h,
            None => r is Err,
        },
{
    let mut reader = csv::ReaderBuilder::new().flexible(true).from_reader(table);
    reader.records().map(|r| r.map(|r| r.iter().map(|f| f.to_string()).collect())).collect()
}

/// The first position of `name` among the headers, counting from `from`.
pub open spec fn position(headers: Seq<Seq<char>>, name: Seq<char>, from: int) -> Option<int>
    decreases headers.len() - from,
{
    if from >= headers.len() {
        None
    } else if headers[from] == name {
        Some(from)
    } else {
        position(headers, name, from + 1)
    }
}

fn find_column(headers: &Vec<String>, name: &str) -> (r: Option<usize>)
    ensures
        match position(crate::text::string_views(headers@), name@, 0) {
            Some(i) => r == Some(i as usize) && 0 <= i < headers.len(),
            None => r is None,
        },
{
    let ghost views = crate::text::string_views(headers@);
    let mut i: usize = 0;
    while i < headers.len()
        invariant
            i <= headers.len(),
            views == crate::text::string_views(headers@),
            position(views, name@, i as int) == position(views, name@, 0),
        decreases headers.len() - i,
    {
        proof {
            assert(views[i as int] == headers@[i as int]@);
        }
        if same_text(headers[i].as_str(), name) {
            return Some(i);
        }
        i = i + 1;
    }
    None
}

/// Where the columns stand.
#[derive(Debug, Clone, Copy, PartialEq, Eq, Structural)]
pub struct Columns {
    pub name: usize,
    pub lat: usize,
    pub lon: usize,
    pub height: usize,
    pub drop: usize,
    pub class: usize,
}

/// Where the columns stand in a header row, or the first that is missing.
pub open spec fn columns_in(headers: Seq<Seq<char>>) -> Result<Columns, Column> {
    match (
        position(headers, "Name"@, 0),
        position(headers, "Latitude"@, 0),
        position(headers, "Longitude"@, 0),
        position(headers, "Metres"@, 0),
        position(headers, "Drop"@, 0),
        position(headers, "Classification"@, 0),
    ) {
        (None, _, _, _, _, _) => Err(Column::Name),
        (Some(_), None, _, _, _, _) => Err(Column::Latitude),
        (Some(_), Some(_), None, _, _, _) => Err(Column::Longitude),
        (Some(_), Some(_), Some(_), None, _, _) => Err(Column::Metres),
        (Some(_), Some(_), Some(_), Some(_), None, _) => Err(Column::Drop),
        (Some(_), Some(_), Some(_), Some(_), Some(_), None) => Err(Column::Classification),
        (Some(name), Some(lat), Some(lon), Some(height), Some(drop), Some(class)) => Ok(
            Columns {
                name: name as usize,
                lat: lat as usize,
                lon: lon as usize,
                height: height as usize,
                drop: drop as usize,
                class: class as usize,
            },
        ),
    }
}

/// Find the columns by their header names.
pub fn find_columns(headers: &Vec<String>) -> (r: Result<Columns, Column>)
    ensures
        r == columns_in(crate::text::string_views(headers@)),
{
    let name = match find_column(headers, "Name") {
        None => return Err(Column::Name),
        Some(i) => i,
    };
    let lat = match find_column(headers, "Latitude") {
        None => return Err(Column::Latitude),
        Some(i) => i,
    };
    let lon = match find_column(headers, "Longitude") {
        None => return Err(Column::Longitude),
        Some(i) => i,
    };
    let height = match find_column(headers, "Metres") {
        None => return Err(Column::Metres),
        Some(i) => i,
    };
    let drop = match find_column(headers, "Drop") {
        None => return Err(Column::Drop),
        Some(i) => i,
    };
    let class = match find_column(headers, "Classification") {
        None => return Err(Column::Classification),
        Some(i) => i,
    };
    Ok(Columns { name, lat, lon, height, drop, class })
}

/// A row's fields, trimmed.
#[derive(Debug)]
pub struct PeakText {
    pub name: String,
    pub lat: String,
    pub lon: String,
    pub height: String,
    pub drop: String,
    pub class: String,
}

/// A record's field at a column, trimmed; empty where the record is too short.
pub open spec fn field(record: Seq<Seq<char>>, at: usize) -> Seq<char> {
    if at < record.len() {
        crate::text::trimmed(record[at as int])
    } else {
        Seq::empty()
    }
}

/// `t` holds the fields of a record.
pub open spec fn reads(t: PeakText, record: Seq<Seq<char>>, c: Columns) -> bool {
    &&& t.name@ == field(record, c.name)
    &&& t.lat@ == field(record, c.lat)
    &&& t.lon@ == field(record, c.lon)
    &&& t.height@ == field(record, c.height)
    &&& t.drop@ == field(record, c.drop)
    &&& t.class@ == field(record, c.class)
}

fn get_field(record: &Vec<String>, at: usize) -> (r: String)
    ensures
        r@ == field(crate::text::string_views(record@), at),
{
    if at < record.len() {
        proof {
            assert(crate::text::string_views(record@)[at as int] == record@[at as int]@);
        }
        trim(record[at].as_str())
    } else {
        let s = String::new();
        proof {
            assert(s@ =~= Seq::empty());
        }
        s
    }
}

/// Take the fields out of the records.
pub fn extract_rows(records: &Vec<Vec<String>>, c: Columns) -> (rows: Vec<PeakText>)
    ensures
        rows.len() == records.len(),
        forall|i: int|
            0 <= i < rows.len() ==> reads(#[trigger] rows@[i], crate::text::string_views(records@[i]@), c),
{
    let mut rows: Vec<PeakText> = Vec::new();
    let mut i: usize = 0;
    while i < records.len()
        invariant
            i <= records.len(),
            rows.len() == i,
            forall|k: int|
                0 <= k < i ==> reads(#[trigger] rows@[k], crate::text::string_views(records@[k]@), c),
        decreases records.len() - i,
    {
        let r = &records[i];
        rows.push(
            PeakText {
                name: get_field(r, c.name),
                lat: get_field(r, c.lat),
                lon: get_field(r, c.lon),
                height: get_field(r, c.height),
                drop: get_field(r, c.drop),
                class: get_field(r, c.class),
            },
        );
        i = i + 1;
    }
    rows
}

/// Load the rows of a table of summits (columns accessed by header name).
pub fn load_csv(table: &[u8]) -> (r: Result<Vec<PeakText>, PeaksError>)
    ensures
        match csv_headers(table@) {
            None => r matches Err(PeaksError::Csv(_)),
            Some(headers) => match columns_in(headers) {
                Err(c) => r matches Err(PeaksError::MissingColumn(m)) && m == c,
                Ok(c) => match csv_records(table@) {
                    None => r matches Err(PeaksError::Csv(_)),
                    Some(records) => {
                        &&& r matches Ok(rows)
                        &&& rows.len() == records.len()
                        &&& forall|i: int|
                            0 <= i < rows.len() ==> reads(#[trigger] rows@[i], records[i], c)
                    },
                },
            },
        },
{
    let headers = match read_headers(table) {
        Ok(h) => h,
        Err(e) => return Err(PeaksError::Csv(e)),
    };
    let c = match find_columns(&headers) {
        Ok(c) => c,
        Err(m) => return Err(PeaksError::MissingColumn(m)),
    };
    let records = match read_records(table) {
        Ok(v) => v,
        Err(e) => return Err(PeaksError::Csv(e)),
    };
    let rows = extract_rows(&records, c);
    proof {
        assert forall|i: int| 0 <= i < rows.len() implies reads(
            #[trigger] rows@[i],
            record_views(records@)[i],
            c,
        ) by {
            assert(record_views(records@)[i] == crate::text::string_views(records@[i]@));
        }
    }
    Ok(rows)
}

/// The numbers that a row's fields spell, where they are numbers.
#[derive(Debug, Clone, Copy)]
pub struct PeakNumbers {
    pub lat: Option<Double>,
    pub lon: Option<Double>,
    pub height: Option<Double>,
    pub drop: Option<Double>,
}

/// A summit in the tree: its longitude and latitude keys and its position in the
/// table.
pub type Pin = (i64, i64, usize);

/// An R-tree of summits.
#[verifier::external_body]
pub struct PeakTree {
    tree: rstar::RTree<rstar::primitives::GeomWithData<[i64; 2], usize>>,
}

/// The pins that an R-tree holds.
pub uninterp spec fn tree_pins(tree: PeakTree) -> Multiset<Pin>;

/// A key between two others, whichever of them is the larger.
pub open spec fn between(k: i64, a: i64, b: i64) -> bool {
    a <= k <= b || b <= k <= a
}

/// The pin stands in the box between two corners, edges included.
pub open spec fn in_box(p: Pin, a: (i64, i64), b: (i64, i64)) -> bool {
    between(p.0, a.0, b.0) && between(p.1, a.1, b.1)
}

/// `rstar::RTree::bulk_load`: the tree holds the pins it was built from, and no
/// others.
#[verifier::external_body]
fn plant(pins: Vec<Pin>) -> (t: PeakTree)
    ensures
        tree_pins(t) == pins@.to_multiset(),
{
    PeakTree {
        tree: rstar::RTree::bulk_load(
            pins.into_iter().map(|p| rstar::primitives::GeomWithData::new([p.0, p.1], p.2)).collect(),
        ),
    }
}

/// `rstar::RTree::locate_in_envelope_intersecting` with the box that
/// `rstar::AABB::from_corners` spans between two corners: the tree's pins in that
/// box, each as often as the tree holds it, in an order that is left open.
#[verifier::external_body]
fn locate(t: &PeakTree, a: (i64, i64), b: (i64, i64)) -> (pins: Vec<Pin>)
    ensures
        pins@.to_multiset() == tree_pins(*t).filter(|p: Pin| in_box(p, a, b)),
{
    let area = rstar::AABB::from_corners([a.0, a.1], [b.0, b.1]);
    let found = t.tree.locate_in_envelope_intersecting(&area);
    found.map(|g| (g.geom()[0], g.geom()[1], g.data)).collect()
}

/// The summits, and the tree that finds them by position.
pub struct Peaks {
    peaks: Vec<Peak>,
    tree: PeakTree,
}

/// The pin of the summit at position `i`.
pub open spec fn pin_of(peaks: Seq<Peak>, i: int) -> Pin {
    (peaks[i].lon.key() as i64, peaks[i].lat.key() as i64, i as usize)
}

pub open spec fn pins_of(peaks: Seq<Peak>) -> Seq<Pin> {
    Seq::new(peaks.len(), |i: int| pin_of(peaks, i))
}

pub open spec fn or_zero(v: Option<Double>) -> Double {
    match v {
        Some(v) => v,
        None => Double { bits: 0 },
    }
}

/// `p` is the summit of a row.
pub open spec fn built_from(p: Peak, t: PeakText, n: PeakNumbers) -> bool {
    &&& p.name@ == t.name@
    &&& Some(p.lat) == n.lat
    &&& Some(p.lon) == n.lon
    &&& p.height_m == or_zero(n.height)
    &&& p.prominence_m == or_zero(n.drop)
    &&& p.classification@ == t.class@
}

/// The rows among the first `n` that have coordinates, in order.
pub open spec fn placed_rows(numbers: Seq<PeakNumbers>, n: int) -> Seq<int>
    decreases n,
{
    if n <= 0 {
        Seq::empty()
    } else if numbers[n - 1].lat is Some && numbers[n - 1].lon is Some {
        placed_rows(numbers, n - 1).push(n - 1)
    } else {
        placed_rows(numbers, n - 1)
    }
}

impl Peaks {
    pub closed spec fn list(self) -> Seq<Peak> {
        self.peaks@
    }

    /// The tree holds exactly the summits' pins.
    pub closed spec fn valid(self) -> bool {
        tree_pins(self.tree) == pins_of(self.peaks@).to_multiset()
    }

    pub fn len(&self) -> (n: usize)
        ensures
            n == self.list().len(),
    {
        self.peaks.len()
    }

    pub fn is_empty(&self) -> (r: bool)
        ensures
            r == (self.list().len() == 0),
    {
        self.peaks.len() == 0
    }

    /// No summits at all.
    pub fn empty() -> (p: Peaks)
        ensures
            p.valid(),
            p.list() == Seq::<Peak>::empty(),
    {
        let peaks: Vec<Peak> = Vec::new();
        let pins: Vec<Pin> = Vec::new();
        proof {
            assert(pins@ =~= pins_of(peaks@));
        }
        Peaks { peaks, tree: plant(pins) }
    }

    /// The summit at position `i`.
    pub fn peak(&self, i: usize) -> (p: &Peak)
        requires
            i < self.list().len(),
        ensures
            *p == self.list()[i as int],
    {
        &self.peaks[i]
    }

    /// Build the table from its rows and the numbers they spell. Rows without
    /// coordinates are skipped; a height or drop that is no number is zero.
    pub fn from_rows(rows: &Vec<PeakText>, numbers: &Vec<PeakNumbers>) -> (p: Peaks)
        requires
            rows.len() == numbers.len(),
        ensures
            p.valid(),
            ({
                let placed = placed_rows(numbers@, numbers.len() as int);
                &&& p.list().len() == placed.len()
                &&& forall|k: int|
                    0 <= k < placed.len() ==> built_from(
                        #[trigger] p.list()[k],
                        rows@[placed[k]],
                        numbers@[placed[k]],
                    )
            }),
    {
        let mut peaks: Vec<Peak> = Vec::new();
        let mut pins: Vec<Pin> = Vec::new();
        let mut i: usize = 0;
        proof {
            assert(pins@ =~= pins_of(peaks@));
        }
        while i < rows.len()
            invariant
                rows.len() == numbers.len(),
                i <= rows.len(),
                peaks.len() == placed_rows(numbers@, i as int).len(),
                forall|k: int|
                    0 <= k < peaks.len() ==> built_from(
                        #[trigger] peaks@[k],
                        rows@[placed_rows(numbers@, i as int)[k]],
                        numbers@[placed_rows(numbers@, i as int)[k]],
                    ),
                pins@ == pins_of(peaks@),
            decreases rows.len() - i,
        {
            let t = &rows[i];
            let n = numbers[i];
            if let (Some(lat), Some(lon)) = (n.lat, n.lon) {
                let height_m = match n.height {
                    Some(v) => v,
                    None => Double { bits: 0 },
                };
                let prominence_m = match n.drop {
                    Some(v) => v,
                    None => Double { bits: 0 },
                };
                let ghost before = peaks@;
                pins.push((lon.order_key(), lat.order_key(), peaks.len()));
                peaks.push(
                    Peak {
                        name: t.name.clone(),
                        lat,
                        lon,
                        height_m,
                        prominence_m,
                        classification: t.class.clone(),
                    },
                );
                proof {
                    assert forall|k: int| 0 <= k < before.len() implies pin_of(before, k) == #[trigger] pins@[k] by {
                        assert(pins_of(before)[k] == pins@[k]);
                    }
                    assert(pins@ =~= pins_of(peaks@));
                }
            }
            i = i + 1;
        }
        Peaks { peaks, tree: plant(pins) }
    }

    /// The positions of the peaks whose (lon, lat) falls inside the bounding box,
    /// edges included.
    pub fn in_bbox(&self, min_lon: Double, min_lat: Double, max_lon: Double, max_lat: Double) -> (r:
        Vec<usize>)
        requires
            self.valid(),
        ensures
            r@.no_duplicates(),
            forall|i: usize| #[trigger]
                r@.contains(i) <==> i < self.list().len() && boxed(
                    self.list()[i as int],
                    min_lon,
                    min_lat,
                    max_lon,
                    max_lat,
                ),
    {
        if max_lon.is_nan() || max_lat.is_nan() {
            return Vec::new();
        }
        let west = if min_lon.is_nan() {
            max_lon
        } else {
            min_lon
        };
        let south = if min_lat.is_nan() {
            max_lat
        } else {
            min_lat
        };
        let a: (i64, i64) = (west.order_key(), south.order_key());
        let b: (i64, i64) = (max_lon.order_key(), max_lat.order_key());
        let pins = locate(&self.tree, a, b);
        let mut r: Vec<usize> = Vec::new();
        let mut i: usize = 0;
        while i < pins.len()
            invariant
                i <= pins.len(),
                r.len() == i,
                forall|k: int| 0 <= k < i ==> #[trigger] r@[k] == pins@[k].2,
            decreases pins.len() - i,
        {
            r.push(pins[i].2);
            i = i + 1;
        }
        proof {
            let all = pins_of(self.peaks@);
            assert(all.len() == self.peaks.len());
            lemma_located(all, pins@, a, b);
            assert forall|k: usize| #[trigger] r@.contains(k) <==> k < self.peaks.len() && in_box(
                all[k as int],
                a,
                b,
            ) by {
                if r@.contains(k) {
                    let j = choose|j: int| 0 <= j < r.len() && r@[j] == k;
                    assert(pins@.contains(pins@[j]));
                }
                if k < self.peaks.len() && in_box(all[k as int], a, b) {
                    assert(pins@.contains(all[k as int]));
                    let j = choose|j: int| 0 <= j < pins.len() && pins@[j] == all[k as int];
                    assert(r@[j] == k);
                }
            }
            assert forall|x: int, y: int| 0 <= x < r.len() && 0 <= y < r.len() && x != y implies r@[x] != r@[y] by {
                assert(pins@.contains(pins@[x]) && pins@.contains(pins@[y]));
            }
        }
        r
    }

    /// Of the summits at these positions, those whose distance is within range.
    pub fn within_range(near: &Vec<usize>, dists: &Vec<Double>, range_m: Double) -> (r: Vec<usize>)
        requires
            near.len() == dists.len(),
        ensures
            r@ == in_range(near@, dists@, range_m),
    {
        let mut r: Vec<usize> = Vec::new();
        let mut i: usize = 0;
        while i < near.len()
            invariant
                near.len() == dists.len(),
                i <= near.len(),
                r@ == in_range(near@.take(i as int), dists@.take(i as int), range_m),
            decreases near.len() - i,
        {
            proof {
                assert(near@.take(i as int + 1).drop_last() =~= near@.take(i as int));
                assert(dists@.take(i as int + 1).drop_last() =~= dists@.take(i as int));
            }
            if dists[i].le(range_m) {
                r.push(near[i]);
            }
            i = i + 1;
        }
        proof {
            assert(near@.take(i as int) =~= near@);
            assert(dists@.take(i as int) =~= dists@);
        }
        r
    }
}

/// The positions whose distance is at most `range_m`, in order.
pub open spec fn in_range(near: Seq<usize>, dists: Seq<Double>, range_m: Double) -> Seq<usize>
    decreases near.len(),
{
    if near.len() == 0 {
        Seq::empty()
    } else {
        let before = in_range(near.drop_last(), dists.drop_last(), range_m);
        if dists.last().at_most(range_m) {
            before.push(near.last())
        } else {
            before
        }
    }
}

/// A number between two others, whichever of them is the larger. Where the first
/// is NaN the second stands for both; where the second is NaN nothing is between.
pub open spec fn spanned(v: Double, a: Double, b: Double) -> bool {
    if b.nan() {
        false
    } else if a.nan() {
        v.key() == b.key()
    } else {
        a.key() <= v.key() <= b.key() || b.key() <= v.key() <= a.key()
    }
}

/// The summit's position lies in the box between two corners, edges included.
pub open spec fn boxed(
    p: Peak,
    min_lon: Double,
    min_lat: Double,
    max_lon: Double,
    max_lat: Double,
) -> bool {
    spanned(p.lon, min_lon, max_lon) && spanned(p.lat, min_lat, max_lat)
}

/// A summit whose position is no number is in no box.
pub proof fn nowhere_is_in_no_box(
    p: Peak,
    min_lon: Double,
    min_lat: Double,
    max_lon: Double,
    max_lat: Double,
)
    requires
        p.lon.nan() || p.lat.nan(),
    ensures
        !boxed(p, min_lon, min_lat, max_lon, max_lat),
{
}

proof fn lemma_located(all: Seq<Pin>, found: Seq<Pin>, a: (i64, i64), b: (i64, i64))
    requires
        all.len() <= usize::MAX,
        forall|i: int| 0 <= i < all.len() ==> (#[trigger] all[i]).2 == i,
        found.to_multiset() == all.to_multiset().filter(|p: Pin| in_box(p, a, b)),
    ensures
        found.no_duplicates(),
        forall|p: Pin| #[trigger] found.contains(p) <==> all.contains(p) && in_box(p, a, b),
        forall|p: Pin| #[trigger] found.contains(p) ==> p.2 < all.len() && p == all[p.2 as int],
        forall|i: int| 0 <= i < all.len() && in_box(#[trigger] all[i], a, b) ==> found.contains(all[i]),
        forall|x: int, y: int|
            #![trigger found[x], found[y]]
            0 <= x < found.len() && 0 <= y < found.len() && x != y ==> found[x].2 != found[y].2,
{
    broadcast use vstd::multiset::group_multiset_axioms;

    let keep = |p: Pin| in_box(p, a, b);
    assert(all.no_duplicates());
    all.lemma_multiset_has_no_duplicates();
    assert forall|p: Pin| #[trigger] found.contains(p) <==> all.contains(p) && in_box(p, a, b) by {
        vstd::seq_lib::to_multiset_contains(found, p);
        vstd::seq_lib::to_multiset_contains(all, p);
        assert(all.to_multiset().filter(keep).count(p) == if keep(p) {
            all.to_multiset().count(p)
        } else {
            0
        });
    }
    assert forall|p: Pin| #[trigger] found.contains(p) implies p.2 < all.len() && p == all[p.2 as int] by {
        assert(all.contains(p));
        let i = choose|i: int| 0 <= i < all.len() && all[i] == p;
    }
    assert forall|p: Pin| found.to_multiset().contains(p) implies found.to_multiset().count(p) == 1 by {
        assert(all.to_multiset().filter(keep).count(p) == if keep(p) {
            all.to_multiset().count(p)
        } else {
            0
        });
        assert(all.to_multiset().contains(p));
    }
    found.lemma_multiset_has_no_duplicates_conv();
    assert forall|x: int, y: int|
        #![trigger found[x], found[y]]
        0 <= x < found.len() && 0 <= y < found.len() && x != y implies found[x].2 != found[y].2 by {
        assert(found.contains(found[x]) && found.contains(found[y]));
    }
    assert forall|i: int| 0 <= i < all.len() && in_box(#[trigger] all[i], a, b) implies found.contains(all[i]) by {
        assert(all.contains(all[i]));
    }
}

/// A column is the first header of its name; it is missing exactly where no header has
/// the name.
pub proof fn column_is_the_first_of_its_name(headers: Seq<Seq<char>>, name: Seq<char>, from: int)
    requires
        0 <= from,
    ensures
        position(headers, name, from) matches Some(i) ==> {
            &&& from <= i < headers.len()
            &&& headers[i] == name
            &&& forall|j: int| from <= j < i ==> #[trigger] headers[j] != name
        },
        position(headers, name, from) is None <==> forall|j: int|
            from <= j < headers.len() ==> #[trigger] headers[j] != name,
    decreases headers.len() - from,
{
    if from < headers.len() {
        column_is_the_first_of_its_name(headers, name, from + 1);
        if headers[from] == name {
            assert(position(headers, name, from) == Some(from));
        }
    }
}

/// Every column is found under its own name; the table is refused exactly where one of
/// the six is missing.
pub proof fn columns_are_found_by_name(headers: Seq<Seq<char>>)
    requires
        headers.len() <= usize::MAX,
    ensures
        columns_in(headers) matches Ok(c) ==> {
            &&& c.name < headers.len() && headers[c.name as int] == "Name"@
            &&& c.lat < headers.len() && headers[c.lat as int] == "Latitude"@
            &&& c.lon < headers.len() && headers[c.lon as int] == "Longitude"@
            &&& c.height < headers.len() && headers[c.height as int] == "Metres"@
            &&& c.drop < headers.len() && headers[c.drop as int] == "Drop"@
            &&& c.class < headers.len() && headers[c.class as int] == "Classification"@
        },
        columns_in(headers) is Ok <==> {
            &&& headers.contains("Name"@) && headers.contains("Latitude"@)
            &&& headers.contains("Longitude"@) && headers.contains("Metres"@)
            &&& headers.contains("Drop"@) && headers.contains("Classification"@)
        },
        columns_in(headers) matches Err(m) ==> !headers.contains(title(m)),
{
    column_is_the_first_of_its_name(headers, "Name"@, 0);
    column_is_the_first_of_its_name(headers, "Latitude"@, 0);
    column_is_the_first_of_its_name(headers, "Longitude"@, 0);
    column_is_the_first_of_its_name(headers, "Metres"@, 0);
    column_is_the_first_of_its_name(headers, "Drop"@, 0);
    column_is_the_first_of_its_name(headers, "Classification"@, 0);
}

/// The name of a column in the header row.
pub open spec fn title(c: Column) -> Seq<char> {
    match c {
        Column::Name => "Name"@,
        Column::Latitude => "Latitude"@,
        Column::Longitude => "Longitude"@,
        Column::Metres => "Metres"@,
        Column::Drop => "Drop"@,
        Column::Classification => "Classification"@,
    }
}

/// A field is its column's text without the white space around it; a record that is too
/// short has an empty one.
pub proof fn short_records_have_empty_fields(record: Seq<Seq<char>>, at: usize)
    ensures
        at >= record.len() ==> field(record, at).len() == 0,
        at < record.len() ==> field(record, at) == crate::text::trimmed(record[at as int]),
{
}

/// Exactly the rows with both coordinates become summits, each once and in order.
pub proof fn placed_rows_have_coordinates(numbers: Seq<PeakNumbers>, n: int)
    requires
        0 <= n <= numbers.len(),
    ensures
        forall|i: int| #[trigger]
            placed_rows(numbers, n).contains(i) <==> 0 <= i < n && numbers[i].lat is Some
                && numbers[i].lon is Some,
        forall|a: int, b: int|
            0 <= a < b < placed_rows(numbers, n).len() ==> #[trigger] placed_rows(numbers, n)[a]
                < #[trigger] placed_rows(numbers, n)[b],
    decreases n,
{
    if n > 0 {
        placed_rows_have_coordinates(numbers, n - 1);
        let (u, v) = (placed_rows(numbers, n - 1), placed_rows(numbers, n));
        assert forall|i: int| #[trigger] v.contains(i) <==> 0 <= i < n && numbers[i].lat is Some
            && numbers[i].lon is Some by {
            if v.contains(i) {
                let k = choose|k: int| 0 <= k < v.len() && v[k] == i;
                if k < u.len() {
                    assert(u[k] == i && u.contains(i));
                }
            }
            if 0 <= i < n && numbers[i].lat is Some && numbers[i].lon is Some {
                if i < n - 1 {
                    assert(u.contains(i));
                    let k = choose|k: int| 0 <= k < u.len() && u[k] == i;
                    assert(v[k] == i);
                } else {
                    assert(v[u.len() as int] == i);
                }
            }
        }
        assert forall|a: int, b: int| 0 <= a < b < v.len() implies #[trigger] v[a]
            < #[trigger] v[b] by {
            assert(v[a] == u[a] && u.contains(u[a]));
            if b < u.len() {
                assert(v[b] == u[b]);
            }
        }
    }
}

/// A height or a drop that is no number counts as zero, and any other as itself.
pub proof fn missing_numbers_are_zero(v: Double)
    ensures
        or_zero(None) == (Double { bits: 0 }),
        or_zero(Some(v)) == v,
{
}

/// A summit is in range exactly where its distance is at most the range; those in range
/// keep their order.
pub proof fn range_includes_its_edge(near: Seq<usize>, dists: Seq<Double>, range_m: Double)
    requires
        near.len() == dists.len(),
        near.no_duplicates(),
    ensures
        forall|i: int|
            0 <= i < near.len() ==> (in_range(near, dists, range_m).contains(#[trigger] near[i])
                <==> dists[i].at_most(range_m)),
        forall|x: usize| in_range(near, dists, range_m).contains(x) ==> #[trigger] near.contains(x),
        forall|i: int, j: int, a: int, b: int|
            0 <= a < b < in_range(near, dists, range_m).len() && 0 <= i < near.len() && 0 <= j
                < near.len() && #[trigger] near[i] == #[trigger] in_range(near, dists, range_m)[a]
                && #[trigger] near[j] == #[trigger] in_range(near, dists, range_m)[b] ==> i < j,
    decreases near.len(),
{
    if near.len() > 0 {
        let (n, d) = (near.drop_last(), dists.drop_last());
        let last = near.len() - 1;
        range_includes_its_edge(n, d, range_m);
        let (u, v) = (in_range(n, d, range_m), in_range(near, dists, range_m));
        assert forall|x: usize| v.contains(x) implies #[trigger] near.contains(x) by {
            let k = choose|k: int| 0 <= k < v.len() && v[k] == x;
            if k < u.len() {
                assert(u[k] == x && u.contains(x));
                assert(n.contains(x));
                let i = choose|i: int| 0 <= i < n.len() && n[i] == x;
                assert(near[i] == x);
            } else {
                assert(near[last] == x);
            }
        }
        assert forall|i: int| 0 <= i < near.len() implies (v.contains(#[trigger] near[i])
            <==> dists[i].at_most(range_m)) by {
            if i < last {
                assert(n[i] == near[i] && d[i] == dists[i]);
                if u.contains(near[i]) {
                    let k = choose|k: int| 0 <= k < u.len() && u[k] == near[i];
                    assert(v[k] == near[i]);
                }
                if v.contains(near[i]) {
                    let k = choose|k: int| 0 <= k < v.len() && v[k] == near[i];
                    if k < u.len() {
                        assert(u[k] == near[i]);
                    } else {
                        assert(near[last] == near[i]);
                    }
                }
            } else {
                if dists[i].at_most(range_m) {
                    assert(v[u.len() as int] == near[i]);
                } else if v.contains(near[i]) {
                    assert(u.contains(near[i]));
                    assert(n.contains(near[i]));
                    let j = choose|j: int| 0 <= j < n.len() && n[j] == near[i];
                    assert(near[j] == near[i]);
                }
            }
        }
        assert forall|i: int, j: int, a: int, b: int|
            0 <= a < b < v.len() && 0 <= i < near.len() && 0 <= j < near.len() && #[trigger] near[i]
                == #[trigger] v[a] && #[trigger] near[j] == #[trigger] v[b] implies i < j by {
            assert(u[a] == v[a] && u.contains(u[a]));
            assert(n.contains(u[a]));
            let x = choose|x: int| 0 <= x < n.len() && n[x] == u[a];
            assert(near[x] == near[i]);
            assert(i == x);
            assert(n[i] == u[a]);
            if b < u.len() {
                assert(u[b] == v[b] && u.contains(u[b]));
                assert(n.contains(u[b]));
                let y = choose|y: int| 0 <= y < n.len() && n[y] == u[b];
                assert(near[y] == near[j]);
                assert(n[j] == u[b]);
            } else {
                assert(near[last] == near[j]);
            }
        }
    }
}

/// With numbers for corners, a summit is in the box exactly where both its coordinates
/// lie between those of the corners, edges included, whichever way round they are given.
pub proof fn boxes_span_their_corners(
    p: Peak,
    min_lon: Double,
    min_lat: Double,
    max_lon: Double,
    max_lat: Double,
)
    requires
        !min_lon.nan() && !min_lat.nan() && !max_lon.nan() && !max_lat.nan(),
    ensures
        boxed(p, min_lon, min_lat, max_lon, max_lat) == boxed(p, max_lon, max_lat, min_lon, min_lat),
        min_lon.at_most(max_lon) && min_lat.at_most(max_lat) && !p.lon.nan() && !p.lat.nan()
            ==> boxed(p, min_lon, min_lat, max_lon, max_lat) == {
            &&& min_lon.at_most(p.lon) && p.lon.at_most(max_lon)
            &&& min_lat.at_most(p.lat) && p.lat.at_most(max_lat)
        },
{
}

/// A hill carries a code exactly if its classification is that code, or has it between commas,
/// white space aside.
pub proof fn codes_stand_between_commas(p: &Peak, code: &str, r: bool)
    requires
        call_ensures(Peak::has_class, (p, code), r),
    ensures
        r == crate::text::has_piece(p.classification@, ',', code@),
        (forall|i: int| 0 <= i < p.classification@.len() ==> #[trigger] p.classification@[i] != ',')
            ==> (r <==> crate::text::trimmed(p.classification@) == code@),
{
    if forall|i: int| 0 <= i < p.classification@.len() ==> #[trigger] p.classification@[i] != ',' {
        crate::text::text_without_separator_is_one_piece(p.classification@, ',', code@);
    }
}

/// Every row with coordinates becomes a summit with its own name, place, height, prominence
/// and classification.
pub proof fn rows_become_their_own_summits(
    rows: &Vec<PeakText>,
    numbers: &Vec<PeakNumbers>,
    p: Peaks,
    i: int,
)
    requires
        rows.len() == numbers.len(),
        call_ensures(Peaks::from_rows, (rows, numbers), p),
        0 <= i < rows.len(),
        numbers@[i].lat is Some,
        numbers@[i].lon is Some,
    ensures
        exists|k: int|
            0 <= k < p.list().len() && {
                let s = #[trigger] p.list()[k];
                &&& s.name@ == rows@[i].name@ && s.classification@ == rows@[i].class@
                &&& Some(s.lat) == numbers@[i].lat && Some(s.lon) == numbers@[i].lon
                &&& numbers@[i].height matches Some(h) ==> s.height_m == h
                &&& numbers@[i].height is None ==> s.height_m == (Double { bits: 0 })
                &&& numbers@[i].drop matches Some(d) ==> s.prominence_m == d
                &&& numbers@[i].drop is None ==> s.prominence_m == (Double { bits: 0 })
            },
{
    let n = numbers.len() as int;
    let placed = placed_rows(numbers@, n);
    placed_rows_have_coordinates(numbers@, n);
    assert(placed.contains(i));
    let k = choose|k: int| 0 <= k < placed.len() && placed[k] == i;
    assert(built_from(p.list()[k], rows@[placed[k]], numbers@[placed[k]]));
}

/// A box finds each summit inside it once: by numbers, those between its corners, edges
/// included.
pub proof fn boxes_find_the_summits_inside(
    p: &Peaks,
    min_lon: Double,
    min_lat: Double,
    max_lon: Double,
    max_lat: Double,
    r: Vec<usize>,
    i: usize,
)
    requires
        p.valid(),
        call_ensures(Peaks::in_bbox, (p, min_lon, min_lat, max_lon, max_lat), r),
        i < p.list().len(),
        min_lon.at_most(max_lon),
        min_lat.at_most(max_lat),
    ensures
        r@.no_duplicates(),
        r@.contains(i) <==> {
            let s = p.list()[i as int];
            &&& min_lon.at_most(s.lon) && s.lon.at_most(max_lon)
            &&& min_lat.at_most(s.lat) && s.lat.at_most(max_lat)
        },
{
    let s = p.list()[i as int];
    assert(r@.contains(i) <==> boxed(s, min_lon, min_lat, max_lon, max_lat));
    if s.lon.nan() || s.lat.nan() {
        nowhere_is_in_no_box(s, min_lon, min_lat, max_lon, max_lat);
    } else {
        boxes_span_their_corners(s, min_lon, min_lat, max_lon, max_lat);
    }
}

/// Rows are taken out of the records in order, each field from its own column and trimmed; a
/// record that is too short leaves the field empty.
pub proof fn fields_come_from_their_columns(
    records: &Vec<Vec<String>>,
    c: Columns,
    rows: Vec<PeakText>,
    i: int,
)
    requires
        call_ensures(extract_rows, (records, c), rows),
        0 <= i < records.len(),
    ensures
        rows.len() == records.len(),
        ({
            let n = records@[i].len();
            let at = |k: usize| crate::text::trimmed(records@[i]@[k as int]@);
            let row = rows@[i];
            &&& c.name < n ==> row.name@ == at(c.name)
            &&& c.lat < n ==> row.lat@ == at(c.lat)
            &&& c.lon < n ==> row.lon@ == at(c.lon)
            &&& c.height < n ==> row.height@ == at(c.height)
            &&& c.drop < n ==> row.drop@ == at(c.drop)
            &&& c.class < n ==> row.class@ == at(c.class)
            &&& c.name >= n ==> row.name@.len() == 0
            &&& c.lat >= n ==> row.lat@.len() == 0
            &&& c.lon >= n ==> row.lon@.len() == 0
            &&& c.height >= n ==> row.height@.len() == 0
            &&& c.drop >= n ==> row.drop@.len() == 0
            &&& c.class >= n ==> row.class@.len() == 0
        }),
{
    let views = crate::text::string_views(records@[i]@);
    assert(forall|k: int| 0 <= k < views.len() ==> #[trigger] views[k] == records@[i]@[k]@);
    assert(reads(rows@[i], views, c));
}

/// Of the summits at these positions those within range stay, in order.
pub proof fn summits_within_range_stay(
    near: &Vec<usize>,
    dists: &Vec<Double>,
    range_m: Double,
    r: Vec<usize>,
    i: int,
)
    requires
        near.len() == dists.len(),
        near@.no_duplicates(),
        call_ensures(Peaks::within_range, (near, dists, range_m), r),
        0 <= i < near.len(),
    ensures
        r@.contains(near@[i]) <==> dists@[i].at_most(range_m),
{
    range_includes_its_edge(near@, dists@, range_m);
}

}

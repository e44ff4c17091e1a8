//! ESRI ASCII Grid (`.asc`) tiles as used by OS Terrain 50.
//!
//! A file opens with header lines of a key and a value; the first line with any
//! other key starts the grid, whitespace-separated heights laid out row-major
//! from the top row (highest northing) downward. The library finds the header's
//! fields and the grid's cells in the text; the numbers they spell come back as
//! values for it to check and assemble.

use vstd::prelude::*;
use crate::ieee::{Double, Single};
use crate::text::parse_unsigned;

verus! {

/// -9999.0, the height that stands for "missing" unless a header says otherwise.
pub const NODATA_BITS: u64 = 0xc0c3_8780_0000_0000;

/// A stretch of the text, from a byte offset up to another.
#[derive(Debug, Clone, Copy, PartialEq, Eq, Structural)]
pub struct Span {
    pub from: usize,
    pub to: usize,
}

/// ASCII white space.
pub open spec fn blank(b: u8) -> bool {
    b == 0x09 || b == 0x0a || b == 0x0c || b == 0x0d || b == 0x20
}

/// ASCII lower case.
pub open spec fn lower(b: u8) -> u8 {
    if 0x41 <= b <= 0x5a {
        (b + 0x20) as u8
    } else {
        b
    }
}

/// Where the white space at `at` ends.
pub open spec fn after_blanks(s: Seq<u8>, at: int, to: int) -> int
    decreases to - at,
{
    if at < to && blank(s[at]) {
        after_blanks(s, at + 1, to)
    } else {
        at
    }
}

/// Where the word at `at` ends.
pub open spec fn after_word(s: Seq<u8>, at: int, to: int) -> int
    decreases to - at,
{
    if at < to && !blank(s[at]) {
        after_word(s, at + 1, to)
    } else {
        at
    }
}

/// Where the line at `at` ends: at its line feed, or with the text.
pub open spec fn line_end(s: Seq<u8>, at: int) -> int
    decreases s.len() - at,
{
    if at < s.len() && s[at] != 0x0a {
        line_end(s, at + 1)
    } else {
        at
    }
}

proof fn lemma_scans(s: Seq<u8>, at: int, to: int)
    requires
        0 <= at <= to <= s.len(),
    ensures
        at <= after_blanks(s, at, to) <= to,
        at <= after_word(s, at, to) <= to,
    decreases to - at,
{
    if at < to {
        lemma_scans(s, at + 1, to);
    }
}

proof fn lemma_line_end(s: Seq<u8>, at: int)
    requires
        0 <= at <= s.len(),
    ensures
        at <= line_end(s, at) <= s.len(),
    decreases s.len() - at,
{
    if at < s.len() && s[at] != 0x0a {
        lemma_line_end(s, at + 1);
    }
}

/// The words of `s` between `at` and `to`.
pub open spec fn word_spans(s: Seq<u8>, at: int, to: int) -> Seq<Span>
    decreases to - at,
    when 0 <= at <= to <= s.len()
    via word_spans_decreases
{
    let a = after_blanks(s, at, to);
    if a >= to {
        Seq::empty()
    } else {
        let b = after_word(s, a, to);
        seq![Span { from: a as usize, to: b as usize }] + word_spans(s, b, to)
    }
}

#[via_fn]
proof fn word_spans_decreases(s: Seq<u8>, at: int, to: int) {
    lemma_scans(s, at, to);
    let a = after_blanks(s, at, to);
    if a < to {
        lemma_scans(s, a, to);
        lemma_blanks_end(s, at, to);
        lemma_scans(s, a + 1, to);
    }
}

proof fn lemma_blanks_end(s: Seq<u8>, at: int, to: int)
    requires
        0 <= at <= to <= s.len(),
    ensures
        after_blanks(s, at, to) < to ==> !blank(s[after_blanks(s, at, to)]),
    decreases to - at,
{
    if at < to && blank(s[at]) {
        lemma_blanks_end(s, at + 1, to);
    }
}

/// The bytes from `a` up to `b` spell `word`, upper or lower case.
pub open spec fn spells(s: Seq<u8>, a: int, b: int, word: Seq<char>) -> bool {
    s.subrange(a, b).map_values(|c: u8| lower(c)) == vstd::utf8::encode_utf8(word)
}

/// The header fields.
#[derive(Debug, Clone, Copy, PartialEq, Eq, Structural)]
pub enum Field {
    Ncols,
    Nrows,
    Xllcorner,
    Yllcorner,
    Cellsize,
    Nodata,
}

/// The field that a header key names.
pub open spec fn field_named(s: Seq<u8>, a: int, b: int) -> Option<Field> {
    if spells(s, a, b, "ncols"@) {
        Some(Field::Ncols)
    } else if spells(s, a, b, "nrows"@) {
        Some(Field::Nrows)
    } else if spells(s, a, b, "xllcorner"@) || spells(s, a, b, "xllcenter"@) {
        Some(Field::Xllcorner)
    } else if spells(s, a, b, "yllcorner"@) || spells(s, a, b, "yllcenter"@) {
        Some(Field::Yllcorner)
    } else if spells(s, a, b, "cellsize"@) {
        Some(Field::Cellsize)
    } else if spells(s, a, b, "nodata_value"@) {
        Some(Field::Nodata)
    } else {
        None
    }
}

/// What a header says: its counts, and where its other values stand in the text.
/// Of a field given twice the later value counts, except that every no-data
/// value is listed.
#[derive(Debug)]
pub struct HeaderText {
    pub ncols: Option<usize>,
    pub nrows: Option<usize>,
    pub xll: Option<Span>,
    pub yll: Option<Span>,
    pub cell: Option<Span>,
    pub nodata: Vec<Span>,
}

/// The contents of a [`HeaderText`].
pub struct HeaderView {
    pub ncols: Option<usize>,
    pub nrows: Option<usize>,
    pub xll: Option<Span>,
    pub yll: Option<Span>,
    pub cell: Option<Span>,
    pub nodata: Seq<Span>,
}

impl View for HeaderText {
    type V = HeaderView;

    open spec fn view(&self) -> HeaderView {
        HeaderView {
            ncols: self.ncols,
            nrows: self.nrows,
            xll: self.xll,
            yll: self.yll,
            cell: self.cell,
            nodata: self.nodata@,
        }
    }
}

pub open spec fn empty_header() -> HeaderView {
    HeaderView { ncols: None, nrows: None, xll: None, yll: None, cell: None, nodata: Seq::empty() }
}

/// The count that a value spells, if it is one.
pub open spec fn count_at(s: Seq<u8>, v: Span) -> Option<usize> {
    match crate::text::numeral(s.subrange(v.from as int, v.to as int).map_values(|b: u8| b as u32)) {
        Some(n) => if n <= usize::MAX {
            Some(n as usize)
        } else {
            None
        },
        None => None,
    }
}

/// The header after one more line, whose value stands at `v`.
pub open spec fn with_field(s: Seq<u8>, h: HeaderView, field: Field, v: Span) -> HeaderView {
    match field {
        Field::Ncols => HeaderView { ncols: count_at(s, v), ..h },
        Field::Nrows => HeaderView { nrows: count_at(s, v), ..h },
        Field::Xllcorner => HeaderView { xll: Some(v), ..h },
        Field::Yllcorner => HeaderView { yll: Some(v), ..h },
        Field::Cellsize => HeaderView { cell: Some(v), ..h },
        Field::Nodata => HeaderView { nodata: h.nodata.push(v), ..h },
    }
}

/// The key (first word) and value (second word) of the line from `at` to `end`;
/// a word that is not there is empty.
pub open spec fn key_and_value(s: Seq<u8>, at: int, end: int) -> (Span, Span) {
    let ka = after_blanks(s, at, end);
    let kb = after_word(s, ka, end);
    let va = after_blanks(s, kb, end);
    let vb = after_word(s, va, end);
    (Span { from: ka as usize, to: kb as usize }, Span { from: va as usize, to: vb as usize })
}

/// Read header lines from `at` on, until a line that is none. Gives the header
/// and the offset at which the grid begins.
pub open spec fn header_from(s: Seq<u8>, at: int, h: HeaderView) -> (HeaderView, int)
    decreases s.len() - at,
    when 0 <= at <= s.len()
    via header_from_decreases
{
    if at == s.len() {
        (h, at)
    } else {
        let end = line_end(s, at);
        let (k, v) = key_and_value(s, at, end);
        match field_named(s, k.from as int, k.to as int) {
            None => (h, at),
            Some(field) => header_from(
                s,
                if end < s.len() {
                    end + 1
                } else {
                    end
                },
                with_field(s, h, field, v),
            ),
        }
    }
}

#[via_fn]
proof fn header_from_decreases(s: Seq<u8>, at: int, h: HeaderView) {
    lemma_line_advances(s, at);
}

/// A line is never empty together with its line feed.
proof fn lemma_line_advances(s: Seq<u8>, at: int)
    requires
        0 <= at <= s.len(),
    ensures
        at <= line_end(s, at) <= s.len(),
        at < s.len() ==> at < line_end(s, at) || line_end(s, at) < s.len(),
{
    lemma_line_end(s, at);
    if at < s.len() && s[at] != 0x0a {
        lemma_line_end(s, at + 1);
    }
}

fn is_blank(b: u8) -> (r: bool)
    ensures
        r == blank(b),
{
    b == 0x09 || b == 0x0a || b == 0x0c || b == 0x0d || b == 0x20
}

fn to_lower(b: u8) -> (r: u8)
    ensures
        r == lower(b),
{
    if 0x41 <= b && b <= 0x5a {
        b + 0x20
    } else {
        b
    }
}

fn skip_blanks(s: &[u8], at: usize, to: usize) -> (r: usize)
    requires
        at <= to <= s.len(),
    ensures
        r == after_blanks(s@, at as int, to as int),
        at <= r <= to,
{
    let mut a: usize = at;
    while a < to && is_blank(s[a])
        invariant
            at <= a <= to <= s.len(),
            after_blanks(s@, a as int, to as int) == after_blanks(s@, at as int, to as int),
        decreases to - a,
    {
        a = a + 1;
    }
    a
}

fn skip_word(s: &[u8], at: usize, to: usize) -> (r: usize)
    requires
        at <= to <= s.len(),
    ensures
        r == after_word(s@, at as int, to as int),
        at <= r <= to,
{
    let mut a: usize = at;
    while a < to && !is_blank(s[a])
        invariant
            at <= a <= to <= s.len(),
            after_word(s@, a as int, to as int) == after_word(s@, at as int, to as int),
        decreases to - a,
    {
        a = a + 1;
    }
    a
}

fn find_line_end(s: &[u8], at: usize) -> (r: usize)
    requires
        at <= s.len(),
    ensures
        r == line_end(s@, at as int),
        at <= r <= s.len(),
{
    let mut a: usize = at;
    while a < s.len() && s[a] != 0x0a
        invariant
            at <= a <= s.len(),
            line_end(s@, a as int) == line_end(s@, at as int),
        decreases s.len() - a,
    {
        a = a + 1;
    }
    a
}

fn key_is(s: &[u8], a: usize, b: usize, word: &str) -> (r: bool)
    requires
        a <= b <= s.len(),
    ensures
        r == spells(s@, a as int, b as int, word@),
{
    let w = word.as_bytes();
    let ghost low = s@.subrange(a as int, b as int).map_values(|c: u8| lower(c));
    if b - a != w.len() {
        return false;
    }
    let mut i: usize = 0;
    while i < w.len()
        invariant
            a <= b <= s.len(),
            w@ == vstd::utf8::encode_utf8(word@),
            low == s@.subrange(a as int, b as int).map_values(|c: u8| lower(c)),
            b - a == w.len(),
            i <= w.len(),
            forall|k: int| 0 <= k < i ==> low[k] == #[trigger] w@[k],
        decreases w.len() - i,
    {
        if to_lower(s[a + i]) != w[i] {
            proof {
                assert(low[i as int] != w@[i as int]);
            }
            return false;
        }
        i = i + 1;
    }
    proof {
        assert(low =~= w@);
    }
    true
}

fn find_field(s: &[u8], a: usize, b: usize) -> (r: Option<Field>)
    requires
        a <= b <= s.len(),
    ensures
        r == field_named(s@, a as int, b as int),
{
    if key_is(s, a, b, "ncols") {
        Some(Field::Ncols)
    } else if key_is(s, a, b, "nrows") {
        Some(Field::Nrows)
    } else if key_is(s, a, b, "xllcorner") || key_is(s, a, b, "xllcenter") {
        Some(Field::Xllcorner)
    } else if key_is(s, a, b, "yllcorner") || key_is(s, a, b, "yllcenter") {
        Some(Field::Yllcorner)
    } else if key_is(s, a, b, "cellsize") {
        Some(Field::Cellsize)
    } else if key_is(s, a, b, "nodata_value") {
        Some(Field::Nodata)
    } else {
        None
    }
}

fn parse_count(s: &[u8], v: Span) -> (r: Option<usize>)
    requires
        v.from <= v.to <= s.len(),
    ensures
        r == count_at(s@, v),
{
    let mut codes: Vec<u32> = Vec::new();
    let mut i: usize = v.from;
    while i < v.to
        invariant
            v.from <= i <= v.to <= s.len(),
            codes@ == s@.subrange(v.from as int, i as int).map_values(|b: u8| b as u32),
        decreases v.to - i,
    {
        codes.push(s[i] as u32);
        i = i + 1;
        proof {
            assert(codes@ =~= s@.subrange(v.from as int, i as int).map_values(|b: u8| b as u32));
        }
    }
    match parse_unsigned(&codes, usize::MAX as u64) {
        Some(n) => Some(n as usize),
        None => None,
    }
}

/// Parse the header section and report the byte offset where the grid begins.
pub fn parse_header_with_offset(text: &[u8]) -> (r: (HeaderText, usize))
    ensures
        r.0@ == header_from(text@, 0, empty_header()).0,
        r.1 == header_from(text@, 0, empty_header()).1,
        r.1 <= text.len(),
{
    let mut h = HeaderText {
        ncols: None,
        nrows: None,
        xll: None,
        yll: None,
        cell: None,
        nodata: Vec::new(),
    };
    let mut at: usize = 0;
    proof {
        assert(h@ == empty_header());
    }
    while at < text.len()
        invariant
            at <= text.len(),
            header_from(text@, at as int, h@) == header_from(text@, 0, empty_header()),
        decreases text.len() - at,
    {
        let ghost before = h@;
        let end = find_line_end(text, at);
        let ka = skip_blanks(text, at, end);
        let kb = skip_word(text, ka, end);
        let va = skip_blanks(text, kb, end);
        let vb = skip_word(text, va, end);
        let v = Span { from: va, to: vb };
        proof {
            lemma_line_advances(text@, at as int);
        }
        match find_field(text, ka, kb) {
            None => {
                return (h, at);
            },
            Some(Field::Ncols) => {
                h.ncols = parse_count(text, v);
            },
            Some(Field::Nrows) => {
                h.nrows = parse_count(text, v);
            },
            Some(Field::Xllcorner) => {
                h.xll = Some(v);
            },
            Some(Field::Yllcorner) => {
                h.yll = Some(v);
            },
            Some(Field::Cellsize) => {
                h.cell = Some(v);
            },
            Some(Field::Nodata) => {
                h.nodata.push(v);
            },
        }
        proof {
            let field = field_named(text@, ka as int, kb as int)->Some_0;
            assert(h@ == with_field(text@, before, field, v));
        }
        at = if end < text.len() {
            end + 1
        } else {
            end
        };
    }
    (h, at)
}

/// The cells of the grid that begins at `from`, as stretches of the text.
pub fn grid_cells(text: &[u8], from: usize) -> (cells: Vec<Span>)
    requires
        from <= text.len(),
    ensures
        cells@ == word_spans(text@, from as int, text.len() as int),
        forall|i: int| 0 <= i < cells.len() ==> (#[trigger] cells@[i]).from < cells@[i].to <= text.len(),
{
    let mut cells: Vec<Span> = Vec::new();
    let n: usize = text.len();
    let mut at: usize = from;
    loop
        invariant
            from <= at <= n,
            n == text.len(),
            cells@ + word_spans(text@, at as int, n as int) == word_spans(
                text@,
                from as int,
                n as int,
            ),
            forall|i: int| 0 <= i < cells.len() ==> (#[trigger] cells@[i]).from < cells@[i].to <= text.len(),
        ensures
            cells@ == word_spans(text@, from as int, n as int),
        decreases n - at,
    {
        let a = skip_blanks(text, at, n);
        if a == n {
            proof {
                assert(word_spans(text@, at as int, n as int) =~= Seq::empty());
                assert(cells@ + Seq::<Span>::empty() =~= cells@);
            }
            break ;
        }
        let b = skip_word(text, a, n);
        proof {
            lemma_blanks_end(text@, at as int, n as int);
            lemma_scans(text@, a as int + 1, n as int);
            assert(cells@ + (seq![Span { from: a, to: b }] + word_spans(text@, b as int, n as int))
                =~= cells@.push(Span { from: a, to: b }) + word_spans(text@, b as int, n as int));
        }
        cells.push(Span { from: a, to: b });
        at = b;
    }
    cells
}

/// Why a grid file is refused.
#[derive(Debug, Clone, Copy, PartialEq, Eq, Structural)]
pub enum AscError {
    /// The header lacks this field, or its value is no number.
    Missing(Field),
    /// The cell at this position is no number.
    BadCell(usize),
    /// The grid does not hold one cell per column and row.
    CellCount { expected: usize, got: usize },
}

/// Header metadata for an ASCII Grid tile.
#[derive(Debug, Clone, Copy, PartialEq, Eq, Structural)]
pub struct AscHeader {
    pub ncols: usize,
    pub nrows: usize,
    pub xllcorner: Double,
    pub yllcorner: Double,
    pub cellsize: Double,
    pub nodata: Double,
}

/// The last number in the list; the default when there is none.
pub open spec fn last_nodata(values: Seq<Option<Double>>) -> Double
    decreases values.len(),
{
    if values.len() == 0 {
        Double { bits: NODATA_BITS }
    } else {
        match values.last() {
            Some(v) => v,
            None => last_nodata(values.drop_last()),
        }
    }
}

/// The numbers that a header's values spell, where they are numbers.
#[derive(Debug)]
pub struct HeaderNumbers {
    pub xll: Option<Double>,
    pub yll: Option<Double>,
    pub cell: Option<Double>,
    pub nodata: Vec<Option<Double>>,
}

impl AscHeader {
    /// Assemble a header from its counts and numbers, or name the first field
    /// that is missing.
    pub fn assemble(text: &HeaderText, numbers: &HeaderNumbers) -> (r: Result<AscHeader, AscError>)
        ensures
            r == (match (text.ncols, text.nrows, numbers.xll, numbers.yll, numbers.cell) {
                (None, _, _, _, _) => Err(AscError::Missing(Field::Ncols)),
                (Some(_), None, _, _, _) => Err(AscError::Missing(Field::Nrows)),
                (Some(_), Some(_), None, _, _) => Err(AscError::Missing(Field::Xllcorner)),
                (Some(_), Some(_), Some(_), None, _) => Err(AscError::Missing(Field::Yllcorner)),
                (Some(_), Some(_), Some(_), Some(_), None) => Err(
                    AscError::Missing(Field::Cellsize),
                ),
                (Some(ncols), Some(nrows), Some(xll), Some(yll), Some(cell)) => Ok(
                    AscHeader {
                        ncols,
                        nrows,
                        xllcorner: xll,
                        yllcorner: yll,
                        cellsize: cell,
                        nodata: last_nodata(numbers.nodata@),
                    },
                ),
            }),
    {
        let ncols = match text.ncols {
            None => return Err(AscError::Missing(Field::Ncols)),
            Some(v) => v,
        };
        let nrows = match text.nrows {
            None => return Err(AscError::Missing(Field::Nrows)),
            Some(v) => v,
        };
        let xllcorner = match numbers.xll {
            None => return Err(AscError::Missing(Field::Xllcorner)),
            Some(v) => v,
        };
        let yllcorner = match numbers.yll {
            None => return Err(AscError::Missing(Field::Yllcorner)),
            Some(v) => v,
        };
        let cellsize = match numbers.cell {
            None => return Err(AscError::Missing(Field::Cellsize)),
            Some(v) => v,
        };
        let mut nodata = Double { bits: NODATA_BITS };
        let mut i: usize = 0;
        while i < numbers.nodata.len()
            invariant
                i <= numbers.nodata.len(),
                nodata == last_nodata(numbers.nodata@.take(i as int)),
            decreases numbers.nodata.len() - i,
        {
            proof {
                assert(numbers.nodata@.take(i as int + 1).drop_last() =~= numbers.nodata@.take(
                    i as int,
                ));
            }
            if let Some(v) = numbers.nodata[i] {
                nodata = v;
            }
            i = i + 1;
        }
        proof {
            assert(numbers.nodata@.take(i as int) =~= numbers.nodata@);
        }
        Ok(AscHeader { ncols, nrows, xllcorner, yllcorner, cellsize, nodata })
    }

    /// True if this tile's footprint includes the given point: the west and
    /// south edges belong to it, `east` and `north` do not.
    pub fn contains(&self, e: Double, n: Double, east: Double, north: Double) -> (r: bool)
        ensures
            r == (self.xllcorner.at_most(e) && e.below(east) && self.yllcorner.at_most(n) && n.below(
                north,
            )),
    {
        self.xllcorner.le(e) && e.lt(east) && self.yllcorner.le(n) && n.lt(north)
    }

    /// True if the given point falls outside the tile: here all four edges
    /// belong to it.
    pub fn outside(&self, e: Double, n: Double, east: Double, north: Double) -> (r: bool)
        ensures
            r == (e.below(self.xllcorner) || east.below(e) || n.below(self.yllcorner)
                || north.below(n)),
    {
        e.lt(self.xllcorner) || east.lt(e) || n.lt(self.yllcorner) || north.lt(n)
    }
}

/// A parsed tile: header plus all cells. Elevation in metres; cells equal to
/// `header.nodata` are missing.
#[derive(Debug)]
pub struct AscTile {
    pub header: AscHeader,
    /// Row-major, top-to-bottom (row 0 is the highest northing).
    pub data: Vec<Single>,
}

/// The four cells around a point: the upper row, then the lower, west before
/// east.
#[derive(Debug, Clone, Copy, PartialEq, Eq, Structural)]
pub struct Corners {
    pub v00: Single,
    pub v10: Single,
    pub v01: Single,
    pub v11: Single,
}

/// The first position whose cell is no number, counting from `at`.
pub open spec fn first_bad(cells: Seq<Option<Single>>, at: int) -> Option<int>
    decreases cells.len() - at,
{
    if at >= cells.len() {
        None
    } else if cells[at] is None {
        Some(at)
    } else {
        first_bad(cells, at + 1)
    }
}

impl AscTile {
    /// One cell per column and row.
    pub open spec fn valid(self) -> bool {
        self.data.len() == self.header.ncols * self.header.nrows
    }

    /// The cells are these numbers, in order.
    pub open spec fn filled_with(self, cells: Seq<Option<Single>>) -> bool {
        &&& self.data.len() == cells.len()
        &&& forall|i: int| 0 <= i < cells.len() ==> Some(#[trigger] self.data@[i]) == cells[i]
    }

    /// The cell in `row` and `col`, unless it is missing.
    pub open spec fn cell(self, row: int, col: int) -> Option<Single> {
        let v = self.data@[row * self.header.ncols + col];
        if v.same_double(self.header.nodata) {
            None
        } else {
            Some(v)
        }
    }

    /// Assemble a tile from its header and the numbers its cells spell.
    pub fn assemble(header: AscHeader, cells: &Vec<Option<Single>>) -> (r: Result<
        AscTile,
        AscError,
    >)
        requires
            header.ncols * header.nrows <= usize::MAX,
        ensures
            match first_bad(cells@, 0) {
                Some(i) => r == Err::<AscTile, AscError>(AscError::BadCell(i as usize)),
                None => if cells.len() != header.ncols * header.nrows {
                    r == Err::<AscTile, AscError>(
                        AscError::CellCount {
                            expected: (header.ncols * header.nrows) as usize,
                            got: cells.len(),
                        },
                    )
                } else {
                    &&& r matches Ok(t)
                    &&& t.header == header
                    &&& t.valid()
                    &&& t.filled_with(cells@)
                },
            },
    {
        let mut data: Vec<Single> = Vec::new();
        let mut i: usize = 0;
        while i < cells.len()
            invariant
                i <= cells.len(),
                data.len() == i,
                first_bad(cells@, i as int) == first_bad(cells@, 0),
                forall|k: int| 0 <= k < i ==> Some(#[trigger] data@[k]) == cells@[k],
            decreases cells.len() - i,
        {
            match cells[i] {
                None => {
                    return Err(AscError::BadCell(i));
                },
                Some(v) => {
                    data.push(v);
                },
            }
            i = i + 1;
        }
        let expected: usize = header.ncols * header.nrows;
        if data.len() != expected {
            return Err(AscError::CellCount { expected, got: data.len() });
        }
        Ok(AscTile { header, data })
    }

    fn at(&self, row: usize, col: usize) -> (r: Option<Single>)
        requires
            self.valid(),
            row < self.header.nrows,
            col < self.header.ncols,
        ensures
            r == self.cell(row as int, col as int),
    {
        proof {
            lemma_cell_index(self.header.ncols as int, self.header.nrows as int, row as int, col as int);
        }
        let v = self.data[row * self.header.ncols + col];
        if v.equals_double(self.header.nodata) {
            None
        } else {
            Some(v)
        }
    }

    /// The cells to interpolate between at a point whose nearest cell to the
    /// north-west is (`r0`, `c0`): that cell and its neighbours east and south,
    /// or the cell itself again at the tile's edge. `None` if one is missing.
    pub fn corners(&self, r0: usize, c0: usize) -> (r: Option<Corners>)
        requires
            self.valid(),
            r0 < self.header.nrows,
            c0 < self.header.ncols,
        ensures
            ({
                let r1 = if r0 + 1 < self.header.nrows {
                    r0 + 1
                } else {
                    r0 as int
                };
                let c1 = if c0 + 1 < self.header.ncols {
                    c0 + 1
                } else {
                    c0 as int
                };
                match (
                    self.cell(r0 as int, c0 as int),
                    self.cell(r0 as int, c1),
                    self.cell(r1, c0 as int),
                    self.cell(r1, c1),
                ) {
                    (Some(v00), Some(v10), Some(v01), Some(v11)) => r == Some(
                        Corners { v00, v10, v01, v11 },
                    ),
                    _ => r is None,
                }
            }),
    {
        let r1: usize = if r0 < self.header.nrows - 1 {
            r0 + 1
        } else {
            r0
        };
        let c1: usize = if c0 < self.header.ncols - 1 {
            c0 + 1
        } else {
            c0
        };
        match (self.at(r0, c0), self.at(r0, c1), self.at(r1, c0), self.at(r1, c1)) {
            (Some(v00), Some(v10), Some(v01), Some(v11)) => Some(Corners { v00, v10, v01, v11 }),
            _ => None,
        }
    }
}

proof fn lemma_cell_index(ncols: int, nrows: int, row: int, col: int)
    requires
        0 <= row < nrows,
        0 <= col < ncols,
    ensures
        0 <= row * ncols,
        row * ncols + col < ncols * nrows,
{
    assert(0 <= row * ncols && row * ncols + col < ncols * nrows) by (nonlinear_arith)
        requires
            0 <= row < nrows,
            0 <= col < ncols,
    ;
}

/// A point that a tile contains is not outside it.
pub proof fn contained_is_not_outside(h: AscHeader, e: Double, n: Double, east: Double, north: Double)
    requires
        h.xllcorner.at_most(e) && e.below(east) && h.yllcorner.at_most(n) && n.below(north),
    ensures
        !(e.below(h.xllcorner) || east.below(e) || n.below(h.yllcorner) || north.below(n)),
{
}

/// The grid begins at the end of a header line, or at the very start: what comes
/// before it is whole lines.
pub proof fn grid_begins_a_line(s: Seq<u8>, at: int, h: HeaderView)
    requires
        0 <= at <= s.len(),
        at == 0 || s[at - 1] == 0x0a || at == s.len(),
    ensures
        at <= header_from(s, at, h).1 <= s.len(),
        ({
            let start = header_from(s, at, h).1;
            start == 0 || s[start - 1] == 0x0a || start == s.len()
        }),
    decreases s.len() - at,
{
    lemma_line_advances(s, at);
    if at < s.len() {
        let end = line_end(s, at);
        lemma_line_end(s, at);
        lemma_line_feed(s, at);
        let (k, v) = key_and_value(s, at, end);
        if let Some(field) = field_named(s, k.from as int, k.to as int) {
            let next = if end < s.len() {
                end + 1
            } else {
                end
            };
            grid_begins_a_line(s, next, with_field(s, h, field, v));
        }
    }
}

proof fn lemma_line_feed(s: Seq<u8>, at: int)
    requires
        0 <= at <= s.len(),
    ensures
        line_end(s, at) < s.len() ==> s[line_end(s, at)] == 0x0a,
    decreases s.len() - at,
{
    if at < s.len() && s[at] != 0x0a {
        lemma_line_feed(s, at + 1);
    }
}

/// The scans stop where they say: after white space comes a byte that is none or the end,
/// after a word white space or the end, and after a line its line feed or the end.
pub proof fn scans_stop_at_the_first_other_byte(s: Seq<u8>, at: int, to: int)
    requires
        0 <= at <= to <= s.len(),
    ensures
        ({
            let a = after_blanks(s, at, to);
            &&& at <= a <= to
            &&& forall|i: int| at <= i < a ==> blank(#[trigger] s[i])
            &&& a < to ==> !blank(s[a])
        }),
        ({
            let b = after_word(s, at, to);
            &&& at <= b <= to
            &&& forall|i: int| at <= i < b ==> !blank(#[trigger] s[i])
            &&& b < to ==> blank(s[b])
        }),
    decreases to - at,
{
    if at < to {
        scans_stop_at_the_first_other_byte(s, at + 1, to);
    }
}

/// A line ends at the first line feed from its start on, or with the text.
pub proof fn lines_end_at_the_first_line_feed(s: Seq<u8>, at: int)
    requires
        0 <= at <= s.len(),
    ensures
        at <= line_end(s, at) <= s.len(),
        forall|i: int| at <= i < line_end(s, at) ==> #[trigger] s[i] != 0x0a,
        line_end(s, at) < s.len() ==> s[line_end(s, at)] == 0x0a,
    decreases s.len() - at,
{
    if at < s.len() && s[at] != 0x0a {
        lines_end_at_the_first_line_feed(s, at + 1);
    }
}

/// The white space of a grid file: space, tab, line feed, form feed and carriage return.
pub proof fn five_bytes_are_blank(b: u8)
    ensures
        blank(b) <==> b == 9 || b == 10 || b == 12 || b == 13 || b == 32,
        0x41 <= b <= 0x5a ==> lower(b) == b + 0x20,
        !(0x41 <= b <= 0x5a) ==> lower(b) == b,
{
}

/// The cells are the words of the text: each is a run of bytes that are not white space,
/// with white space or the end on both sides; they come in order and lose none.
pub proof fn cells_are_the_words(s: Seq<u8>, at: int, to: int)
    requires
        0 <= at <= to <= s.len() <= usize::MAX,
    ensures
        forall|k: int|
            0 <= k < word_spans(s, at, to).len() ==> {
                let w = #[trigger] word_spans(s, at, to)[k];
                &&& at <= w.from < w.to <= to
                &&& w.from == at || blank(s[w.from - 1])
                &&& w.to == to || blank(s[w.to as int])
                &&& forall|i: int| w.from <= i < w.to ==> !blank(#[trigger] s[i])
            },
        forall|j: int, k: int|
            #![trigger word_spans(s, at, to)[j], word_spans(s, at, to)[k]]
            0 <= j < k < word_spans(s, at, to).len() ==> word_spans(s, at, to)[j].to
                < word_spans(s, at, to)[k].from,
        forall|i: int|
            at <= i < to && !blank(#[trigger] s[i]) ==> exists|k: int|
                0 <= k < word_spans(s, at, to).len() && {
                    let w = #[trigger] word_spans(s, at, to)[k];
                    w.from <= i < w.to
                },
    decreases to - at,
{
    scans_stop_at_the_first_other_byte(s, at, to);
    let a = after_blanks(s, at, to);
    let all = word_spans(s, at, to);
    if a < to {
        scans_stop_at_the_first_other_byte(s, a, to);
        let b = after_word(s, a, to);
        assert(b > a);
        cells_are_the_words(s, b, to);
        let rest = word_spans(s, b, to);
        let first = Span { from: a as usize, to: b as usize };
        assert(all == seq![first] + rest);
        assert(all[0] == first);
        assert(forall|k: int| 0 < k < all.len() ==> #[trigger] all[k] == rest[k - 1]);
        assert forall|k: int| 0 <= k < rest.len() implies b < (#[trigger] rest[k]).from by {
            assert(rest[k].from != b || !blank(s[b]));
        }
        assert forall|k: int| 0 <= k < all.len() implies {
            let w = #[trigger] all[k];
            &&& at <= w.from < w.to <= to
            &&& w.from == at || blank(s[w.from - 1])
            &&& w.to == to || blank(s[w.to as int])
            &&& forall|i: int| w.from <= i < w.to ==> !blank(#[trigger] s[i])
        } by {
            if k > 0 {
                assert(all[k] == rest[k - 1]);
            } else if a > at {
                assert(blank(s[a - 1]));
            }
        }
        assert forall|j: int, k: int|
            #![trigger all[j], all[k]]
            0 <= j < k < all.len() implies all[j].to < all[k].from by {
            assert(all[k] == rest[k - 1]);
            if j > 0 {
                assert(all[j] == rest[j - 1]);
            }
        }
        assert forall|i: int| at <= i < to && !blank(#[trigger] s[i]) implies exists|k: int|
            0 <= k < all.len() && {
                let w = #[trigger] all[k];
                w.from <= i < w.to
            } by {
            if i < b {
                assert(all[0].from <= i < all[0].to);
            } else {
                let k = choose|k: int|
                    0 <= k < rest.len() && {
                        let w = #[trigger] rest[k];
                        w.from <= i < w.to
                    };
                assert(all[k + 1] == rest[k]);
            }
        }
    }
}

/// A header line's key is its first word and its value the second; a word that is not
/// there is empty.
pub proof fn lines_hold_a_key_and_a_value(s: Seq<u8>, at: int, end: int)
    requires
        0 <= at <= end <= s.len() <= usize::MAX,
    ensures
        ({
            let (k, v) = key_and_value(s, at, end);
            &&& at <= k.from <= k.to <= v.from <= v.to <= end
            &&& forall|i: int| at <= i < k.from || k.to <= i < v.from ==> blank(#[trigger] s[i])
            &&& forall|i: int| k.from <= i < k.to || v.from <= i < v.to ==> !blank(#[trigger] s[i])
            &&& k.to < end ==> blank(s[k.to as int])
            &&& v.to < end ==> blank(s[v.to as int])
            &&& k.from < end ==> k.from < k.to
            &&& v.from < end ==> v.from < v.to
        }),
{
    scans_stop_at_the_first_other_byte(s, at, end);
    let ka = after_blanks(s, at, end);
    scans_stop_at_the_first_other_byte(s, ka, end);
    let kb = after_word(s, ka, end);
    scans_stop_at_the_first_other_byte(s, kb, end);
    let va = after_blanks(s, kb, end);
    scans_stop_at_the_first_other_byte(s, va, end);
    let vb = after_word(s, va, end);
    let (k, v) = key_and_value(s, at, end);
    assert forall|i: int| at <= i < k.from || k.to <= i < v.from implies blank(#[trigger] s[i]) by {}
    assert forall|i: int| k.from <= i < k.to || v.from <= i < v.to implies !blank(#[trigger] s[i]) by {}
}

/// One header line sets its own field to its value and leaves the others: a count is read
/// at once, of a field given twice the later value counts, and every no-data value is
/// listed.
pub proof fn header_lines_set_their_field(s: Seq<u8>, h: HeaderView, v: Span)
    ensures
        with_field(s, h, Field::Ncols, v) == (HeaderView {
            ncols: count_at(s, v),
            nrows: h.nrows,
            xll: h.xll,
            yll: h.yll,
            cell: h.cell,
            nodata: h.nodata,
        }),
        with_field(s, h, Field::Nrows, v) == (HeaderView {
            ncols: h.ncols,
            nrows: count_at(s, v),
            xll: h.xll,
            yll: h.yll,
            cell: h.cell,
            nodata: h.nodata,
        }),
        with_field(s, h, Field::Xllcorner, v) == (HeaderView {
            ncols: h.ncols,
            nrows: h.nrows,
            xll: Some(v),
            yll: h.yll,
            cell: h.cell,
            nodata: h.nodata,
        }),
        with_field(s, h, Field::Yllcorner, v) == (HeaderView {
            ncols: h.ncols,
            nrows: h.nrows,
            xll: h.xll,
            yll: Some(v),
            cell: h.cell,
            nodata: h.nodata,
        }),
        with_field(s, h, Field::Cellsize, v) == (HeaderView {
            ncols: h.ncols,
            nrows: h.nrows,
            xll: h.xll,
            yll: h.yll,
            cell: Some(v),
            nodata: h.nodata,
        }),
        with_field(s, h, Field::Nodata, v) == (HeaderView {
            ncols: h.ncols,
            nrows: h.nrows,
            xll: h.xll,
            yll: h.yll,
            cell: h.cell,
            nodata: h.nodata.push(v),
        }),
{
}

/// The header is read line by line: a line whose key names a field sets it and the next
/// line follows; the first line that names none, or the end, begins the grid.
pub proof fn header_is_read_line_by_line(s: Seq<u8>, at: int, h: HeaderView)
    requires
        0 <= at < s.len() <= usize::MAX,
    ensures
        ({
            let end = line_end(s, at);
            let (k, v) = key_and_value(s, at, end);
            match field_named(s, k.from as int, k.to as int) {
                None => header_from(s, at, h) == (h, at),
                Some(field) => header_from(s, at, h) == header_from(
                    s,
                    if end < s.len() {
                        end + 1
                    } else {
                        s.len() as int
                    },
                    with_field(s, h, field, v),
                ),
            }
        }),
        header_from(s, s.len() as int, h) == (h, s.len() as int),
{
    lemma_line_advances(s, at);
}

proof fn lemma_spells_once(s: Seq<u8>, a: int, b: int, x: Seq<char>, y: Seq<char>)
    requires
        spells(s, a, b, x),
        spells(s, a, b, y),
    ensures
        x == y,
{
    vstd::utf8::encode_utf8_decode_utf8(x);
    vstd::utf8::encode_utf8_decode_utf8(y);
}

proof fn lemma_keys()
    ensures
        "ncols"@ != "nrows"@ && "ncols"@ != "cellsize"@ && "ncols"@ != "nodata_value"@,
        "ncols"@ != "xllcorner"@ && "ncols"@ != "xllcenter"@ && "ncols"@ != "yllcorner"@ && "ncols"@
            != "yllcenter"@,
        "nrows"@ != "cellsize"@ && "nrows"@ != "nodata_value"@,
        "nrows"@ != "xllcorner"@ && "nrows"@ != "xllcenter"@ && "nrows"@ != "yllcorner"@ && "nrows"@
            != "yllcenter"@,
        "cellsize"@ != "nodata_value"@,
        "cellsize"@ != "xllcorner"@ && "cellsize"@ != "xllcenter"@ && "cellsize"@ != "yllcorner"@
            && "cellsize"@ != "yllcenter"@,
        "nodata_value"@ != "xllcorner"@ && "nodata_value"@ != "xllcenter"@ && "nodata_value"@
            != "yllcorner"@ && "nodata_value"@ != "yllcenter"@,
        "xllcorner"@ != "yllcorner"@ && "xllcorner"@ != "yllcenter"@ && "xllcenter"@
            != "yllcorner"@ && "xllcenter"@ != "yllcenter"@,
{
    reveal_strlit("ncols");
    reveal_strlit("nrows");
    reveal_strlit("cellsize");
    reveal_strlit("nodata_value");
    reveal_strlit("xllcorner");
    reveal_strlit("xllcenter");
    reveal_strlit("yllcorner");
    reveal_strlit("yllcenter");
    assert("ncols"@.len() == 5 && "nrows"@.len() == 5 && "ncols"@[1] != "nrows"@[1]);
    assert("cellsize"@.len() == 8 && "nodata_value"@.len() == 12);
    assert("xllcorner"@.len() == 9 && "xllcenter"@.len() == 9 && "yllcorner"@.len() == 9);
    assert("yllcenter"@.len() == 9);
    assert("xllcorner"@[0] == 'x' && "xllcenter"@[0] == 'x');
    assert("yllcorner"@[0] == 'y' && "yllcenter"@[0] == 'y');
}

/// Each field has its own keys, in whichever case; centres stand for corners.
pub proof fn keys_name_their_field(s: Seq<u8>, a: int, b: int)
    ensures
        field_named(s, a, b) == Some(Field::Ncols) <==> spells(s, a, b, "ncols"@),
        field_named(s, a, b) == Some(Field::Nrows) <==> spells(s, a, b, "nrows"@),
        field_named(s, a, b) == Some(Field::Xllcorner) <==> spells(s, a, b, "xllcorner"@) || spells(
            s,
            a,
            b,
            "xllcenter"@,
        ),
        field_named(s, a, b) == Some(Field::Yllcorner) <==> spells(s, a, b, "yllcorner"@) || spells(
            s,
            a,
            b,
            "yllcenter"@,
        ),
        field_named(s, a, b) == Some(Field::Cellsize) <==> spells(s, a, b, "cellsize"@),
        field_named(s, a, b) == Some(Field::Nodata) <==> spells(s, a, b, "nodata_value"@),
{
    lemma_keys();
    assert forall|x: Seq<char>, y: Seq<char>| #[trigger]
        spells(s, a, b, x) && #[trigger] spells(s, a, b, y) implies x == y by {
        lemma_spells_once(s, a, b, x, y);
    }
}

/// Of several no-data values the last that is a number counts, and -9999 where none is.
pub proof fn the_last_no_data_value_counts(values: Seq<Option<Double>>, v: Double)
    ensures
        last_nodata(values.push(Some(v))) == v,
        last_nodata(values.push(None)) == last_nodata(values),
        last_nodata(Seq::empty()) == (Double { bits: 0xc0c3_8780_0000_0000 }),
{
    assert(values.push(None::<Double>).drop_last() =~= values);
}

/// The cell that is reported as bad is the first that is no number; a grid of numbers has
/// none.
pub proof fn the_first_bad_cell_is_reported(cells: Seq<Option<Single>>, at: int)
    requires
        0 <= at,
    ensures
        first_bad(cells, at) matches Some(i) ==> {
            &&& at <= i < cells.len() && cells[i] is None
            &&& forall|j: int| at <= j < i ==> (#[trigger] cells[j]) is Some
        },
        first_bad(cells, at) is None <==> forall|j: int|
            at <= j < cells.len() ==> (#[trigger] cells[j]) is Some,
    decreases cells.len() - at,
{
    if at < cells.len() {
        the_first_bad_cell_is_reported(cells, at + 1);
        if cells[at] is None {
            assert(first_bad(cells, at) == Some(at));
        }
    }
}

/// Cells lie row by row from the top: the one after the last of a row is the first of the
/// next. One that equals the no-data value is missing, any other is as it is stored.
pub proof fn cells_lie_row_by_row(t: AscTile, row: int, col: int)
    requires
        t.valid(),
        0 <= row < t.header.nrows,
        0 <= col < t.header.ncols,
    ensures
        ({
            let at = row * t.header.ncols + col;
            &&& 0 <= at < t.data.len()
            &&& t.data@[at].same_double(t.header.nodata) ==> t.cell(row, col) is None
            &&& !t.data@[at].same_double(t.header.nodata) ==> t.cell(row, col) == Some(t.data@[at])
        }),
{
    lemma_cell_index(t.header.ncols as int, t.header.nrows as int, row, col);
}

/// A header needs its five fields and says which is missing first; of the no-data values the
/// last number counts.
pub proof fn headers_need_five_fields(
    text: &HeaderText,
    numbers: &HeaderNumbers,
    r: Result<AscHeader, AscError>,
)
    requires
        call_ensures(AscHeader::assemble, (text, numbers), r),
    ensures
        r is Ok <==> text.ncols is Some && text.nrows is Some && numbers.xll is Some && numbers.yll is Some
            && numbers.cell is Some,
        r matches Ok(h) ==> {
            &&& Some(h.ncols) == text.ncols && Some(h.nrows) == text.nrows
            &&& Some(h.xllcorner) == numbers.xll && Some(h.yllcorner) == numbers.yll
            &&& Some(h.cellsize) == numbers.cell && h.nodata == last_nodata(numbers.nodata@)
        },
        text.ncols is None ==> r == Err::<AscHeader, AscError>(AscError::Missing(Field::Ncols)),
        text.ncols is Some && text.nrows is None ==> r == Err::<AscHeader, AscError>(
            AscError::Missing(Field::Nrows),
        ),
        r == Err::<AscHeader, AscError>(AscError::Missing(Field::Xllcorner)) ==> numbers.xll is None,
        r == Err::<AscHeader, AscError>(AscError::Missing(Field::Yllcorner)) ==> numbers.yll is None,
        r == Err::<AscHeader, AscError>(AscError::Missing(Field::Cellsize)) ==> numbers.cell is None,
{
}

/// A tile's west and south edges belong to it; its east and north edges belong to its
/// neighbours, though a point on them is not outside it.
pub proof fn edges_belong_to_one_tile(
    h: &AscHeader,
    e: Double,
    n: Double,
    east: Double,
    north: Double,
    within: bool,
    beyond: bool,
)
    requires
        call_ensures(AscHeader::contains, (h, e, n, east, north), within),
        call_ensures(AscHeader::outside, (h, e, n, east, north), beyond),
        !e.nan() && !n.nan() && !h.xllcorner.nan() && !h.yllcorner.nan() && !east.nan()
            && !north.nan(),
    ensures
        within ==> !beyond,
        within <==> !e.below(h.xllcorner) && !n.below(h.yllcorner) && e.below(east) && n.below(north),
        beyond <==> e.below(h.xllcorner) || n.below(h.yllcorner) || east.below(e) || north.below(n),
        e.same(east) || n.same(north) ==> !within,
{
}

/// A tile is assembled exactly where every cell is a number and they fill its columns and
/// rows; they keep their order.
pub proof fn tiles_keep_their_cells(
    header: AscHeader,
    cells: &Vec<Option<Single>>,
    r: Result<AscTile, AscError>,
    i: int,
)
    requires
        header.ncols * header.nrows <= usize::MAX,
        call_ensures(AscTile::assemble, (header, cells), r),
        0 <= i < cells.len(),
    ensures
        r is Ok <==> cells.len() == header.ncols * header.nrows && forall|j: int|
            0 <= j < cells.len() ==> (#[trigger] cells@[j]) is Some,
        r matches Ok(t) ==> t.header == header && t.data.len() == cells.len() && Some(t.data@[i])
            == cells@[i],
        cells@[i] is None && (forall|j: int| 0 <= j < i ==> (#[trigger] cells@[j]) is Some) ==> r
            == Err::<AscTile, AscError>(AscError::BadCell(i as usize)),
{
    the_first_bad_cell_is_reported(cells@, 0);
    if let Some(k) = first_bad(cells@, 0) {
        if cells@[i] is None && (forall|j: int| 0 <= j < i ==> (#[trigger] cells@[j]) is Some) {
            if k < i {
                assert(cells@[k] is Some);
            }
        }
    }
}

/// Inside a tile the corners are the cell and its neighbours to the east, the south and the
/// south-east; there are none exactly where one of the four is missing.
pub proof fn corners_are_neighbouring_cells(t: &AscTile, r0: usize, c0: usize, r: Option<Corners>)
    requires
        t.valid(),
        r0 + 1 < t.header.nrows,
        c0 + 1 < t.header.ncols,
        call_ensures(AscTile::corners, (t, r0, c0), r),
    ensures
        r is Some <==> t.cell(r0 as int, c0 as int) is Some && t.cell(r0 as int, c0 + 1) is Some && t.cell(
            r0 + 1,
            c0 as int,
        ) is Some && t.cell(r0 + 1, c0 + 1) is Some,
        r matches Some(c) ==> {
            &&& Some(c.v00) == t.cell(r0 as int, c0 as int)
            &&& Some(c.v10) == t.cell(r0 as int, c0 + 1)
            &&& Some(c.v01) == t.cell(r0 + 1, c0 as int)
            &&& Some(c.v11) == t.cell(r0 + 1, c0 + 1)
        },
{
}

/// On the last row or column the cell itself stands in for the neighbour that is not there.
pub proof fn corners_repeat_at_the_edge(t: &AscTile, r0: usize, c0: usize, r: Option<Corners>)
    requires
        t.valid(),
        r0 < t.header.nrows,
        c0 < t.header.ncols,
        call_ensures(AscTile::corners, (t, r0, c0), r),
    ensures
        r matches Some(c) ==> {
            &&& r0 + 1 == t.header.nrows ==> c.v01 == c.v00 && c.v11 == c.v10
            &&& c0 + 1 == t.header.ncols ==> c.v10 == c.v00 && c.v11 == c.v01
        },
{
}

}

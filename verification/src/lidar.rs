//! 1 m LIDAR composite tiles: the raster and world file inside a tile's zip, and
//! the raster's decimation to a grid that is sampled like an OS Terrain 50 tile.

use std::io::Read;
use vstd::prelude::*;
use crate::asc::{AscHeader, AscTile, NODATA_BITS};
use crate::ieee::{Double, Single};
use crate::tiffdir::{check_counts, check_jpeg, counts_fit, jpeg_coded};
use crate::text::{lower, split_words, to_lower};

verus! {

/// Stored resolution (m): the 1 m source is thinned by this factor.
pub const DECIMATE: u32 = 2;

/// [`DECIMATE`] in binary64.
pub const CELL_BITS: u64 = 0x4000_0000_0000_0000;

/// -9999.0 in binary32.
pub const NODATA_SINGLE_BITS: u32 = 0xc61c_3c00;

/// -10000.0 in binary32: heights at or below it are spurious.
pub const SPURIOUS_BITS: u32 = 0xc61c_4000;

#[verifier::external_type_specification]
#[verifier::external_body]
pub struct ExIoError(std::io::Error);

#[verifier::external_type_specification]
#[verifier::external_body]
pub struct ExTiffError(tiff::TiffError);

/// Why a LIDAR tile cannot be used.
#[derive(Debug)]
pub enum LidarError {
    /// The archive cannot be read.
    Zip(std::io::Error),
    /// No `.tif` in the zip.
    NoTif,
    /// No `.tfw` in the zip.
    NoTfw,
    /// The world file holds fewer than six numbers.
    ShortTfw,
    /// The raster's directory counts more than any raster holds.
    Counts,
    /// The raster is stored as JPEG, which holds no heights.
    Jpeg,
    /// The raster cannot be decoded.
    Tiff(tiff::TiffError),
    /// The raster's samples are not binary32 numbers.
    SampleType,
    /// The raster does not hold one sample per pixel.
    SizeMismatch,
}

/// The number of entries that `zip::ZipArchive::new` finds in an archive; `None`
/// where it fails.
pub uninterp spec fn zip_count(archive: Seq<u8>) -> Option<nat>;

/// The name that `zip::ZipArchive::by_index` gives an archive's entry; `None`
/// where the archive or the entry cannot be opened.
pub uninterp spec fn zip_name(archive: Seq<u8>, index: nat) -> Option<Seq<char>>;

/// What `zip::ZipArchive::by_name` reads from an archive's entry; `None` where
/// it fails.
pub uninterp spec fn zip_entry(archive: Seq<u8>, name: Seq<char>) -> Option<Seq<u8>>;

/// What `zip::ZipArchive::by_name` reads from an archive's entry as text; `None`
/// where it fails or is not UTF-8.
pub uninterp spec fn zip_text(archive: Seq<u8>, name: Seq<char>) -> Option<Seq<char>>;

/// What `tiff::decoder::Decoder` makes of a raster; `None` where it fails.
pub uninterp spec fn tiff_raster(raster: Seq<u8>) -> Option<RasterView>;

/// `zip::ZipArchive::new` and `len` on an archive in memory. The number of
/// entries is named, not stated: it is a function of the bytes alone.
#[verifier::external_body]
fn archive_len(archive: &[u8]) -> (r: Result<usize, std::io::Error>)
    ensures
        match zip_count(archive@) {
            Some(n) => r matches Ok(k) && k == n,
            None => r is Err,
        },
{
    let opened = zip::ZipArchive::new(std::io::Cursor::new(archive))?;
    Ok(opened.len())
}

/// `zip::ZipArchive::by_index` and `ZipFile::name` on an archive in memory. The
/// name is a function of the bytes and the index alone; it is named, not stated.
#[verifier::external_body]
fn archive_name(archive: &[u8], index: usize) -> (r: Result<String, std::io::Error>)
    ensures
        match zip_name(archive@, index as nat) {
            Some(n) => r matches Ok(s) && s@ == n,
            None => r is Err,
        },
{
    let mut opened = zip::ZipArchive::new(std::io::Cursor::new(archive))?;
    let entry = opened.by_index(index)?;
    Ok(entry.name().to_string())
}

/// `zip::ZipArchive::by_name` on an archive in memory, read to its end. What is
/// read is a function of the bytes and the name alone; it is named, not stated.
#[verifier::external_body]
fn archive_entry(archive: &[u8], name: &str) -> (r: Result<Vec<u8>, std::io::Error>)
    ensures
        match zip_entry(archive@, name@) {
            Some(b) => r matches Ok(v) && v@ == b,
            None => r is Err,
        },
{
    let mut opened = zip::ZipArchive::new(std::io::Cursor::new(archive))?;
    let mut out = Vec::new();
    opened.by_name(name)?.read_to_end(&mut out)?;
    Ok(out)
}

/// `zip::ZipArchive::by_name` on an archive in memory, read as text. What is
/// read is a function of the bytes and the name alone; it is named, not stated.
#[verifier::external_body]
fn archive_text(archive: &[u8], name: &str) -> (r: Result<String, std::io::Error>)
    ensures
        match zip_text(archive@, name@) {
            Some(t) => r matches Ok(s) && s@ == t,
            None => r is Err,
        },
{
    let mut opened = zip::ZipArchive::new(std::io::Cursor::new(archive))?;
    let mut out = String::new();
    opened.by_name(name)?.read_to_string(&mut out)?;
    Ok(out)
}

/// A decoded raster: its size, and its samples where they are binary32 numbers.
#[derive(Debug)]
pub struct Raster {
    pub width: u32,
    pub height: u32,
    pub samples: Option<Vec<Single>>,
}

/// The contents of a [`Raster`].
pub struct RasterView {
    pub width: u32,
    pub height: u32,
    pub samples: Option<Seq<Single>>,
}

impl View for Raster {
    type V = RasterView;

    open spec fn view(&self) -> RasterView {
        RasterView {
            width: self.width,
            height: self.height,
            samples: match self.samples {
                Some(v) => Some(v@),
                None => None,
            },
        }
    }
}

/// `tiff::decoder::Decoder`: `new`, `dimensions` and `read_image` on a raster in
/// memory. The image is a function of the bytes alone; it is named, not stated.
/// Samples come as bit patterns; of a raster whose samples are not binary32
/// numbers only the size is kept. The decoder multiplies the counts of strips,
/// tiles and samples that the directory gives before it holds them against the
/// file; rasters on which those products overflow are left out. So is every raster
/// stored as JPEG, whatever it holds: the decoder trusts the directory on how many
/// components the JPEG frame has, and stops the program where the frame says
/// otherwise. JPEG samples have 8 or 12 bits, so none of those rasters is one of
/// heights.
#[verifier::external_body]
fn decode_raster(raster: &[u8]) -> (r: Result<Raster, tiff::TiffError>)
    requires
        counts_fit(raster@),
        !jpeg_coded(raster@),
    ensures
        match tiff_raster(raster@) {
            Some(v) => r matches Ok(image) && image@ == v,
            None => r is Err,
        },
{
    let mut decoder = tiff::decoder::Decoder::new(std::io::Cursor::new(raster))?;
    let (width, height) = decoder.dimensions()?;
    let samples = match decoder.read_image()? {
        tiff::decoder::DecodingResult::F32(v) => Some(
            v.iter().map(|x| Single { bits: x.to_bits() }).collect(),
        ),
        _ => None,
    };
    Ok(Raster { width, height, samples })
}

/// `name` ends in `suffix`, upper or lower case.
pub open spec fn ends_in(name: Seq<char>, suffix: Seq<char>) -> bool {
    &&& suffix.len() <= name.len()
    &&& forall|k: int|
        0 <= k < suffix.len() ==> lower(name[name.len() - suffix.len() + k]) == #[trigger] suffix[k]
}

pub open spec fn names_tif(name: Seq<char>) -> bool {
    ends_in(name, ".tif"@) || ends_in(name, ".tiff"@)
}

pub open spec fn names_tfw(name: Seq<char>) -> bool {
    !names_tif(name) && ends_in(name, ".tfw"@)
}

/// The last of the names that is a raster's.
pub open spec fn last_tif(names: Seq<Seq<char>>) -> Option<int>
    decreases names.len(),
{
    if names.len() == 0 {
        None
    } else if names_tif(names.last()) {
        Some(names.len() - 1)
    } else {
        last_tif(names.drop_last())
    }
}

/// The last of the names that is a world file's.
pub open spec fn last_tfw(names: Seq<Seq<char>>) -> Option<int>
    decreases names.len(),
{
    if names.len() == 0 {
        None
    } else if names_tfw(names.last()) {
        Some(names.len() - 1)
    } else {
        last_tfw(names.drop_last())
    }
}

fn name_ends_in(name: &Vec<char>, suffix: &str) -> (r: bool)
    ensures
        r == ends_in(name@, suffix@),
{
    let s = crate::text::char_vec(suffix);
    if s.len() > name.len() {
        return false;
    }
    let base: usize = name.len() - s.len();
    let mut k: usize = 0;
    while k < s.len()
        invariant
            s@ == suffix@,
            base + s.len() == name.len(),
            k <= s.len(),
            forall|j: int|
                0 <= j < k ==> lower(name@[name.len() - s.len() + j]) == #[trigger] suffix@[j],
        decreases s.len() - k,
    {
        if to_lower(name[base + k]) != s[k] {
            proof {
                assert(lower(name@[name.len() - s.len() + k]) != suffix@[k as int]);
            }
            return false;
        }
        k = k + 1;
    }
    true
}

/// Choose a zip's raster and world file by their names: the last of each.
pub fn choose_entries(names: &Vec<String>) -> (r: Result<(usize, usize), LidarError>)
    ensures
        match (last_tif(crate::text::string_views(names@)), last_tfw(crate::text::string_views(names@))) {
            (None, _) => r matches Err(LidarError::NoTif),
            (Some(_), None) => r matches Err(LidarError::NoTfw),
            (Some(t), Some(w)) => r matches Ok(p) && p.0 == t && p.1 == w && 0 <= t < names.len()
                && 0 <= w < names.len(),
        },
{
    let mut tif: Option<usize> = None;
    let mut tfw: Option<usize> = None;
    let mut i: usize = 0;
    while i < names.len()
        invariant
            i <= names.len(),
            match last_tif(crate::text::string_views(names@.take(i as int))) {
                Some(t) => tif matches Some(p) && p == t && p < i,
                None => tif is None,
            },
            match last_tfw(crate::text::string_views(names@.take(i as int))) {
                Some(t) => tfw matches Some(p) && p == t && p < i,
                None => tfw is None,
            },
        decreases names.len() - i,
    {
        let name = crate::text::char_vec(names[i].as_str());
        proof {
            let next = crate::text::string_views(names@.take(i as int + 1));
            assert(next.drop_last() =~= crate::text::string_views(names@.take(i as int)));
            assert(next.last() == name@);
        }
        if name_ends_in(&name, ".tif") || name_ends_in(&name, ".tiff") {
            tif = Some(i);
        } else if name_ends_in(&name, ".tfw") {
            tfw = Some(i);
        }
        i = i + 1;
    }
    proof {
        assert(names@.take(i as int) =~= names@);
    }
    match (tif, tfw) {
        (None, _) => Err(LidarError::NoTif),
        (Some(_), None) => Err(LidarError::NoTfw),
        (Some(t), Some(w)) => Ok((t, w)),
    }
}

/// What a zip's index needs: the raster's name and the words of its world file.
#[derive(Debug)]
pub struct IndexedZip {
    pub tif: String,
    pub world: Vec<String>,
}

/// Every entry of the archive has a name, and these are they.
pub open spec fn lists(archive: Seq<u8>, names: Seq<Seq<char>>) -> bool {
    &&& zip_count(archive) == Some(names.len())
    &&& forall|i: int|
        0 <= i < names.len() ==> zip_name(archive, i as nat) == Some(#[trigger] names[i])
}

/// Some entry of the archive cannot be listed, or the archive cannot be opened.
pub open spec fn unlistable(archive: Seq<u8>) -> bool {
    match zip_count(archive) {
        None => true,
        Some(n) => exists|i: nat| i < n && (#[trigger] zip_name(archive, i)) is None,
    }
}

/// Read the names of all entries.
fn list_entries(archive: &[u8]) -> (r: Result<Vec<String>, LidarError>)
    ensures
        match r {
            Ok(names) => lists(archive@, crate::text::string_views(names@)),
            Err(e) => e is Zip && unlistable(archive@),
        },
{
    let n = match archive_len(archive) {
        Ok(n) => n,
        Err(e) => return Err(LidarError::Zip(e)),
    };
    let mut names: Vec<String> = Vec::new();
    let mut i: usize = 0;
    while i < n
        invariant
            i <= n,
            names.len() == i,
            zip_count(archive@) == Some(n as nat),
            forall|k: int|
                0 <= k < i ==> zip_name(archive@, k as nat) == Some((#[trigger] names@[k])@),
        decreases n - i,
    {
        match archive_name(archive, i) {
            Ok(s) => names.push(s),
            Err(e) => return Err(LidarError::Zip(e)),
        }
        i = i + 1;
    }
    proof {
        assert forall|k: int| 0 <= k < names.len() implies zip_name(archive@, k as nat) == Some(
            #[trigger] crate::text::string_views(names@)[k],
        ) by {
            assert(crate::text::string_views(names@)[k] == names@[k]@);
        }
    }
    Ok(names)
}

/// Read just the world file from a tile zip.
pub fn index_zip(archive: &[u8]) -> (r: Result<IndexedZip, LidarError>)
    ensures
        unlistable(archive@) ==> r matches Err(LidarError::Zip(_)),
        forall|names: Seq<Seq<char>>| #[trigger] lists(archive@, names) ==> match (
            last_tif(names),
            last_tfw(names),
        ) {
            (None, _) => r matches Err(LidarError::NoTif),
            (Some(_), None) => r matches Err(LidarError::NoTfw),
            (Some(t), Some(w)) => match zip_text(archive@, names[w]) {
                None => r matches Err(LidarError::Zip(_)),
                Some(text) => {
                    &&& r matches Ok(z)
                    &&& z.tif@ == names[t]
                    &&& crate::text::string_views(z.world@) == crate::text::words(text)
                },
            },
        },
{
    let names = match list_entries(archive) {
        Ok(names) => names,
        Err(e) => {
            proof {
                assert forall|other: Seq<Seq<char>>| !#[trigger] lists(archive@, other) by {
                    if lists(archive@, other) {
                        let i = choose|i: nat| i < other.len() && (#[trigger] zip_name(archive@, i)) is None;
                        assert(zip_name(archive@, i) == Some(other[i as int]));
                    }
                }
            }
            return Err(e);
        },
    };
    let ghost listed = crate::text::string_views(names@);
    proof {
        assert forall|other: Seq<Seq<char>>| #[trigger] lists(archive@, other) implies other == listed by {
            assert forall|i: int| 0 <= i < other.len() implies other[i] == listed[i] by {
                assert(zip_name(archive@, i as nat) == Some(other[i]));
                assert(zip_name(archive@, i as nat) == Some(listed[i]));
            }
            assert(other =~= listed);
        }
        if unlistable(archive@) {
            let i = choose|i: nat| i < listed.len() && (#[trigger] zip_name(archive@, i)) is None;
            assert(zip_name(archive@, i) == Some(listed[i as int]));
        }
    }
    let (t, w) = match choose_entries(&names) {
        Ok(p) => p,
        Err(e) => return Err(e),
    };
    let text = match archive_text(archive, names[w].as_str()) {
        Ok(text) => text,
        Err(e) => return Err(LidarError::Zip(e)),
    };
    let world = split_words(text.as_str());
    proof {
        assert(crate::text::string_views(world@) =~= crate::text::words(text@));
    }
    Ok(IndexedZip { tif: names[t].clone(), world })
}

/// The numbers among the world file's words.
pub open spec fn numbers_of(words: Seq<Option<Double>>) -> Seq<Double>
    decreases words.len(),
{
    if words.len() == 0 {
        Seq::empty()
    } else {
        match words.last() {
            Some(v) => numbers_of(words.drop_last()).push(v),
            None => numbers_of(words.drop_last()),
        }
    }
}

/// A world file's pixel size and the centre of its upper-left pixel.
#[derive(Debug, Clone, Copy, PartialEq, Eq, Structural)]
pub struct World {
    pub px: Double,
    pub py: Double,
    pub ox: Double,
    pub oy: Double,
}

/// Read a world file: x-pixel, y-row, x-col, y-pixel, originX, originY. Words
/// that are no numbers are passed over.
pub fn read_world(words: &Vec<Option<Double>>) -> (r: Result<World, LidarError>)
    ensures
        ({
            let nums = numbers_of(words@);
            if nums.len() < 6 {
                r matches Err(LidarError::ShortTfw)
            } else {
                r matches Ok(w) && w == (World { px: nums[0], py: nums[3], ox: nums[4], oy: nums[5] })
            }
        }),
{
    let mut nums: Vec<Double> = Vec::new();
    let mut i: usize = 0;
    while i < words.len()
        invariant
            i <= words.len(),
            nums@ == numbers_of(words@.take(i as int)),
        decreases words.len() - i,
    {
        proof {
            assert(words@.take(i as int + 1).drop_last() =~= words@.take(i as int));
        }
        if let Some(v) = words[i] {
            nums.push(v);
        }
        i = i + 1;
    }
    proof {
        assert(words@.take(i as int) =~= words@);
    }
    if nums.len() < 6 {
        return Err(LidarError::ShortTfw);
    }
    Ok(World { px: nums[0], py: nums[3], ox: nums[4], oy: nums[5] })
}

/// A height as the grid stores it: spurious ones become the no-data value.
pub open spec fn tidied(v: Single) -> Single {
    if v.finite() && (Single { bits: SPURIOUS_BITS }).below(v) {
        v
    } else {
        Single { bits: NODATA_SINGLE_BITS }
    }
}

/// A thinned raster, row-major from the top.
#[derive(Debug)]
pub struct Thinned {
    pub ncols: usize,
    pub nrows: usize,
    pub data: Vec<Single>,
}

impl Thinned {
    pub open spec fn valid(self) -> bool {
        self.data.len() == self.ncols * self.nrows
    }

    /// The grid holds every second sample of every second row, tidied.
    pub open spec fn thins(self, width: int, samples: Seq<Single>) -> bool {
        forall|r: int, c: int|
            0 <= r < self.nrows && 0 <= c < self.ncols ==> #[trigger] self.data@[r * self.ncols + c]
                == tidied(samples[(r * DECIMATE) * width + c * DECIMATE])
    }

    /// Hand the grid out as a tile with its south-west corner at (`xll`, `yll`).
    pub fn into_tile(self, xll: Double, yll: Double) -> (t: AscTile)
        requires
            self.valid(),
        ensures
            t.valid(),
            t.data@ == self.data@,
            t.header == (AscHeader {
                ncols: self.ncols,
                nrows: self.nrows,
                xllcorner: xll,
                yllcorner: yll,
                cellsize: Double { bits: CELL_BITS },
                nodata: Double { bits: NODATA_BITS },
            }),
    {
        AscTile {
            header: AscHeader {
                ncols: self.ncols,
                nrows: self.nrows,
                xllcorner: xll,
                yllcorner: yll,
                cellsize: Double { bits: CELL_BITS },
                nodata: Double { bits: NODATA_BITS },
            },
            data: self.data,
        }
    }
}

/// The grid that a raster thins to, or why there is none.
pub open spec fn thinned(image: RasterView, r: Result<Thinned, LidarError>) -> bool {
    match image.samples {
        None => r matches Err(LidarError::SampleType),
        Some(s) => if s.len() != image.width * image.height {
            r matches Err(LidarError::SizeMismatch)
        } else {
            &&& r matches Ok(t)
            &&& t.ncols == image.width as int / DECIMATE as int
            &&& t.nrows == image.height as int / DECIMATE as int
            &&& t.valid()
            &&& t.thins(image.width as int, s)
        },
    }
}

proof fn lemma_thin_index(w: int, h: int, ncols: int, nrows: int, r: int, c: int)
    requires
        0 <= w,
        0 <= h,
        ncols == w / 2,
        nrows == h / 2,
        0 <= r < nrows,
        0 <= c < ncols,
    ensures
        0 <= (r * 2) * w,
        (r * 2) * w + c * 2 < w * h,
        0 <= r * ncols,
        r * ncols + c < ncols * nrows,
        ncols * nrows <= w * h,
{
    assert(r * 2 <= h - 2 && c * 2 <= w - 2);
    assert((r * 2) * w + c * 2 < w * h && 0 <= (r * 2) * w) by (nonlinear_arith)
        requires
            0 <= r * 2 <= h - 2,
            0 <= c * 2 <= w - 2,
    ;
    assert(0 <= r * ncols && r * ncols + c < ncols * nrows) by (nonlinear_arith)
        requires
            0 <= r < nrows,
            0 <= c < ncols,
    ;
    assert(ncols * nrows <= w * h) by (nonlinear_arith)
        requires
            0 <= ncols <= w,
            0 <= nrows <= h,
    ;
}

/// Thin a raster to every second sample of every second row and tidy its
/// no-data values.
pub fn decimate(image: &Raster) -> (r: Result<Thinned, LidarError>)
    ensures
        thinned(image@, r),
{
    let src = match &image.samples {
        None => return Err(LidarError::SampleType),
        Some(v) => v,
    };
    proof {
        assert(image.width * image.height <= 0xffff_ffff * 0xffff_ffff) by (nonlinear_arith)
            requires
                0 <= image.width <= 0xffff_ffff,
                0 <= image.height <= 0xffff_ffff,
        ;
    }
    if src.len() as u64 != image.width as u64 * image.height as u64 {
        return Err(LidarError::SizeMismatch);
    }
    let w: usize = image.width as usize;
    let ncols: usize = (image.width / DECIMATE) as usize;
    let nrows: usize = (image.height / DECIMATE) as usize;
    let mut data: Vec<Single> = Vec::new();
    let mut r: usize = 0;
    let ghost h = image.height as int;
    proof {
        assert(0 * ncols == 0) by (nonlinear_arith);
    }
    while r < nrows
        invariant
            src.len() == w * h,
            w == image.width,
            h == image.height,
            ncols == w / 2,
            nrows == h / 2,
            r <= nrows,
            data.len() == r * ncols,
            forall|y: int, x: int|
                0 <= y < r && 0 <= x < ncols ==> #[trigger] data@[y * ncols + x] == tidied(
                    src@[(y * 2) * w + x * 2],
                ),
        decreases nrows - r,
    {
        let mut c: usize = 0;
        proof {
            assert(r * ncols + ncols == (r + 1) * ncols) by (nonlinear_arith);
        }
        while c < ncols
            invariant
                src.len() == w * h,
                w == image.width,
                h == image.height,
                ncols == w / 2,
                nrows == h / 2,
                r < nrows,
                c <= ncols,
                data.len() == r * ncols + c,
                forall|y: int, x: int|
                    0 <= y < r && 0 <= x < ncols ==> #[trigger] data@[y * ncols + x] == tidied(
                        src@[(y * 2) * w + x * 2],
                    ),
                forall|x: int|
                    0 <= x < c ==> #[trigger] data@[r * ncols + x] == tidied(
                        src@[(r * 2) * w + x * 2],
                    ),
            decreases ncols - c,
        {
            proof {
                lemma_thin_index(w as int, h, ncols as int, nrows as int, r as int, c as int);
            }
            let v = src[(r * 2) * w + c * 2];
            let ghost before = data@;
            if v.is_finite() && (Single { bits: SPURIOUS_BITS }).lt(v) {
                data.push(v);
            } else {
                data.push(Single { bits: NODATA_SINGLE_BITS });
            }
            proof {
                assert forall|y: int, x: int| 0 <= y < r && 0 <= x < ncols implies #[trigger] data@[y
                    * ncols + x] == tidied(src@[(y * 2) * w + x * 2]) by {
                    lemma_earlier_row(ncols as int, r as int, y, x);
                    assert(before[y * ncols + x] == data@[y * ncols + x]);
                }
            }
            c = c + 1;
        }
        proof {
            assert forall|y: int, x: int| 0 <= y < r + 1 && 0 <= x < ncols implies #[trigger] data@[y
                * ncols + x] == tidied(src@[(y * 2) * w + x * 2]) by {
                if y == r {
                    assert(data@[r * ncols + x] == tidied(src@[(r * 2) * w + x * 2]));
                }
            }
        }
        r = r + 1;
    }
    proof {
        assert(ncols * nrows == nrows * ncols) by (nonlinear_arith);
    }
    Ok(Thinned { ncols, nrows, data })
}

proof fn lemma_earlier_row(ncols: int, r: int, y: int, x: int)
    requires
        0 <= y < r,
        0 <= x < ncols,
    ensures
        0 <= y * ncols + x < r * ncols,
{
    assert(0 <= y * ncols + x < r * ncols) by (nonlinear_arith)
        requires
            0 <= y < r,
            0 <= x < ncols,
    ;
}

/// Decode a tile's GeoTIFF from its zip and thin it.
pub fn decode_tif(archive: &[u8], tif: &str) -> (r: Result<Thinned, LidarError>)
    ensures
        match zip_entry(archive@, tif@) {
            None => r matches Err(LidarError::Zip(_)),
            Some(raster) => if !counts_fit(raster) {
                r matches Err(LidarError::Counts)
            } else if jpeg_coded(raster) {
                r matches Err(LidarError::Jpeg)
            } else {
                match tiff_raster(raster) {
                    None => r matches Err(LidarError::Tiff(_)),
                    Some(image) => thinned(image, r),
                }
            },
        },
{
    let buf = match archive_entry(archive, tif) {
        Ok(b) => b,
        Err(e) => return Err(LidarError::Zip(e)),
    };
    if !check_counts(buf.as_slice()) {
        return Err(LidarError::Counts);
    }
    if check_jpeg(buf.as_slice()) {
        return Err(LidarError::Jpeg);
    }
    let image = match decode_raster(buf.as_slice()) {
        Ok(i) => i,
        Err(e) => return Err(LidarError::Tiff(e)),
    };
    decimate(&image)
}

/// A name ends in a suffix exactly if its last characters are those of the suffix, in
/// whichever case of the ASCII letters.
pub proof fn suffixes_ignore_case(name: Seq<char>, tail: Seq<char>, suffix: Seq<char>)
    requires
        tail.len() == suffix.len(),
    ensures
        ends_in(name + tail, suffix) <==> forall|k: int|
            0 <= k < suffix.len() ==> lower(tail[k]) == #[trigger] suffix[k],
        name.len() < suffix.len() ==> !ends_in(name, suffix),
{
    let s = name + tail;
    assert(forall|k: int| 0 <= k < suffix.len() ==> s[s.len() - suffix.len() + k] == #[trigger] tail[k]);
    if ends_in(s, suffix) {
        assert forall|k: int| 0 <= k < suffix.len() implies lower(tail[k]) == #[trigger] suffix[k] by {
            assert(s[s.len() - suffix.len() + k] == tail[k]);
        }
    }
    if forall|k: int| 0 <= k < suffix.len() ==> lower(tail[k]) == #[trigger] suffix[k] {
        assert forall|k: int| 0 <= k < suffix.len() implies lower(s[s.len() - suffix.len() + k])
            == #[trigger] suffix[k] by {
            assert(s[s.len() - suffix.len() + k] == tail[k]);
        }
    }
}

/// Rasters are named `.tif` or `.tiff`, world files `.tfw`, and no name is both.
pub proof fn rasters_and_world_files_are_told_by_suffix(name: Seq<char>)
    ensures
        names_tif(name) <==> ends_in(name, ".tif"@) || ends_in(name, ".tiff"@),
        names_tfw(name) <==> ends_in(name, ".tfw"@),
        !(names_tif(name) && names_tfw(name)),
{
    reveal_strlit(".tif");
    reveal_strlit(".tiff");
    reveal_strlit(".tfw");
    if ends_in(name, ".tfw"@) {
        assert(lower(name[name.len() - 1]) == ".tfw"@[3]);
        if ends_in(name, ".tif"@) {
            assert(lower(name[name.len() - 1]) == ".tif"@[3]);
        }
        if ends_in(name, ".tiff"@) {
            assert(lower(name[name.len() - 1]) == ".tiff"@[4]);
        }
    }
}

/// Of several rasters the last is taken, and of several world files the last; there is
/// none exactly where no name is one.
pub proof fn the_last_entry_of_each_sort_is_taken(names: Seq<Seq<char>>)
    ensures
        last_tif(names) matches Some(t) ==> {
            &&& 0 <= t < names.len() && names_tif(names[t])
            &&& forall|i: int| t < i < names.len() ==> !names_tif(#[trigger] names[i])
        },
        last_tif(names) is None <==> forall|i: int|
            0 <= i < names.len() ==> !names_tif(#[trigger] names[i]),
        last_tfw(names) matches Some(w) ==> {
            &&& 0 <= w < names.len() && names_tfw(names[w])
            &&& forall|i: int| w < i < names.len() ==> !names_tfw(#[trigger] names[i])
        },
        last_tfw(names) is None <==> forall|i: int|
            0 <= i < names.len() ==> !names_tfw(#[trigger] names[i]),
    decreases names.len(),
{
    if names.len() > 0 {
        let before = names.drop_last();
        the_last_entry_of_each_sort_is_taken(before);
        assert(names[names.len() - 1] == names.last());
        assert(forall|i: int| 0 <= i < before.len() ==> #[trigger] names[i] == before[i]);
        assert(forall|i: int| 0 <= i < before.len() ==> #[trigger] before[i] == names[i]);
    }
}

/// A world file's numbers are those of its words that are numbers, in order.
pub proof fn words_that_are_no_numbers_are_passed_over(words: Seq<Option<Double>>, v: Double)
    ensures
        numbers_of(words.push(Some(v))) == numbers_of(words).push(v),
        numbers_of(words.push(None)) == numbers_of(words),
        numbers_of(Seq::empty()).len() == 0,
{
    assert(words.push(Some(v)).drop_last() =~= words);
    assert(words.push(None::<Double>).drop_last() =~= words);
}

/// A finite height above -10000 m is stored as it is; every other becomes -9999.
pub proof fn spurious_heights_become_no_data(v: Single)
    ensures
        v.finite() && (Single { bits: 0xc61c_4000 }).below(v) ==> tidied(v) == v,
        !v.finite() || !(Single { bits: 0xc61c_4000 }).below(v) ==> tidied(v) == (Single {
            bits: 0xc61c_3c00,
        }),
{
}

/// Thinning halves a raster both ways: the cell in row `r` and column `c` is the sample in
/// row `2 r` and column `2 c`.
pub proof fn thinning_takes_every_second_sample(image: RasterView, t: Thinned, r: int, c: int)
    requires
        thinned(image, Ok(t)),
        0 <= r < t.nrows,
        0 <= c < t.ncols,
    ensures
        t.ncols == image.width as int / 2,
        t.nrows == image.height as int / 2,
        t.data.len() == t.ncols * t.nrows,
        image.samples matches Some(s) && t.data@[r * t.ncols + c] == tidied(
            s[(2 * r) * image.width + 2 * c],
        ),
{
    assert(r * DECIMATE == 2 * r && c * DECIMATE == 2 * c);
}

/// A world file needs six numbers: the first is the pixel's width, the fourth its height, the
/// last two the centre of the upper-left pixel.
pub proof fn world_files_hold_six_numbers(
    words: &Vec<Option<Double>>,
    r: Result<World, LidarError>,
)
    requires
        call_ensures(read_world, (words,), r),
    ensures
        numbers_of(words@).len() < 6 ==> r matches Err(LidarError::ShortTfw),
        numbers_of(words@).len() >= 6 ==> {
            &&& r matches Ok(w)
            &&& w.px == numbers_of(words@)[0] && w.py == numbers_of(words@)[3]
            &&& w.ox == numbers_of(words@)[4] && w.oy == numbers_of(words@)[5]
        },
{
}

/// The raster and the world file of a zip are the last entries named so; without a raster, or
/// with a raster but no world file, the zip is refused.
pub proof fn zips_need_a_raster_and_a_world_file(
    names: &Vec<String>,
    r: Result<(usize, usize), LidarError>,
)
    requires
        call_ensures(choose_entries, (names,), r),
    ensures
        ({
            let views = crate::text::string_views(names@);
            &&& r matches Ok(p) ==> {
                &&& p.0 < views.len() && names_tif(views[p.0 as int])
                &&& p.1 < views.len() && names_tfw(views[p.1 as int])
                &&& forall|i: int| p.0 < i < views.len() ==> !names_tif(#[trigger] views[i])
                &&& forall|i: int| p.1 < i < views.len() ==> !names_tfw(#[trigger] views[i])
            }
            &&& (r matches Err(LidarError::NoTif)) <==> forall|i: int|
                0 <= i < views.len() ==> !names_tif(#[trigger] views[i])
            &&& r is Ok <==> {
                &&& exists|i: int| 0 <= i < views.len() && names_tif(#[trigger] views[i])
                &&& exists|i: int| 0 <= i < views.len() && names_tfw(#[trigger] views[i])
            }
        }),
{
    the_last_entry_of_each_sort_is_taken(crate::text::string_views(names@));
}

/// A thinned grid becomes a tile of two-metre cells with the same heights, whose no-data value
/// is -9999.
pub proof fn thinned_grids_have_two_metre_cells(t: Thinned, xll: Double, yll: Double, tile: AscTile)
    requires
        t.valid(),
        call_ensures(Thinned::into_tile, (t, xll, yll), tile),
    ensures
        tile.data@ == t.data@,
        tile.header.ncols == t.ncols && tile.header.nrows == t.nrows,
        tile.header.xllcorner == xll && tile.header.yllcorner == yll,
        tile.header.cellsize == (Double { bits: 0x4000_0000_0000_0000 }),
        tile.header.nodata == (Double { bits: 0xc0c3_8780_0000_0000 }),
{
}

}

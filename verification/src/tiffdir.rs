//! The first directory of a TIFF file, as far as it decides what the decoder can
//! be given: the counts that it multiplies before it has checked them, and how the
//! image is compressed.

use vstd::prelude::*;

verus! {

/// Directory tags.
pub const IMAGE_WIDTH: u16 = 256;

pub const IMAGE_LENGTH: u16 = 257;

pub const COMPRESSION: u16 = 259;

pub const SAMPLES_PER_PIXEL: u16 = 277;

pub const TILE_WIDTH: u16 = 322;

pub const TILE_LENGTH: u16 = 323;

/// The [`COMPRESSION`] of images that are stored as JPEG.
pub const JPEG: u16 = 7;

/// How a file writes its numbers.
#[derive(Debug, Clone, Copy, PartialEq, Eq, Structural)]
pub struct Layout {
    /// Most significant byte first.
    pub big_endian: bool,
    /// BigTIFF: counts and offsets take eight bytes.
    pub wide: bool,
}

/// The two-byte number at `at`.
pub open spec fn short(file: Seq<u8>, at: int, l: Layout) -> int {
    if l.big_endian {
        file[at] * 256 + file[at + 1]
    } else {
        file[at] + file[at + 1] * 256
    }
}

/// The four-byte number at `at`.
pub open spec fn long(file: Seq<u8>, at: int, l: Layout) -> int {
    if l.big_endian {
        short(file, at, l) * 0x1_0000 + short(file, at + 2, l)
    } else {
        short(file, at, l) + short(file, at + 2, l) * 0x1_0000
    }
}

/// The eight-byte number at `at`.
pub open spec fn long8(file: Seq<u8>, at: int, l: Layout) -> int {
    if l.big_endian {
        long(file, at, l) * 0x1_0000_0000 + long(file, at + 4, l)
    } else {
        long(file, at, l) + long(file, at + 4, l) * 0x1_0000_0000
    }
}

fn read_short(file: &[u8], at: usize, l: Layout) -> (r: u16)
    requires
        at + 2 <= file.len(),
    ensures
        r == short(file@, at as int, l),
{
    let (a, b) = (file[at] as u16, file[at + 1] as u16);
    if l.big_endian {
        a * 256 + b
    } else {
        a + b * 256
    }
}

fn read_long(file: &[u8], at: usize, l: Layout) -> (r: u32)
    requires
        at + 4 <= file.len(),
    ensures
        r == long(file@, at as int, l),
{
    let (a, b) = (read_short(file, at, l) as u32, read_short(file, at + 2, l) as u32);
    if l.big_endian {
        a * 0x1_0000 + b
    } else {
        a + b * 0x1_0000
    }
}

fn read_long8(file: &[u8], at: usize, l: Layout) -> (r: u64)
    requires
        at + 8 <= file.len(),
    ensures
        r == long8(file@, at as int, l),
{
    let (a, b) = (read_long(file, at, l) as u64, read_long(file, at + 4, l) as u64);
    if l.big_endian {
        a * 0x1_0000_0000 + b
    } else {
        a + b * 0x1_0000_0000
    }
}

/// The layout that a file's first bytes declare: `II` or `MM`, then 42, or 43
/// with eight-byte offsets. `None` where the file is no TIFF.
pub open spec fn layout_of(file: Seq<u8>) -> Option<Layout> {
    let narrow = Layout { big_endian: file[0] == 0x4d, wide: false };
    if file.len() < 8 || file[0] != file[1] || file[0] != 0x49 && file[0] != 0x4d {
        None
    } else if short(file, 2, narrow) == 42 {
        Some(narrow)
    } else if file.len() >= 16 && short(file, 2, narrow) == 43 && short(file, 4, narrow) == 8 && short(
        file,
        6,
        narrow,
    ) == 0 {
        Some(Layout { wide: true, ..narrow })
    } else {
        None
    }
}

fn read_layout(file: &[u8]) -> (r: Option<Layout>)
    ensures
        r == layout_of(file@),
{
    if file.len() < 8 || file[0] != file[1] || file[0] != 0x49 && file[0] != 0x4d {
        return None;
    }
    let narrow = Layout { big_endian: file[0] == 0x4d, wide: false };
    let version: u16 = read_short(file, 2, narrow);
    if version == 42 {
        Some(narrow)
    } else if file.len() >= 16 && version == 43 && read_short(file, 4, narrow) == 8 && read_short(
        file,
        6,
        narrow,
    ) == 0 {
        Some(Layout { big_endian: narrow.big_endian, wide: true })
    } else {
        None
    }
}

/// Where the first directory stands.
pub open spec fn directory_at(file: Seq<u8>, l: Layout) -> int {
    if l.wide {
        long8(file, 8, l)
    } else {
        long(file, 4, l)
    }
}

/// The directory's number of entries takes this many bytes.
pub open spec fn count_size(l: Layout) -> int {
    if l.wide {
        8
    } else {
        2
    }
}

/// The number of entries that a directory at `at` announces.
pub open spec fn entry_count(file: Seq<u8>, at: int, l: Layout) -> int {
    if l.wide {
        long8(file, at, l)
    } else {
        short(file, at, l)
    }
}

/// A value type that the format defines.
pub open spec fn known_type(t: int) -> bool {
    1 <= t <= 13 || 16 <= t <= 18
}

/// How many bytes the entry at `at` takes. Entries of unknown types are passed
/// over in their narrow form.
pub open spec fn entry_size(file: Seq<u8>, at: int, l: Layout) -> int {
    if l.wide && known_type(short(file, at + 2, l)) {
        20
    } else {
        12
    }
}

/// The last entry for `tag` among `n` entries from `at` on, as far as the file
/// holds them.
pub open spec fn find_entry(file: Seq<u8>, at: int, n: int, tag: int, l: Layout) -> Option<int>
    decreases n,
{
    if n <= 0 || at + 4 > file.len() || at + entry_size(file, at, l) > file.len() {
        None
    } else {
        let size = entry_size(file, at, l);
        match find_entry(file, at + size, n - 1, tag, l) {
            Some(later) => Some(later),
            None => if short(file, at, l) == tag && known_type(short(file, at + 2, l)) {
                Some(at)
            } else {
                None
            },
        }
    }
}

/// The unsigned number that the entry at `at` holds, if it holds a single one.
pub open spec fn entry_value(file: Seq<u8>, at: int, l: Layout) -> Option<int> {
    let kind = short(file, at + 2, l);
    let count = if l.wide {
        long8(file, at + 4, l)
    } else {
        long(file, at + 4, l)
    };
    let field = if l.wide {
        at + 12
    } else {
        at + 8
    };
    if count != 1 {
        None
    } else if kind == 1 {
        Some(file[field] as int)
    } else if kind == 3 {
        Some(short(file, field, l))
    } else if kind == 4 || kind == 13 {
        Some(long(file, field, l))
    } else if kind == 16 || kind == 18 {
        if l.wide {
            Some(long8(file, field, l))
        } else if long(file, field, l) + 8 <= file.len() {
            Some(long8(file, long(file, field, l), l))
        } else {
            None
        }
    } else {
        None
    }
}

/// The number that the first directory gives `tag`, or 1 where it gives none.
pub open spec fn directory_number(file: Seq<u8>, tag: int) -> int {
    match layout_of(file) {
        None => 1,
        Some(l) => {
            let at = directory_at(file, l);
            if at + count_size(l) > file.len() {
                1
            } else {
                let n = entry_count(file, at, l);
                match find_entry(file, at + count_size(l), n, tag, l) {
                    None => 1,
                    Some(entry) => match entry_value(file, entry, l) {
                        None => 1,
                        Some(v) => v,
                    },
                }
            }
        },
    }
}

/// The products of an image's counts stay in the decoder's integers. It multiplies
/// strips by samples in 32 bits, and there are no more strips than rows; tiles
/// across, tiles down and samples in a machine word, and there are no more tiles
/// than pixels.
pub open spec fn counts_fit(file: Seq<u8>) -> bool {
    let width = directory_number(file, IMAGE_WIDTH as int);
    let height = directory_number(file, IMAGE_LENGTH as int);
    let samples = directory_number(file, SAMPLES_PER_PIXEL as int);
    &&& width <= u32::MAX
    &&& height <= u32::MAX
    &&& samples <= u16::MAX
    &&& height * samples <= u32::MAX
    &&& width * (height * samples) <= usize::MAX
    &&& width + directory_number(file, TILE_WIDTH as int) <= usize::MAX
    &&& height + directory_number(file, TILE_LENGTH as int) <= usize::MAX
}

/// What an entry found keeps: it stands in the file.
proof fn lemma_entry_inside(file: Seq<u8>, at: int, n: int, tag: int, l: Layout)
    requires
        0 <= at,
    ensures
        find_entry(file, at, n, tag, l) matches Some(e) ==> {
            &&& at <= e
            &&& known_type(short(file, e + 2, l))
            &&& e + entry_size(file, e, l) <= file.len()
        },
    decreases n,
{
    if n > 0 && at + 4 <= file.len() && at + entry_size(file, at, l) <= file.len() {
        lemma_entry_inside(file, at + entry_size(file, at, l), n - 1, tag, l);
    }
}

fn seek_entry(file: &[u8], start: usize, n: u64, tag: u16, l: Layout) -> (r: Option<usize>)
    requires
        start <= file.len(),
    ensures
        match find_entry(file@, start as int, n as int, tag as int, l) {
            Some(e) => r matches Some(p) && p == e,
            None => r is None,
        },
{
    let mut found: Option<usize> = None;
    let mut at: usize = start;
    let mut left: u64 = n;
    while left > 0
        invariant_except_break
            at <= file.len(),
            find_entry(file@, start as int, n as int, tag as int, l) == (match find_entry(
                file@,
                at as int,
                left as int,
                tag as int,
                l,
            ) {
                Some(e) => Some(e),
                None => match found {
                    Some(p) => Some(p as int),
                    None => None,
                },
            }),
        ensures
            find_entry(file@, start as int, n as int, tag as int, l) == (match found {
                Some(p) => Some(p as int),
                None => None,
            }),
        decreases left,
    {
        if file.len() - at < 4 {
            break;
        }
        let kind: u16 = read_short(file, at + 2, l);
        let known = 1 <= kind && kind <= 13 || 16 <= kind && kind <= 18;
        let size: usize = if l.wide && known {
            20
        } else {
            12
        };
        if file.len() - at < size {
            break;
        }
        if read_short(file, at, l) == tag && known {
            found = Some(at);
        }
        at = at + size;
        left = left - 1;
    }
    found
}

fn read_value(file: &[u8], at: usize, l: Layout) -> (r: Option<u64>)
    requires
        known_type(short(file@, at + 2, l)),
        at + entry_size(file@, at as int, l) <= file.len(),
    ensures
        match entry_value(file@, at as int, l) {
            Some(v) => r matches Some(k) && k == v,
            None => r is None,
        },
{
    let kind: u16 = read_short(file, at + 2, l);
    let count: u64 = if l.wide {
        read_long8(file, at + 4, l)
    } else {
        read_long(file, at + 4, l) as u64
    };
    let field: usize = if l.wide {
        at + 12
    } else {
        at + 8
    };
    if count != 1 {
        None
    } else if kind == 1 {
        Some(file[field] as u64)
    } else if kind == 3 {
        Some(read_short(file, field, l) as u64)
    } else if kind == 4 || kind == 13 {
        Some(read_long(file, field, l) as u64)
    } else if kind == 16 || kind == 18 {
        if l.wide {
            return Some(read_long8(file, field, l));
        }
        let far: usize = read_long(file, field, l) as usize;
        if far <= file.len() && file.len() - far >= 8 {
            Some(read_long8(file, far, l))
        } else {
            None
        }
    } else {
        None
    }
}

fn read_number(file: &[u8], tag: u16) -> (r: u64)
    ensures
        r == directory_number(file@, tag as int),
{
    let l = match read_layout(file) {
        Some(l) => l,
        None => return 1,
    };
    let far: u64 = if l.wide {
        read_long8(file, 8, l)
    } else {
        read_long(file, 4, l) as u64
    };
    let size: usize = if l.wide {
        8
    } else {
        2
    };
    if far > file.len() as u64 || file.len() - (far as usize) < size {
        return 1;
    }
    let at: usize = far as usize;
    let n: u64 = if l.wide {
        read_long8(file, at, l)
    } else {
        read_short(file, at, l) as u64
    };
    match seek_entry(file, at + size, n, tag, l) {
        Some(entry) => {
            proof {
                lemma_entry_inside(file@, at + size, n as int, tag as int, l);
            }
            match read_value(file, entry, l) {
                Some(v) => v,
                None => 1,
            }
        },
        None => 1,
    }
}

/// Whether a raster's counts can be multiplied (see [`counts_fit`]). Whatever can
/// be decoded passes: the decoder takes images of at most 2^28 bytes with one,
/// three or four samples.
pub fn check_counts(file: &[u8]) -> (r: bool)
    ensures
        r == counts_fit(file@),
{
    let width: u64 = read_number(file, IMAGE_WIDTH);
    let height: u64 = read_number(file, IMAGE_LENGTH);
    let samples: u64 = read_number(file, SAMPLES_PER_PIXEL);
    let across: u64 = read_number(file, TILE_WIDTH);
    let down: u64 = read_number(file, TILE_LENGTH);
    if width > u32::MAX as u64 || height > u32::MAX as u64 || samples > u16::MAX as u64 {
        return false;
    }
    proof {
        assert(0 <= height * samples <= 0xffff_ffff * 0xffff) by (nonlinear_arith)
            requires
                0 <= height <= 0xffff_ffff,
                0 <= samples <= 0xffff,
        ;
    }
    let rows: u64 = height * samples;
    if rows > u32::MAX as u64 {
        return false;
    }
    proof {
        assert(0 <= width * rows <= 0xffff_ffff * 0xffff_ffff) by (nonlinear_arith)
            requires
                0 <= width <= 0xffff_ffff,
                0 <= rows <= 0xffff_ffff,
        ;
    }
    let max: u64 = usize::MAX as u64;
    width * rows <= max && width <= max && across <= max - width && height <= max && down <= max
        - height
}

/// The image is stored as JPEG. A directory that does not name its compression
/// has none.
pub open spec fn jpeg_coded(file: Seq<u8>) -> bool {
    directory_number(file, COMPRESSION as int) == JPEG
}

/// Whether a raster is stored as JPEG (see [`jpeg_coded`]).
pub fn check_jpeg(file: &[u8]) -> (r: bool)
    ensures
        r == jpeg_coded(file@),
{
    read_number(file, COMPRESSION) == JPEG as u64
}

/// Numbers in a file, in either byte order: the same bytes the other way round are the same
/// number.
pub proof fn byte_orders_mirror_each_other(file: Seq<u8>, at: int, wide: bool)
    requires
        0 <= at,
        at + 4 <= file.len(),
    ensures
        ({
            let little = Layout { big_endian: false, wide };
            let big = Layout { big_endian: true, wide };
            let back = file.reverse();
            let end = file.len() - at;
            &&& short(file, at, little) == file[at] + 256 * file[at + 1]
            &&& short(file, at, little) == short(back, end - 2, big)
            &&& long(file, at, little) == file[at] + 0x100 * file[at + 1] + 0x1_0000 * file[at + 2]
                + 0x100_0000 * file[at + 3]
            &&& long(file, at, little) == long(back, end - 4, big)
        }),
{
    let back = file.reverse();
    let end = file.len() - at;
    assert(back[end - 1] == file[at] && back[end - 2] == file[at + 1]);
    assert(back[end - 3] == file[at + 2] && back[end - 4] == file[at + 3]);
}

/// Eight-byte numbers are two four-byte ones, the more significant one last or, the other
/// way round, first.
pub proof fn long_numbers_have_two_halves(file: Seq<u8>, at: int, l: Layout)
    ensures
        !l.big_endian ==> long8(file, at, l) == long(file, at, l) + 0x1_0000_0000 * long(file, at + 4, l),
        l.big_endian ==> long8(file, at, l) == 0x1_0000_0000 * long(file, at, l) + long(file, at + 4, l),
{
}

/// A TIFF file opens with two equal letters and the number 42, or 43 and the size of its
/// offsets; the letter tells the byte order.
pub proof fn files_open_with_their_byte_order(file: Seq<u8>)
    requires
        file.len() >= 16,
    ensures
        layout_of(file) == Some(Layout { big_endian: false, wide: false }) <==> file.take(4) == seq![
            0x49u8,
            0x49,
            42,
            0,
        ],
        layout_of(file) == Some(Layout { big_endian: true, wide: false }) <==> file.take(4) == seq![
            0x4du8,
            0x4d,
            0,
            42,
        ],
        layout_of(file) == Some(Layout { big_endian: false, wide: true }) <==> file.take(8) == seq![
            0x49u8,
            0x49,
            43,
            0,
            8,
            0,
            0,
            0,
        ],
        layout_of(file) == Some(Layout { big_endian: true, wide: true }) <==> file.take(8) == seq![
            0x4du8,
            0x4d,
            0,
            43,
            0,
            8,
            0,
            0,
        ],
{
    let four = file.take(4);
    let eight = file.take(8);
    assert(four[0] == file[0] && four[1] == file[1] && four[2] == file[2] && four[3] == file[3]);
    assert(eight[0] == file[0] && eight[1] == file[1] && eight[2] == file[2] && eight[3] == file[3]);
    assert(eight[4] == file[4] && eight[5] == file[5] && eight[6] == file[6] && eight[7] == file[7]);
    let (a, b) = (seq![0x49u8, 0x49, 42, 0], seq![0x4du8, 0x4d, 0, 42]);
    let c = seq![0x49u8, 0x49, 43, 0, 8, 0, 0, 0];
    let d = seq![0x4du8, 0x4d, 0, 43, 0, 8, 0, 0];
    assert(a[0] == 0x49 && a[1] == 0x49 && a[2] == 42 && a[3] == 0);
    assert(b[0] == 0x4d && b[1] == 0x4d && b[2] == 0 && b[3] == 42);
    assert(c[0] == 0x49 && c[1] == 0x49 && c[2] == 43 && c[3] == 0);
    assert(c[4] == 8 && c[5] == 0 && c[6] == 0 && c[7] == 0);
    assert(d[0] == 0x4d && d[1] == 0x4d && d[2] == 0 && d[3] == 43);
    assert(d[4] == 0 && d[5] == 8 && d[6] == 0 && d[7] == 0);
    if layout_of(file) == Some(Layout { big_endian: false, wide: false }) {
        assert(four =~= a);
    }
    if layout_of(file) == Some(Layout { big_endian: true, wide: false }) {
        assert(four =~= b);
    }
    if layout_of(file) == Some(Layout { big_endian: false, wide: true }) {
        assert(eight =~= c);
    }
    if layout_of(file) == Some(Layout { big_endian: true, wide: true }) {
        assert(eight =~= d);
    }
}

/// Of several entries for one tag the last counts, and only those of a known type.
pub proof fn the_last_entry_counts(file: Seq<u8>, at: int, n: int, tag: int, l: Layout)
    requires
        n > 0,
        at + 4 <= file.len(),
        at + entry_size(file, at, l) <= file.len(),
    ensures
        ({
            let later = find_entry(file, at + entry_size(file, at, l), n - 1, tag, l);
            let here = find_entry(file, at, n, tag, l);
            &&& later is Some ==> here == later
            &&& later is None && short(file, at, l) == tag && known_type(short(file, at + 2, l))
                ==> here == Some(at)
            &&& later is None && (short(file, at, l) != tag || !known_type(short(file, at + 2, l)))
                ==> here is None
        }),
        find_entry(file, at, 0, tag, l) is None,
        known_type(short(file, at + 2, l)) <==> 1 <= short(file, at + 2, l) <= 18 && short(
            file,
            at + 2,
            l,
        ) != 14 && short(file, at + 2, l) != 15,
        entry_size(file, at, l) == 20 <==> l.wide && known_type(short(file, at + 2, l)),
        entry_size(file, at, l) == 12 || entry_size(file, at, l) == 20,
{
}

/// Counts that fit leave every product of the decoder in range: strips by samples in 32
/// bits, and pixels by samples in a machine word.
pub proof fn fitting_counts_can_be_multiplied(file: Seq<u8>)
    requires
        counts_fit(file),
    ensures
        directory_number(file, 257) * directory_number(file, 277) <= u32::MAX,
        directory_number(file, 256) * (directory_number(file, 257) * directory_number(file, 277))
            <= usize::MAX,
        directory_number(file, 256) + directory_number(file, 322) <= usize::MAX,
        directory_number(file, 257) + directory_number(file, 323) <= usize::MAX,
        jpeg_coded(file) <==> directory_number(file, 259) == 7,
{
}

/// An entry with one value holds it behind its count, in as many bytes as its type says; an
/// entry with several values, or of a type that is no unsigned number, gives none.
pub proof fn entries_hold_one_number(file: Seq<u8>, at: int, l: Layout)
    ensures
        ({
            let kind = short(file, at + 2, l);
            let v = entry_value(file, at, l);
            &&& l.wide && long8(file, at + 4, l) != 1 ==> v is None
            &&& !l.wide && long(file, at + 4, l) != 1 ==> v is None
            &&& !l.wide && long(file, at + 4, l) == 1 ==> {
                &&& kind == 1 ==> v == Some(file[at + 8] as int)
                &&& kind == 3 ==> v == Some(short(file, at + 8, l))
                &&& kind == 4 || kind == 13 ==> v == Some(long(file, at + 8, l))
                &&& kind == 16 || kind == 18 ==> (v is Some <==> long(file, at + 8, l) + 8
                    <= file.len())
            }
            &&& l.wide && long8(file, at + 4, l) == 1 ==> {
                &&& kind == 1 ==> v == Some(file[at + 12] as int)
                &&& kind == 3 ==> v == Some(short(file, at + 12, l))
                &&& kind == 4 || kind == 13 ==> v == Some(long(file, at + 12, l))
                &&& kind == 16 || kind == 18 ==> v == Some(long8(file, at + 12, l))
            }
            &&& kind != 1 && kind != 3 && kind != 4 && kind != 13 && kind != 16 && kind != 18 ==> v is None
        }),
{
}

/// A number that the first directory gives is that of its entry; what is no TIFF, has no
/// directory, or has no such entry counts as one.
pub proof fn missing_numbers_count_as_one(file: Seq<u8>, tag: int)
    ensures
        layout_of(file) is None ==> directory_number(file, tag) == 1,
        layout_of(file) matches Some(l) ==> ({
            let at = if l.wide {
                long8(file, 8, l)
            } else {
                long(file, 4, l)
            };
            let (n, entries) = if l.wide {
                (long8(file, at, l), at + 8)
            } else {
                (short(file, at, l), at + 2)
            };
            &&& entries > file.len() ==> directory_number(file, tag) == 1
            &&& entries <= file.len() ==> match find_entry(file, entries, n, tag, l) {
                None => directory_number(file, tag) == 1,
                Some(e) => match entry_value(file, e, l) {
                    None => directory_number(file, tag) == 1,
                    Some(v) => directory_number(file, tag) == v,
                },
            }
        }),
{
}

}

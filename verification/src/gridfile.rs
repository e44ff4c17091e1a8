//! The file format that keeps decoded grids on disk, so that a relaunch skips
//! the zip and TIFF work: an 8-byte magic, the decimation, the header in
//! little-endian order, then one little-endian binary32 number per cell.

use vstd::prelude::*;
use crate::asc::{AscHeader, AscTile};
use crate::ieee::{Double, Single};
use crate::lidar::DECIMATE;

verus! {

/// Where the cells begin.
pub const BODY_AT: usize = 52;

/// The magic: `AHLDTM01`.
pub open spec fn magic() -> Seq<u8> {
    seq![0x41u8, 0x48, 0x4c, 0x44, 0x54, 0x4d, 0x30, 0x31]
}

/// The four bytes of `x`, lowest first.
#[verifier::opaque]
pub open spec fn le32(x: u32) -> Seq<u8> {
    seq![(x % 256) as u8, (x / 256 % 256) as u8, (x / 0x1_0000 % 256) as u8, (x / 0x100_0000) as u8]
}

/// The eight bytes of `x`, lowest first.
#[verifier::opaque]
pub open spec fn le64(x: u64) -> Seq<u8> {
    le32((x % 0x1_0000_0000) as u32) + le32((x / 0x1_0000_0000) as u32)
}

/// The number whose bytes stand at `at`.
#[verifier::opaque]
pub open spec fn read32(s: Seq<u8>, at: int) -> u32 {
    (s[at] + s[at + 1] * 256 + s[at + 2] * 0x1_0000 + s[at + 3] * 0x100_0000) as u32
}

#[verifier::opaque]
pub open spec fn read64(s: Seq<u8>, at: int) -> u64 {
    (read32(s, at) + read32(s, at + 4) * 0x1_0000_0000) as u64
}

/// The bytes of the cells.
pub open spec fn body_bytes(data: Seq<Single>) -> Seq<u8>
    decreases data.len(),
{
    if data.len() == 0 {
        Seq::empty()
    } else {
        body_bytes(data.drop_last()) + le32(data.last().bits)
    }
}

/// A tile's contents.
pub struct Grid {
    pub header: AscHeader,
    pub data: Seq<Single>,
}

pub open spec fn head_bytes(h: AscHeader) -> Seq<u8> {
    magic() + le32(DECIMATE) + le32((h.ncols as int % 0x1_0000_0000) as u32) + le32(
        (h.nrows as int % 0x1_0000_0000) as u32,
    ) + le64(h.xllcorner.bits) + le64(h.yllcorner.bits) + le64(h.cellsize.bits) + le64(
        h.nodata.bits,
    )
}

/// The file that holds a grid.
pub open spec fn grid_bytes(g: Grid) -> Seq<u8> {
    head_bytes(g.header) + body_bytes(g.data)
}

/// Why a file is not used; the raster is decoded again instead.
#[derive(Debug, Clone, Copy, PartialEq, Eq, Structural)]
pub enum CacheError {
    /// Too short, or not a grid file.
    BadHeader,
    /// Written with another decimation.
    Stale,
    /// The cells do not fill the grid, or overfill it.
    BodySize,
}

pub open spec fn header_in(s: Seq<u8>) -> AscHeader {
    AscHeader {
        ncols: read32(s, 12) as usize,
        nrows: read32(s, 16) as usize,
        xllcorner: Double { bits: read64(s, 20) },
        yllcorner: Double { bits: read64(s, 28) },
        cellsize: Double { bits: read64(s, 36) },
        nodata: Double { bits: read64(s, 44) },
    }
}

pub open spec fn cells_in(s: Seq<u8>) -> Seq<Single> {
    Seq::new(
        ((s.len() - BODY_AT) / 4) as nat,
        |i: int| Single { bits: read32(s, BODY_AT + 4 * i) },
    )
}

/// The grid that a file holds.
pub open spec fn grid_in(s: Seq<u8>) -> Result<Grid, CacheError> {
    if s.len() < BODY_AT || s.take(8) != magic() {
        Err(CacheError::BadHeader)
    } else if read32(s, 8) != DECIMATE {
        Err(CacheError::Stale)
    } else if s.len() - BODY_AT != read32(s, 12) * read32(s, 16) * 4 {
        Err(CacheError::BodySize)
    } else {
        Ok(Grid { header: header_in(s), data: cells_in(s) })
    }
}

fn push32(out: &mut Vec<u8>, x: u32)
    ensures
        final(out)@ == old(out)@ + le32(x),
{
    proof {
        reveal(le32);
    }
    out.push((x % 256) as u8);
    out.push((x / 256 % 256) as u8);
    out.push((x / 0x1_0000 % 256) as u8);
    out.push((x / 0x100_0000) as u8);
    proof {
        assert(out@ =~= old(out)@ + le32(x));
    }
}

fn push64(out: &mut Vec<u8>, x: u64)
    ensures
        final(out)@ == old(out)@ + le64(x),
{
    proof {
        reveal(le64);
    }
    push32(out, (x % 0x1_0000_0000) as u32);
    push32(out, (x / 0x1_0000_0000) as u32);
    proof {
        assert(out@ =~= old(out)@ + le64(x));
    }
}

/// The file for a tile.
pub fn encode_grid(tile: &AscTile) -> (out: Vec<u8>)
    ensures
        out@ == grid_bytes(Grid { header: tile.header, data: tile.data@ }),
{
    let h = tile.header;
    let mut out: Vec<u8> = Vec::new();
    out.push(0x41);
    out.push(0x48);
    out.push(0x4c);
    out.push(0x44);
    out.push(0x54);
    out.push(0x4d);
    out.push(0x30);
    out.push(0x31);
    proof {
        assert(out@ =~= magic());
    }
    push32(&mut out, DECIMATE);
    push32(&mut out, (h.ncols as u64 % 0x1_0000_0000) as u32);
    push32(&mut out, (h.nrows as u64 % 0x1_0000_0000) as u32);
    push64(&mut out, h.xllcorner.bits);
    push64(&mut out, h.yllcorner.bits);
    push64(&mut out, h.cellsize.bits);
    push64(&mut out, h.nodata.bits);
    let ghost head = out@;
    proof {
        assert(head =~= head_bytes(h));
    }
    let mut i: usize = 0;
    proof {
        assert(head + Seq::<u8>::empty() =~= head);
        assert(tile.data@.take(0) =~= Seq::<Single>::empty());
    }
    while i < tile.data.len()
        invariant
            i <= tile.data.len(),
            out@ == head + body_bytes(tile.data@.take(i as int)),
        decreases tile.data.len() - i,
    {
        push32(&mut out, tile.data[i].bits);
        proof {
            let next = tile.data@.take(i as int + 1);
            assert(next.drop_last() =~= tile.data@.take(i as int));
            assert(out@ =~= head + body_bytes(next));
        }
        i = i + 1;
    }
    proof {
        assert(tile.data@.take(i as int) =~= tile.data@);
    }
    out
}

fn get32(s: &[u8], at: usize) -> (r: u32)
    requires
        at + 4 <= s.len(),
    ensures
        r == read32(s@, at as int),
{
    proof {
        reveal(read32);
    }
    s[at] as u32 + s[at + 1] as u32 * 256 + s[at + 2] as u32 * 0x1_0000 + s[at + 3] as u32
        * 0x100_0000
}

fn get64(s: &[u8], at: usize) -> (r: u64)
    requires
        at + 8 <= s.len(),
    ensures
        r == read64(s@, at as int),
{
    proof {
        reveal(read64);
    }
    get32(s, at) as u64 + get32(s, at + 4) as u64 * 0x1_0000_0000
}

fn has_magic(s: &[u8]) -> (r: bool)
    requires
        s.len() >= 8,
    ensures
        r == (s@.take(8) == magic()),
{
    let r = s[0] == 0x41 && s[1] == 0x48 && s[2] == 0x4c && s[3] == 0x44 && s[4] == 0x54 && s[5]
        == 0x4d && s[6] == 0x30 && s[7] == 0x31;
    proof {
        let t = s@.take(8);
        if r {
            assert(t =~= magic());
        } else if t == magic() {
            assert(t[0] == 0x41 && t[1] == 0x48 && t[2] == 0x4c && t[3] == 0x44 && t[4] == 0x54 && t[5]
                == 0x4d && t[6] == 0x30 && t[7] == 0x31);
        }
    }
    r
}

/// Read a grid file. Errors (stale or corrupt) just mean that the raster has to
/// be decoded instead.
pub fn decode_grid(bytes: &[u8]) -> (r: Result<AscTile, CacheError>)
    ensures
        match grid_in(bytes@) {
            Err(e) => r == Err::<AscTile, CacheError>(e),
            Ok(g) => r matches Ok(t) && t.header == g.header && t.data@ == g.data && t.valid(),
        },
{
    if bytes.len() < BODY_AT || !has_magic(bytes) {
        return Err(CacheError::BadHeader);
    }
    if get32(bytes, 8) != DECIMATE {
        return Err(CacheError::Stale);
    }
    let ncols: u32 = get32(bytes, 12);
    let nrows: u32 = get32(bytes, 16);
    proof {
        assert(0 <= ncols * nrows <= 0xffff_ffff * 0xffff_ffff) by (nonlinear_arith)
            requires
                0 <= ncols <= 0xffff_ffff,
                0 <= nrows <= 0xffff_ffff,
        ;
    }
    let cells: u128 = ncols as u128 * nrows as u128;
    if (bytes.len() - BODY_AT) as u128 != cells * 4 {
        return Err(CacheError::BodySize);
    }
    let n: usize = (bytes.len() - BODY_AT) / 4;
    let mut data: Vec<Single> = Vec::new();
    let mut i: usize = 0;
    while i < n
        invariant
            i <= n,
            n * 4 + BODY_AT == bytes.len(),
            data.len() == i,
            forall|k: int|
                0 <= k < i ==> #[trigger] data@[k] == (Single {
                    bits: read32(bytes@, BODY_AT + 4 * k),
                }),
        decreases n - i,
    {
        data.push(Single { bits: get32(bytes, BODY_AT + 4 * i) });
        i = i + 1;
    }
    let header = AscHeader {
        ncols: ncols as usize,
        nrows: nrows as usize,
        xllcorner: Double { bits: get64(bytes, 20) },
        yllcorner: Double { bits: get64(bytes, 28) },
        cellsize: Double { bits: get64(bytes, 36) },
        nodata: Double { bits: get64(bytes, 44) },
    };
    proof {
        assert(data@ =~= cells_in(bytes@));
    }
    Ok(AscTile { header, data })
}

proof fn lemma_lengths()
    ensures
        forall|x: u32| #[trigger] le32(x).len() == 4,
        forall|x: u64| #[trigger] le64(x).len() == 8,
{
    reveal(le32);
    reveal(le64);
}

proof fn lemma_read32(s: Seq<u8>, at: int, x: u32)
    requires
        0 <= at,
        at + 4 <= s.len(),
        s.subrange(at, at + 4) == le32(x),
    ensures
        read32(s, at) == x,
{
    reveal(le32);
    reveal(read32);
    let t = s.subrange(at, at + 4);
    assert(t[0] == s[at] && t[1] == s[at + 1] && t[2] == s[at + 2] && t[3] == s[at + 3]);
}

proof fn lemma_read64(s: Seq<u8>, at: int, x: u64)
    requires
        0 <= at,
        at + 8 <= s.len(),
        s.subrange(at, at + 8) == le64(x),
    ensures
        read64(s, at) == x,
{
    reveal(le64);
    reveal(read64);
    reveal(le32);
    let t = s.subrange(at, at + 8);
    assert(s.subrange(at, at + 4) =~= t.subrange(0, 4));
    assert(s.subrange(at + 4, at + 8) =~= t.subrange(4, 8));
    assert(t.subrange(0, 4) =~= le32((x % 0x1_0000_0000) as u32));
    assert(t.subrange(4, 8) =~= le32((x / 0x1_0000_0000) as u32));
    lemma_read32(s, at, (x % 0x1_0000_0000) as u32);
    lemma_read32(s, at + 4, (x / 0x1_0000_0000) as u32);
}

proof fn lemma_le32(s: Seq<u8>, at: int)
    requires
        0 <= at,
        at + 4 <= s.len(),
    ensures
        le32(read32(s, at)) == s.subrange(at, at + 4),
{
    reveal(le32);
    reveal(read32);
    let x = read32(s, at);
    let (a, b, c, d) = (s[at] as int, s[at + 1] as int, s[at + 2] as int, s[at + 3] as int);
    assert(x == a + b * 256 + c * 0x1_0000 + d * 0x100_0000);
    assert(x % 256 == a);
    assert(x / 256 % 256 == b);
    assert(x / 0x1_0000 % 256 == c);
    assert(x / 0x100_0000 == d);
    assert(le32(x) =~= s.subrange(at, at + 4));
}

proof fn lemma_le64(s: Seq<u8>, at: int)
    requires
        0 <= at,
        at + 8 <= s.len(),
    ensures
        le64(read64(s, at)) == s.subrange(at, at + 8),
{
    reveal(le64);
    reveal(read64);
    reveal(le32);
    lemma_le32(s, at);
    lemma_le32(s, at + 4);
    let x = read64(s, at);
    let (lo, hi) = (read32(s, at), read32(s, at + 4));
    assert(x == lo + hi * 0x1_0000_0000);
    assert(x % 0x1_0000_0000 == lo);
    assert(x / 0x1_0000_0000 == hi);
    assert(le64(x) =~= s.subrange(at, at + 8));
}

proof fn lemma_body(data: Seq<Single>)
    ensures
        body_bytes(data).len() == 4 * data.len(),
        forall|i: int|
            0 <= i < data.len() ==> body_bytes(data).subrange(4 * i, 4 * i + 4) == le32(
                (#[trigger] data[i]).bits,
            ),
    decreases data.len(),
{
    lemma_lengths();
    if data.len() > 0 {
        let rest = data.drop_last();
        lemma_body(rest);
        assert forall|i: int| 0 <= i < data.len() implies body_bytes(data).subrange(4 * i, 4 * i + 4)
            == le32((#[trigger] data[i]).bits) by {
            if i < rest.len() {
                assert(data[i] == rest[i]);
                assert(body_bytes(data).subrange(4 * i, 4 * i + 4) =~= body_bytes(rest).subrange(
                    4 * i,
                    4 * i + 4,
                ));
            } else {
                assert(body_bytes(data).subrange(4 * i, 4 * i + 4) =~= le32(data[i].bits));
            }
        }
    }
}

/// Eight pieces of the header's lengths, and a body, can be cut out of their
/// concatenation again.
proof fn lemma_pieces(
    m: Seq<u8>,
    d: Seq<u8>,
    c: Seq<u8>,
    r: Seq<u8>,
    x: Seq<u8>,
    y: Seq<u8>,
    z: Seq<u8>,
    n: Seq<u8>,
    body: Seq<u8>,
)
    requires
        m.len() == 8,
        d.len() == 4,
        c.len() == 4,
        r.len() == 4,
        x.len() == 8,
        y.len() == 8,
        z.len() == 8,
        n.len() == 8,
    ensures
        ({
            let s = m + d + c + r + x + y + z + n + body;
            &&& s.len() == 52 + body.len()
            &&& s.take(8) == m
            &&& s.subrange(8, 12) == d
            &&& s.subrange(12, 16) == c
            &&& s.subrange(16, 20) == r
            &&& s.subrange(20, 28) == x
            &&& s.subrange(28, 36) == y
            &&& s.subrange(36, 44) == z
            &&& s.subrange(44, 52) == n
            &&& s.skip(52) == body
        }),
{
    let s = m + d + c + r + x + y + z + n + body;
    assert(s.take(8) =~= m);
    assert(s.subrange(8, 12) =~= d);
    assert(s.subrange(12, 16) =~= c);
    assert(s.subrange(16, 20) =~= r);
    assert(s.subrange(20, 28) =~= x);
    assert(s.subrange(28, 36) =~= y);
    assert(s.subrange(36, 44) =~= z);
    assert(s.subrange(44, 52) =~= n);
    assert(s.skip(52) =~= body);
}

/// The pieces of a long enough file make up the file.
proof fn lemma_reassemble(s: Seq<u8>)
    requires
        s.len() >= 52,
    ensures
        s == s.take(8) + s.subrange(8, 12) + s.subrange(12, 16) + s.subrange(16, 20) + s.subrange(
            20,
            28,
        ) + s.subrange(28, 36) + s.subrange(36, 44) + s.subrange(44, 52) + s.skip(52),
{
    assert(s =~= s.take(8) + s.subrange(8, 12) + s.subrange(12, 16) + s.subrange(16, 20)
        + s.subrange(20, 28) + s.subrange(28, 36) + s.subrange(36, 44) + s.subrange(44, 52)
        + s.skip(52));
}

proof fn lemma_cells(s: Seq<u8>, data: Seq<Single>)
    requires
        s.len() >= 52,
        s.skip(52) == body_bytes(data),
    ensures
        cells_in(s) == data,
{
    lemma_body(data);
    assert forall|i: int| 0 <= i < data.len() implies #[trigger] cells_in(s)[i] == data[i] by {
        assert(s.subrange(52 + 4 * i, 52 + 4 * i + 4) =~= s.skip(52).subrange(4 * i, 4 * i + 4));
        lemma_read32(s, 52 + 4 * i, data[i].bits);
    }
    assert(cells_in(s) =~= data);
}

proof fn lemma_body_of_cells(s: Seq<u8>)
    requires
        s.len() >= 52,
        (s.len() - 52) % 4 == 0,
    ensures
        body_bytes(cells_in(s)) == s.skip(52),
{
    let data = cells_in(s);
    let body = body_bytes(data);
    lemma_body(data);
    assert forall|j: int| 0 <= j < body.len() implies body[j] == s.skip(52)[j] by {
        let i = j / 4;
        assert(data[i].bits == read32(s, 52 + 4 * i));
        lemma_le32(s, 52 + 4 * i);
        let piece = body.subrange(4 * i, 4 * i + 4);
        assert(piece[j - 4 * i] == body[j]);
        assert(s.subrange(52 + 4 * i, 52 + 4 * i + 4)[j - 4 * i] == s[52 + j]);
    }
    assert(body =~= s.skip(52));
}

/// Reading back a written grid gives that grid, where its counts fit the
/// format's 32-bit fields.
pub proof fn decode_inverts_encode(g: Grid)
    requires
        g.data.len() == g.header.ncols * g.header.nrows,
        g.header.ncols < 0x1_0000_0000,
        g.header.nrows < 0x1_0000_0000,
    ensures
        grid_in(grid_bytes(g)) == Ok::<Grid, CacheError>(g),
{
    let s = grid_bytes(g);
    let h = g.header;
    lemma_lengths();
    lemma_pieces(
        magic(),
        le32(DECIMATE),
        le32(h.ncols as u32),
        le32(h.nrows as u32),
        le64(h.xllcorner.bits),
        le64(h.yllcorner.bits),
        le64(h.cellsize.bits),
        le64(h.nodata.bits),
        body_bytes(g.data),
    );
    lemma_body(g.data);
    lemma_read32(s, 8, DECIMATE);
    lemma_read32(s, 12, h.ncols as u32);
    lemma_read32(s, 16, h.nrows as u32);
    lemma_read64(s, 20, h.xllcorner.bits);
    lemma_read64(s, 28, h.yllcorner.bits);
    lemma_read64(s, 36, h.cellsize.bits);
    lemma_read64(s, 44, h.nodata.bits);
    lemma_cells(s, g.data);
}

/// Writing a grid that was read gives back the very bytes of its file.
pub proof fn encode_inverts_decode(s: Seq<u8>)
    requires
        grid_in(s) is Ok,
    ensures
        grid_bytes(grid_in(s)->Ok_0) == s,
{
    lemma_le32(s, 8);
    lemma_le32(s, 12);
    lemma_le32(s, 16);
    lemma_le64(s, 20);
    lemma_le64(s, 28);
    lemma_le64(s, 36);
    lemma_le64(s, 44);
    let cells = read32(s, 12) * read32(s, 16);
    assert((s.len() - 52) % 4 == 0) by {
        assert(s.len() - 52 == cells * 4);
    }
    lemma_body_of_cells(s);
    lemma_reassemble(s);
}

/// Numbers are stored lowest byte first.
pub proof fn numbers_are_little_endian(x: u32, y: u64)
    ensures
        le32(x).len() == 4,
        x == le32(x)[0] + 0x100 * le32(x)[1] + 0x1_0000 * le32(x)[2] + 0x100_0000 * le32(x)[3],
        le64(y).len() == 8,
        le64(y).take(4) == le32((y % 0x1_0000_0000) as u32),
        le64(y).skip(4) == le32((y / 0x1_0000_0000) as u32),
{
    reveal(le32);
    reveal(le64);
    assert(le64(y).take(4) =~= le32((y % 0x1_0000_0000) as u32));
    assert(le64(y).skip(4) =~= le32((y / 0x1_0000_0000) as u32));
}

/// Where everything stands in a grid file: the magic, the decimation of two, the counts of
/// columns and rows, the corner, the cell size, the no-data value, and then the cells.
pub proof fn grid_files_have_a_fixed_layout(g: Grid, i: int)
    requires
        g.header.ncols < 0x1_0000_0000,
        g.header.nrows < 0x1_0000_0000,
        0 <= i < g.data.len(),
    ensures
        ({
            let s = grid_bytes(g);
            let h = g.header;
            &&& s.len() == 52 + 4 * g.data.len()
            &&& s.take(8) == seq![0x41u8, 0x48, 0x4c, 0x44, 0x54, 0x4d, 0x30, 0x31]
            &&& s.subrange(8, 12) == le32(2)
            &&& s.subrange(12, 16) == le32(h.ncols as u32)
            &&& s.subrange(16, 20) == le32(h.nrows as u32)
            &&& s.subrange(20, 28) == le64(h.xllcorner.bits)
            &&& s.subrange(28, 36) == le64(h.yllcorner.bits)
            &&& s.subrange(36, 44) == le64(h.cellsize.bits)
            &&& s.subrange(44, 52) == le64(h.nodata.bits)
            &&& s.subrange(52 + 4 * i, 56 + 4 * i) == le32(g.data[i].bits)
        }),
{
    let h = g.header;
    let s = grid_bytes(g);
    lemma_lengths();
    lemma_pieces(
        magic(),
        le32(DECIMATE),
        le32(h.ncols as u32),
        le32(h.nrows as u32),
        le64(h.xllcorner.bits),
        le64(h.yllcorner.bits),
        le64(h.cellsize.bits),
        le64(h.nodata.bits),
        body_bytes(g.data),
    );
    lemma_body(g.data);
    assert(s.subrange(52 + 4 * i, 56 + 4 * i) =~= s.skip(52).subrange(4 * i, 4 * i + 4));
}

/// A file is refused exactly if it is too short or lacks the magic, if its decimation is
/// not two, or if its cells do not fill its columns and rows; and in this order.
pub proof fn grid_files_are_checked_in_order(s: Seq<u8>)
    ensures
        grid_in(s) == Err::<Grid, CacheError>(CacheError::BadHeader) <==> s.len() < 52 || s.take(8)
            != magic(),
        grid_in(s) == Err::<Grid, CacheError>(CacheError::Stale) <==> s.len() >= 52 && s.take(8)
            == magic() && read32(s, 8) != 2,
        grid_in(s) is Ok <==> s.len() >= 52 && s.take(8) == magic() && read32(s, 8) == 2 && s.len()
            == 52 + 4 * (read32(s, 12) * read32(s, 16)),
{
}

}

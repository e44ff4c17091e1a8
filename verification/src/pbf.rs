//! The numbers in an OpenStreetMap extract (`.osm.pbf`): whether every sum and
//! product that its reader forms stays in range. The reader adds up the deltas of
//! dense nodes, and scales coordinates when asked for them, without looking; here
//! the same bytes are walked first, as far as the reader goes.

use std::collections::HashSet;
use std::io::Read;
use vstd::prelude::*;

verus! {

/// A header this long or longer is no header.
pub const MAX_HEADER: u64 = 0x1_0000;

/// The most that a compressed block is inflated to.
pub const MAX_BLOCK: u64 = 0x200_0000;

/// The number in base 128, least significant digit first, at `at`; `k` of its at
/// most ten bytes have been read. Also the place behind it.
pub open spec fn varint(b: Seq<u8>, at: int, end: int, k: int) -> Option<(int, int)>
    decreases 10 - k,
{
    if k >= 10 || at >= end {
        None
    } else if b[at] < 128 {
        if k == 9 && b[at] > 1 {
            None
        } else {
            Some((b[at] as int, at + 1))
        }
    } else {
        match varint(b, at + 1, end, k + 1) {
            Some((high, next)) => Some((b[at] - 128 + 128 * high, next)),
            None => None,
        }
    }
}

/// What the bytes from number `k` on can still count up to.
spec fn room(k: int) -> int
    decreases 9 - k,
{
    if k >= 9 {
        2
    } else {
        128 * room(k + 1)
    }
}

proof fn lemma_room(k: int)
    requires
        0 <= k <= 10,
    ensures
        2 <= room(k) <= 0x1_0000_0000_0000_0000,
        k < 9 ==> room(k) == 128 * room(k + 1),
{
    reveal_with_fuel(room, 11);
}

fn read_digits(b: &[u8], at: usize, end: usize, k: u8) -> (r: Option<(u64, usize)>)
    requires
        at <= end <= b.len(),
        k <= 10,
    ensures
        match varint(b@, at as int, end as int, k as int) {
            Some((v, next)) => {
                &&& r matches Some(p)
                &&& p.0 == v && p.1 == next
                &&& v < room(k as int)
                &&& at < next <= end
            },
            None => r is None,
        },
    decreases 10 - k,
{
    if k >= 10 || at >= end {
        return None;
    }
    proof {
        lemma_room(k as int);
        lemma_room(k + 1);
    }
    let d: u8 = b[at];
    if d < 128 {
        if k == 9 && d > 1 {
            return None;
        }
        return Some((d as u64, at + 1));
    }
    match read_digits(b, at + 1, end, k + 1) {
        Some((high, next)) => {
            Some(((d - 128) as u64 + 128 * high, next))
        },
        None => None,
    }
}

fn read_varint(b: &[u8], at: usize, end: usize) -> (r: Option<(u64, usize)>)
    requires
        at <= end <= b.len(),
    ensures
        match varint(b@, at as int, end as int, 0) {
            Some((v, next)) => {
                &&& r matches Some(p)
                &&& p.0 == v && p.1 == next
                &&& 0 <= v <= u64::MAX
                &&& at < next <= end
            },
            None => r is None,
        },
{
    if at < end && b[at] < 128 {
        return Some((b[at] as u64, at + 1));
    }
    read_digits(b, at, end, 0)
}

/// What a field holds: a number, bytes from one place up to another, or neither.
#[derive(Debug, Clone, Copy, PartialEq, Eq, Structural)]
pub enum Body {
    Number(u64),
    Span(usize, usize),
    Fixed,
    /// A group begins.
    Open,
    /// A group ends.
    Close,
}

#[derive(Debug, Clone, Copy, PartialEq, Eq, Structural)]
pub struct Field {
    pub number: u32,
    pub body: Body,
}

/// The field at `at`, and the place behind it. Bytes that would go on behind the
/// end stop there.
pub open spec fn next_field(b: Seq<u8>, at: int, end: int) -> Option<(Field, int)> {
    match varint(b, at, end, 0) {
        None => None,
        Some((tag, p)) => {
            let number = (tag / 8) as u32;
            let wire = tag % 8;
            if tag > u32::MAX {
                None
            } else if wire == 0 {
                match varint(b, p, end, 0) {
                    Some((v, next)) => Some((Field { number, body: Body::Number(v as u64) }, next)),
                    None => None,
                }
            } else if wire == 2 {
                match varint(b, p, end, 0) {
                    Some((n, q)) => {
                        let stop = clipped(q, n, end);
                        Some((Field { number, body: Body::Span(q as usize, stop as usize) }, stop))
                    },
                    None => None,
                }
            } else if wire == 1 && p + 8 <= end {
                Some((Field { number, body: Body::Fixed }, p + 8))
            } else if wire == 5 && p + 4 <= end {
                Some((Field { number, body: Body::Fixed }, p + 4))
            } else if wire == 3 {
                Some((Field { number, body: Body::Open }, p))
            } else if wire == 4 {
                Some((Field { number, body: Body::Close }, p))
            } else {
                None
            }
        },
    }
}

/// The place `n` bytes behind `at`, or the end.
pub open spec fn clipped(at: int, n: int, end: int) -> int {
    if n < end - at {
        at + n
    } else {
        end
    }
}

fn clip(at: usize, n: u64, end: usize) -> (r: usize)
    requires
        at <= end,
    ensures
        r == clipped(at as int, n as int, end as int),
        at <= r <= end,
{
    if n < (end - at) as u64 {
        at + n as usize
    } else {
        end
    }
}

fn read_field(b: &[u8], at: usize, end: usize) -> (r: Option<(Field, usize)>)
    requires
        at <= end <= b.len(),
    ensures
        match next_field(b@, at as int, end as int) {
            Some((f, next)) => {
                &&& r matches Some(p)
                &&& p.0 == f && p.1 == next
                &&& at < next <= end
                &&& f.body matches Body::Span(lo, hi) ==> at <= lo <= hi <= end
            },
            None => r is None,
        },
{
    let (tag, p): (u64, usize) = match read_varint(b, at, end) {
        Some(t) => t,
        None => return None,
    };
    if tag > u32::MAX as u64 {
        return None;
    }
    let number: u32 = (tag / 8) as u32;
    let wire: u64 = tag % 8;
    if wire == 0 {
        match read_varint(b, p, end) {
            Some((v, next)) => Some((Field { number, body: Body::Number(v) }, next)),
            None => None,
        }
    } else if wire == 2 {
        match read_varint(b, p, end) {
            Some((n, q)) => {
                let stop = clip(q, n, end);
                Some((Field { number, body: Body::Span(q, stop) }, stop))
            },
            None => None,
        }
    } else if wire == 1 && end - p >= 8 {
        Some((Field { number, body: Body::Fixed }, p + 8))
    } else if wire == 5 && end - p >= 4 {
        Some((Field { number, body: Body::Fixed }, p + 4))
    } else if wire == 3 {
        Some((Field { number, body: Body::Open }, p))
    } else if wire == 4 {
        Some((Field { number, body: Body::Close }, p))
    } else {
        None
    }
}

/// The fields `seen` so far and those that follow up to the end, `depth` groups
/// deep; what groups hold is passed over. `None` where the bytes are no fields.
pub open spec fn gathered(b: Seq<u8>, at: int, end: int, depth: nat, seen: Seq<Field>) -> Option<
    Seq<Field>,
>
    decreases end - at,
{
    if at >= end {
        if depth == 0 {
            Some(seen)
        } else {
            None
        }
    } else {
        match next_field(b, at, end) {
            None => None,
            Some((f, next)) => if next <= at || next > end {
                None
            } else if f.body == Body::Open {
                gathered(b, next, end, depth + 1, seen)
            } else if f.body == Body::Close {
                if depth == 0 {
                    None
                } else {
                    gathered(b, next, end, (depth - 1) as nat, seen)
                }
            } else if depth == 0 {
                gathered(b, next, end, depth, seen.push(f))
            } else {
                gathered(b, next, end, depth, seen)
            },
        }
    }
}

/// The fields of the message from `lo` up to `hi`.
pub open spec fn fields(b: Seq<u8>, lo: int, hi: int) -> Option<Seq<Field>> {
    gathered(b, lo, hi, 0, Seq::empty())
}

/// The bytes that fields span lie before `end`.
spec fn inside(f: Seq<Field>, end: int) -> bool {
    forall|i: int| 0 <= i < f.len() ==> spans_inside(#[trigger] f[i], end)
}

spec fn spans_inside(f: Field, end: int) -> bool {
    f.body matches Body::Span(lo, hi) ==> lo <= hi <= end
}

fn read_fields(b: &[u8], lo: usize, hi: usize) -> (r: Option<Vec<Field>>)
    requires
        lo <= hi <= b.len(),
    ensures
        match fields(b@, lo as int, hi as int) {
            Some(f) => r matches Some(v) && v@ == f && inside(f, hi as int),
            None => r is None,
        },
{
    let mut out: Vec<Field> = Vec::new();
    let mut at: usize = lo;
    let mut depth: usize = 0;
    while at < hi
        invariant
            at <= hi <= b.len(),
            depth <= at,
            inside(out@, hi as int),
            fields(b@, lo as int, hi as int) == gathered(
                b@,
                at as int,
                hi as int,
                depth as nat,
                out@,
            ),
        decreases hi - at,
    {
        let (f, next) = match read_field(b, at, hi) {
            Some(p) => p,
            None => return None,
        };
        match f.body {
            Body::Open => {
                depth = depth + 1;
            },
            Body::Close => {
                if depth == 0 {
                    return None;
                }
                depth = depth - 1;
            },
            _ => {
                if depth == 0 {
                    out.push(f);
                }
            },
        }
        at = next;
    }
    if depth == 0 {
        Some(out)
    } else {
        None
    }
}

/// The numbers `seen` so far and those packed up to the end.
pub open spec fn unpacked(b: Seq<u8>, at: int, end: int, seen: Seq<u64>) -> Option<Seq<u64>>
    decreases end - at,
{
    if at >= end {
        Some(seen)
    } else {
        match varint(b, at, end, 0) {
            None => None,
            Some((v, next)) => if next <= at || next > end {
                None
            } else {
                unpacked(b, next, end, seen.push(v as u64))
            },
        }
    }
}

/// The numbers of a repeated field, packed or one by one.
pub open spec fn column(b: Seq<u8>, f: Seq<Field>, number: u32) -> Option<Seq<u64>>
    decreases f.len(),
{
    if f.len() == 0 {
        Some(Seq::empty())
    } else {
        match column(b, f.drop_last(), number) {
            None => None,
            Some(before) => if f.last().number != number {
                Some(before)
            } else {
                match f.last().body {
                    Body::Number(v) => Some(before.push(v)),
                    Body::Span(lo, hi) => unpacked(b, lo as int, hi as int, before),
                    _ => Some(before),
                }
            },
        }
    }
}

proof fn lemma_column_breaks(b: Seq<u8>, f: Seq<Field>, number: u32, i: int)
    requires
        0 <= i <= f.len(),
        column(b, f.take(i), number) is None,
    ensures
        column(b, f, number) is None,
    decreases f.len() - i,
{
    if i < f.len() {
        assert(f.take(i + 1).drop_last() =~= f.take(i));
        lemma_column_breaks(b, f, number, i + 1);
    } else {
        assert(f.take(i) =~= f);
    }
}

fn read_column(b: &[u8], f: &Vec<Field>, number: u32) -> (r: Option<Vec<u64>>)
    requires
        inside(f@, b.len() as int),
    ensures
        match column(b@, f@, number) {
            Some(c) => r matches Some(v) && v@ == c,
            None => r is None,
        },
{
    let mut out: Vec<u64> = Vec::new();
    let mut i: usize = 0;
    while i < f.len()
        invariant
            i <= f.len(),
            inside(f@, b.len() as int),
            column(b@, f@.take(i as int), number) == Some(out@),
        decreases f.len() - i,
    {
        let part = f[i];
        let ghost before = out@;
        proof {
            assert(f@.take(i as int + 1).drop_last() =~= f@.take(i as int));
            assert(spans_inside(f@[i as int], b.len() as int));
        }
        if part.number == number {
            match part.body {
                Body::Number(v) => out.push(v),
                Body::Span(lo, hi) => {
                    let mut at: usize = lo;
                    while at < hi
                        invariant
                            lo <= at <= hi <= b.len(),
                            unpacked(b@, lo as int, hi as int, before) == unpacked(
                                b@,
                                at as int,
                                hi as int,
                                out@,
                            ),
                            i < f.len(),
                            f@[i as int].number == number,
                            f@[i as int].body == Body::Span(lo, hi),
                            f@.take(i as int + 1).drop_last() == f@.take(i as int),
                            column(b@, f@.take(i as int), number) == Some(before),
                        decreases hi - at,
                    {
                        match read_varint(b, at, hi) {
                            Some((v, next)) => {
                                out.push(v);
                                at = next;
                            },
                            None => {
                                proof {
                                    lemma_column_breaks(b@, f@, number, i as int + 1);
                                }
                                return None;
                            },
                        }
                    }
                },
                _ => {},
            }
        }
        i = i + 1;
    }
    proof {
        assert(f@.take(i as int) =~= f@);
    }
    Some(out)
}

/// The signed number that a zigzag one stands for: 0, -1, 1, -2, ...
pub open spec fn unzigzag(v: u64) -> int {
    if v % 2 == 0 {
        v as int / 2
    } else {
        -(v as int / 2) - 1
    }
}

/// What deltas add up to.
pub open spec fn total(deltas: Seq<u64>) -> int
    decreases deltas.len(),
{
    if deltas.len() == 0 {
        0
    } else {
        total(deltas.drop_last()) + unzigzag(deltas.last())
    }
}

/// Each of the first `n` running sums of the deltas stays between the limits.
pub open spec fn sums_within(deltas: Seq<u64>, n: int, low: int, high: int) -> bool {
    forall|k: int| 0 < k <= n ==> low <= total(#[trigger] deltas.take(k)) <= high
}

fn signed(v: u64) -> (r: i128)
    ensures
        r == unzigzag(v),
        -0x8000_0000_0000_0000 <= r <= 0x7fff_ffff_ffff_ffff,
{
    let half: i128 = (v / 2) as i128;
    if v % 2 == 0 {
        half
    } else {
        -half - 1
    }
}

fn check_sums(deltas: &Vec<u64>, n: usize, low: i64, high: i64) -> (r: bool)
    requires
        n <= deltas.len(),
    ensures
        r == sums_within(deltas@, n as int, low as int, high as int),
{
    let mut sum: i128 = 0;
    let mut i: usize = 0;
    while i < n
        invariant
            i <= n <= deltas.len(),
            sum == total(deltas@.take(i as int)),
            i64::MIN <= sum <= i64::MAX,
            sums_within(deltas@, i as int, low as int, high as int),
        decreases n - i,
    {
        proof {
            assert(deltas@.take(i as int + 1).drop_last() =~= deltas@.take(i as int));
        }
        sum = sum + signed(deltas[i]);
        if sum < low as i128 || sum > high as i128 {
            proof {
                assert(!(low <= total(deltas@.take(i as int + 1)) <= high));
            }
            return false;
        }
        i = i + 1;
    }
    true
}

/// The last number that a field was given, or else its default.
pub open spec fn last_number(f: Seq<Field>, number: u32, default: u64) -> u64
    decreases f.len(),
{
    if f.len() == 0 {
        default
    } else if f.last().number == number && f.last().body is Number {
        f.last().body->Number_0
    } else {
        last_number(f.drop_last(), number, default)
    }
}

fn find_number(f: &Vec<Field>, number: u32, default: u64) -> (r: u64)
    ensures
        r == last_number(f@, number, default),
{
    let mut last: u64 = default;
    let mut i: usize = 0;
    while i < f.len()
        invariant
            i <= f.len(),
            last == last_number(f@.take(i as int), number, default),
        decreases f.len() - i,
    {
        proof {
            assert(f@.take(i as int + 1).drop_last() =~= f@.take(i as int));
        }
        if f[i].number == number {
            if let Body::Number(v) = f[i].body {
                last = v;
            }
        }
        i = i + 1;
    }
    proof {
        assert(f@.take(i as int) =~= f@);
    }
    last
}

/// The last bytes that a field was given.
pub open spec fn last_span(f: Seq<Field>, number: u32) -> Option<(usize, usize)>
    decreases f.len(),
{
    if f.len() == 0 {
        None
    } else if f.last().number == number && f.last().body is Span {
        Some((f.last().body->Span_0, f.last().body->Span_1))
    } else {
        last_span(f.drop_last(), number)
    }
}

proof fn lemma_span_inside(f: Seq<Field>, number: u32, end: int)
    requires
        inside(f, end),
    ensures
        last_span(f, number) matches Some(p) ==> p.0 <= p.1 <= end,
    decreases f.len(),
{
    if f.len() > 0 {
        assert(spans_inside(f[f.len() - 1], end));
        assert(inside(f.drop_last(), end)) by {
            assert forall|i: int| 0 <= i < f.len() - 1 implies spans_inside(
                #[trigger] f.drop_last()[i],
                end,
            ) by {
                assert(spans_inside(f[i], end));
            }
        }
        lemma_span_inside(f.drop_last(), number, end);
    }
}

fn find_span(f: &Vec<Field>, number: u32) -> (r: Option<(usize, usize)>)
    ensures
        r == last_span(f@, number),
{
    let mut last: Option<(usize, usize)> = None;
    let mut i: usize = 0;
    while i < f.len()
        invariant
            i <= f.len(),
            last == last_span(f@.take(i as int), number),
        decreases f.len() - i,
    {
        proof {
            assert(f@.take(i as int + 1).drop_last() =~= f@.take(i as int));
        }
        if f[i].number == number {
            if let Body::Span(lo, hi) = f[i].body {
                last = Some((lo, hi));
            }
        }
        i = i + 1;
    }
    proof {
        assert(f@.take(i as int) =~= f@);
    }
    last
}

/// How a block's coordinates are scaled.
#[derive(Debug, Clone, Copy)]
pub struct Scale {
    pub granularity: i64,
    pub lat_offset: i64,
    pub lon_offset: i64,
}

/// A coordinate can be scaled: `offset + granularity * at` and the product in it
/// fit 64 bits.
pub open spec fn scales(at: int, granularity: i64, offset: i64) -> bool {
    &&& i64::MIN <= granularity * at <= i64::MAX
    &&& i64::MIN <= offset + granularity * at <= i64::MAX
}

fn check_scale(at: i128, granularity: i64, offset: i64) -> (r: bool)
    requires
        i64::MIN <= at <= i64::MAX,
    ensures
        r == scales(at as int, granularity, offset),
{
    let (g, o) = (granularity as i128, offset as i128);
    proof {
        assert(-0x4000_0000_0000_0000_0000_0000_0000_0000 <= g * at
            <= 0x4000_0000_0000_0000_0000_0000_0000_0000) by (nonlinear_arith)
            requires
                -0x8000_0000_0000_0000 <= g <= 0x7fff_ffff_ffff_ffff,
                -0x8000_0000_0000_0000 <= at <= 0x7fff_ffff_ffff_ffff,
        ;
    }
    let product: i128 = g * at;
    i64::MIN as i128 <= product && product <= i64::MAX as i128 && i64::MIN as i128 <= o + product && o
        + product <= i64::MAX as i128
}

impl Scale {
    /// A position can be scaled.
    pub open spec fn places(self, lat: int, lon: int) -> bool {
        scales(lat, self.granularity, self.lat_offset) && scales(
            lon,
            self.granularity,
            self.lon_offset,
        )
    }

    fn check(self, lat: i128, lon: i128) -> (r: bool)
        requires
            i64::MIN <= lat <= i64::MAX,
            i64::MIN <= lon <= i64::MAX,
        ensures
            r == self.places(lat as int, lon as int),
    {
        check_scale(lat, self.granularity, self.lat_offset) && check_scale(
            lon,
            self.granularity,
            self.lon_offset,
        )
    }
}

pub open spec fn shorter(a: int, b: int) -> int {
    if a < b {
        a
    } else {
        b
    }
}

fn min_len(a: usize, b: usize) -> (r: usize)
    ensures
        r == shorter(a as int, b as int),
{
    if a < b {
        a
    } else {
        b
    }
}

/// The metadata of dense nodes: versions, timestamps, changesets, users and their
/// names. It is summed as far as all five columns go, but at most for one node
/// more than there are `nodes`.
pub open spec fn info_holds(b: Seq<u8>, lo: int, hi: int, nodes: int) -> bool {
    match fields(b, lo, hi) {
        None => false,
        Some(f) => match (
            column(b, f, 1),
            column(b, f, 2),
            column(b, f, 3),
            column(b, f, 4),
            column(b, f, 5),
        ) {
            (Some(versions), Some(times), Some(changes), Some(users), Some(names)) => {
                let rows = shorter(
                    shorter(
                        versions.len() as int,
                        shorter(times.len() as int, changes.len() as int),
                    ),
                    shorter(users.len() as int, names.len() as int),
                );
                let n = shorter(nodes + 1, rows);
                &&& sums_within(times, n, i64::MIN as int, i64::MAX as int)
                &&& sums_within(changes, n, i64::MIN as int, i64::MAX as int)
                &&& sums_within(users, n, i32::MIN as int, i32::MAX as int)
                &&& sums_within(names, n, i32::MIN as int, i32::MAX as int)
            },
            _ => false,
        },
    }
}

fn check_info(b: &[u8], lo: usize, hi: usize, nodes: usize) -> (r: bool)
    requires
        lo <= hi <= b.len(),
    ensures
        r == info_holds(b@, lo as int, hi as int, nodes as int),
{
    let f = match read_fields(b, lo, hi) {
        Some(f) => f,
        None => return false,
    };
    match (
        read_column(b, &f, 1),
        read_column(b, &f, 2),
        read_column(b, &f, 3),
        read_column(b, &f, 4),
        read_column(b, &f, 5),
    ) {
        (Some(versions), Some(times), Some(changes), Some(users), Some(names)) => {
            let rows: usize = min_len(
                min_len(versions.len(), min_len(times.len(), changes.len())),
                min_len(users.len(), names.len()),
            );
            let n: usize = if nodes < rows {
                nodes + 1
            } else {
                rows
            };
            check_sums(&times, n, i64::MIN, i64::MAX) && check_sums(&changes, n, i64::MIN, i64::MAX)
                && check_sums(&users, n, i32::MIN as i64, i32::MAX as i64) && check_sums(
                &names,
                n,
                i32::MIN as i64,
                i32::MAX as i64,
            )
        },
        _ => false,
    }
}

/// Of the first `n` dense nodes, those that are needed can be placed.
pub open spec fn dense_placed(
    ids: Seq<u64>,
    lats: Seq<u64>,
    lons: Seq<u64>,
    n: int,
    s: Scale,
    needed: Set<i64>,
) -> bool {
    forall|k: int|
        0 < k <= n && needed.contains(total(#[trigger] ids.take(k)) as i64) ==> s.places(
            total(lats.take(k)),
            total(lons.take(k)),
        )
}

/// Dense nodes: their numbers and coordinates are summed as far as all three
/// columns go, and so is their metadata; the coordinates of needed nodes are
/// scaled.
pub open spec fn dense_holds(b: Seq<u8>, lo: int, hi: int, s: Scale, needed: Set<i64>) -> bool {
    match fields(b, lo, hi) {
        None => false,
        Some(f) => match (column(b, f, 1), column(b, f, 8), column(b, f, 9)) {
            (Some(ids), Some(lats), Some(lons)) => {
                let n = shorter(ids.len() as int, shorter(lats.len() as int, lons.len() as int));
                &&& sums_within(ids, n, i64::MIN as int, i64::MAX as int)
                &&& sums_within(lats, n, i64::MIN as int, i64::MAX as int)
                &&& sums_within(lons, n, i64::MIN as int, i64::MAX as int)
                &&& dense_placed(ids, lats, lons, n, s, needed)
                &&& match last_span(f, 5) {
                    Some((p, q)) => info_holds(b, p as int, q as int, n),
                    None => true,
                }
            },
            _ => false,
        },
    }
}

fn check_placed(
    ids: &Vec<u64>,
    lats: &Vec<u64>,
    lons: &Vec<u64>,
    n: usize,
    s: Scale,
    needed: &HashSet<i64>,
) -> (r: bool)
    requires
        n <= ids.len() && n <= lats.len() && n <= lons.len(),
        sums_within(ids@, n as int, i64::MIN as int, i64::MAX as int),
        sums_within(lats@, n as int, i64::MIN as int, i64::MAX as int),
        sums_within(lons@, n as int, i64::MIN as int, i64::MAX as int),
    ensures
        r == dense_placed(ids@, lats@, lons@, n as int, s, needed@),
{
    broadcast use vstd::std_specs::hash::group_hash_axioms;

    let mut id: i128 = 0;
    let mut lat: i128 = 0;
    let mut lon: i128 = 0;
    let mut i: usize = 0;
    while i < n
        invariant
            i <= n,
            n <= ids.len() && n <= lats.len() && n <= lons.len(),
            sums_within(ids@, n as int, i64::MIN as int, i64::MAX as int),
            sums_within(lats@, n as int, i64::MIN as int, i64::MAX as int),
            sums_within(lons@, n as int, i64::MIN as int, i64::MAX as int),
            id == total(ids@.take(i as int)) && i64::MIN <= id <= i64::MAX,
            lat == total(lats@.take(i as int)) && i64::MIN <= lat <= i64::MAX,
            lon == total(lons@.take(i as int)) && i64::MIN <= lon <= i64::MAX,
            dense_placed(ids@, lats@, lons@, i as int, s, needed@),
        decreases n - i,
    {
        broadcast use vstd::std_specs::hash::group_hash_axioms;

        let ghost k = i as int + 1;
        proof {
            assert(ids@.take(k).drop_last() =~= ids@.take(i as int));
            assert(lats@.take(k).drop_last() =~= lats@.take(i as int));
            assert(lons@.take(k).drop_last() =~= lons@.take(i as int));
        }
        id = id + signed(ids[i]);
        lat = lat + signed(lats[i]);
        lon = lon + signed(lons[i]);
        proof {
            assert(id == total(ids@.take(k)));
            assert(lat == total(lats@.take(k)));
            assert(lon == total(lons@.take(k)));
        }
        if needed.contains(&(id as i64)) && !s.check(lat, lon) {
            proof {
                assert(needed@.contains(total(ids@.take(k)) as i64));
            }
            return false;
        }
        i = i + 1;
    }
    true
}

fn check_dense(b: &[u8], lo: usize, hi: usize, s: Scale, needed: &HashSet<i64>) -> (r: bool)
    requires
        lo <= hi <= b.len(),
    ensures
        r == dense_holds(b@, lo as int, hi as int, s, needed@),
{
    let f = match read_fields(b, lo, hi) {
        Some(f) => f,
        None => return false,
    };
    match (read_column(b, &f, 1), read_column(b, &f, 8), read_column(b, &f, 9)) {
        (Some(ids), Some(lats), Some(lons)) => {
            let n: usize = min_len(ids.len(), min_len(lats.len(), lons.len()));
            if !check_sums(&ids, n, i64::MIN, i64::MAX) || !check_sums(&lats, n, i64::MIN, i64::MAX)
                || !check_sums(&lons, n, i64::MIN, i64::MAX) {
                return false;
            }
            if !check_placed(&ids, &lats, &lons, n, s, needed) {
                return false;
            }
            proof {
                lemma_span_inside(f@, 5, hi as int);
            }
            match find_span(&f, 5) {
                Some((p, q)) => check_info(b, p, q, n),
                None => true,
            }
        },
        _ => false,
    }
}

/// A node of its own: where it is needed, its coordinates are scaled.
pub open spec fn node_holds(b: Seq<u8>, lo: int, hi: int, s: Scale, needed: Set<i64>) -> bool {
    match fields(b, lo, hi) {
        None => false,
        Some(f) => needed.contains(unzigzag(last_number(f, 1, 0)) as i64) ==> s.places(
            unzigzag(last_number(f, 8, 0)),
            unzigzag(last_number(f, 9, 0)),
        ),
    }
}

fn check_node(b: &[u8], lo: usize, hi: usize, s: Scale, needed: &HashSet<i64>) -> (r: bool)
    requires
        lo <= hi <= b.len(),
    ensures
        r == node_holds(b@, lo as int, hi as int, s, needed@),
{
    broadcast use vstd::std_specs::hash::group_hash_axioms;

    let f = match read_fields(b, lo, hi) {
        Some(f) => f,
        None => return false,
    };
    let id: i64 = signed(find_number(&f, 1, 0)) as i64;
    !needed.contains(&id) || s.check(signed(find_number(&f, 8, 0)), signed(find_number(&f, 9, 0)))
}

/// The field of a group, if it is a node of its own, holds numbers in range.
pub open spec fn group_part_holds(b: Seq<u8>, f: Field, s: Scale, needed: Set<i64>) -> bool {
    f.number == 1 ==> match f.body {
        Body::Span(lo, hi) => node_holds(b, lo as int, hi as int, s, needed),
        _ => true,
    }
}

pub open spec fn group_parts_hold(b: Seq<u8>, f: Seq<Field>, s: Scale, needed: Set<i64>) -> bool {
    forall|i: int| 0 <= i < f.len() ==> group_part_holds(b, #[trigger] f[i], s, needed)
}

/// A group: its nodes, and its dense nodes; of several lots of these the last
/// counts.
pub open spec fn group_holds(b: Seq<u8>, lo: int, hi: int, s: Scale, needed: Set<i64>) -> bool {
    match fields(b, lo, hi) {
        None => false,
        Some(f) => {
            &&& group_parts_hold(b, f, s, needed)
            &&& match last_span(f, 2) {
                Some((p, q)) => dense_holds(b, p as int, q as int, s, needed),
                None => true,
            }
        },
    }
}

fn check_group(b: &[u8], lo: usize, hi: usize, s: Scale, needed: &HashSet<i64>) -> (r: bool)
    requires
        lo <= hi <= b.len(),
    ensures
        r == group_holds(b@, lo as int, hi as int, s, needed@),
{
    let f = match read_fields(b, lo, hi) {
        Some(f) => f,
        None => return false,
    };
    let mut i: usize = 0;
    while i < f.len()
        invariant
            i <= f.len(),
            hi <= b.len(),
            inside(f@, hi as int),
            fields(b@, lo as int, hi as int) == Some(f@),
            forall|k: int| 0 <= k < i ==> group_part_holds(b@, #[trigger] f@[k], s, needed@),
        decreases f.len() - i,
    {
        let part = f[i];
        proof {
            assert(spans_inside(f@[i as int], hi as int));
        }
        if part.number == 1 {
            if let Body::Span(a, z) = part.body {
                if !check_node(b, a, z, s, needed) {
                    proof {
                        assert(!group_part_holds(b@, f@[i as int], s, needed@));
                        assert(!group_parts_hold(b@, f@, s, needed@));
                    }
                    return false;
                }
            }
        }
        i = i + 1;
    }
    proof {
        lemma_span_inside(f@, 2, hi as int);
    }
    match find_span(&f, 2) {
        Some((p, q)) => check_dense(b, p, q, s, needed),
        None => true,
    }
}

/// The field of a block, if it is a group, holds numbers in range.
pub open spec fn block_part_holds(b: Seq<u8>, f: Field, s: Scale, needed: Set<i64>) -> bool {
    f.number == 2 ==> match f.body {
        Body::Span(lo, hi) => group_holds(b, lo as int, hi as int, s, needed),
        _ => true,
    }
}

/// The scale that a block's fields give: 100 units and no offsets where they say
/// nothing.
pub open spec fn scale_of(f: Seq<Field>) -> Scale {
    Scale {
        granularity: last_number(f, 17, 100) as i64,
        lat_offset: last_number(f, 19, 0) as i64,
        lon_offset: last_number(f, 20, 0) as i64,
    }
}

/// A block of nodes and ways.
pub open spec fn block_holds(b: Seq<u8>, lo: int, hi: int, needed: Set<i64>) -> bool {
    fields(b, lo, hi) matches Some(f) && block_parts_hold(b, f, scale_of(f), needed)
}

pub open spec fn block_parts_hold(b: Seq<u8>, f: Seq<Field>, s: Scale, needed: Set<i64>) -> bool {
    forall|i: int| 0 <= i < f.len() ==> block_part_holds(b, #[trigger] f[i], s, needed)
}

fn check_block(b: &[u8], lo: usize, hi: usize, needed: &HashSet<i64>) -> (r: bool)
    requires
        lo <= hi <= b.len(),
    ensures
        r == block_holds(b@, lo as int, hi as int, needed@),
{
    let f = match read_fields(b, lo, hi) {
        Some(f) => f,
        None => return false,
    };
    let s = Scale {
        granularity: find_number(&f, 17, 100) as i64,
        lat_offset: find_number(&f, 19, 0) as i64,
        lon_offset: find_number(&f, 20, 0) as i64,
    };
    let mut i: usize = 0;
    while i < f.len()
        invariant
            i <= f.len(),
            hi <= b.len(),
            inside(f@, hi as int),
            s == scale_of(f@),
            fields(b@, lo as int, hi as int) == Some(f@),
            forall|k: int| 0 <= k < i ==> block_part_holds(b@, #[trigger] f@[k], s, needed@),
        decreases f.len() - i,
    {
        let part = f[i];
        proof {
            assert(spans_inside(f@[i as int], hi as int));
        }
        if part.number == 2 {
            if let Body::Span(a, z) = part.body {
                if !check_group(b, a, z, s, needed) {
                    proof {
                        assert(!block_part_holds(b@, f@[i as int], s, needed@));
                        assert(!block_parts_hold(b@, f@, s, needed@));
                    }
                    return false;
                }
            }
        }
        i = i + 1;
    }
    true
}

/// What `flate2::read::ZlibDecoder` reads from a zlib stream, up to a limit;
/// `None` where it fails.
pub uninterp spec fn inflated(stream: Seq<u8>, limit: u64) -> Option<Seq<u8>>;

/// `flate2::read::ZlibDecoder` on a stream in memory, read up to a limit. What it
/// reads is a function of the bytes and the limit alone; it is named, not stated.
#[verifier::external_body]
fn inflate(stream: &[u8], limit: u64) -> (r: Result<Vec<u8>, std::io::Error>)
    ensures
        match inflated(stream@, limit) {
            Some(b) => r matches Ok(v) && v@ == b,
            None => r is Err,
        },
{
    let mut out = Vec::new();
    flate2::read::ZlibDecoder::new(stream).take(limit).read_to_end(&mut out)?;
    Ok(out)
}

/// The field holds a blob's data, in whichever coding.
pub open spec fn holds_data(f: Field) -> bool {
    f.body is Span && (f.number == 1 || 3 <= f.number <= 7)
}

/// The last of the fields that holds data.
pub open spec fn last_data(f: Seq<Field>) -> Option<Field>
    decreases f.len(),
{
    if f.len() == 0 {
        None
    } else if holds_data(f.last()) {
        Some(f.last())
    } else {
        last_data(f.drop_last())
    }
}

/// A blob's block, plain or deflated. A blob in another coding has none.
pub open spec fn blob_holds(b: Seq<u8>, lo: int, hi: int, needed: Set<i64>) -> bool {
    match fields(b, lo, hi) {
        None => false,
        Some(f) => match last_data(f) {
            Some(data) => match data.body {
                Body::Span(p, q) => if data.number == 1 {
                    block_holds(b, p as int, q as int, needed)
                } else if data.number == 3 {
                    inflated(b.subrange(p as int, q as int), MAX_BLOCK) matches Some(block)
                        && block_holds(block, 0, block.len() as int, needed)
                } else {
                    true
                },
                _ => true,
            },
            None => true,
        },
    }
}

fn check_blob(b: &[u8], lo: usize, hi: usize, needed: &HashSet<i64>) -> (r: bool)
    requires
        lo <= hi <= b.len(),
    ensures
        r == blob_holds(b@, lo as int, hi as int, needed@),
{
    let f = match read_fields(b, lo, hi) {
        Some(f) => f,
        None => return false,
    };
    let mut last: Option<Field> = None;
    let mut i: usize = 0;
    while i < f.len()
        invariant
            i <= f.len(),
            inside(f@, hi as int),
            last == last_data(f@.take(i as int)),
            last matches Some(d) ==> spans_inside(d, hi as int),
        decreases f.len() - i,
    {
        let part = f[i];
        proof {
            assert(f@.take(i as int + 1).drop_last() =~= f@.take(i as int));
            assert(spans_inside(f@[i as int], hi as int));
        }
        if let Body::Span(_, _) = part.body {
            if part.number == 1 || 3 <= part.number && part.number <= 7 {
                last = Some(part);
            }
        }
        i = i + 1;
    }
    proof {
        assert(f@.take(i as int) =~= f@);
    }
    let data = match last {
        Some(d) => d,
        None => return true,
    };
    match data.body {
        Body::Span(p, q) => {
            if data.number == 1 {
                check_block(b, p, q, needed)
            } else if data.number == 3 {
                match inflate(vstd::slice::slice_subrange(b, p, q), MAX_BLOCK) {
                    Ok(block) => {
                        let n: usize = block.len();
                        check_block(block.as_slice(), 0, n, needed)
                    },
                    Err(_) => false,
                }
            } else {
                true
            }
        },
        _ => true,
    }
}

/// The bytes from `p` up to `q` spell `OSMData`: the blob holds nodes and ways.
pub open spec fn names_data(b: Seq<u8>, p: int, q: int) -> bool {
    &&& q - p == 7
    &&& b[p] == 0x4f && b[p + 1] == 0x53 && b[p + 2] == 0x4d
    &&& b[p + 3] == 0x44 && b[p + 4] == 0x61 && b[p + 5] == 0x74 && b[p + 6] == 0x61
}

/// The header announces a blob of nodes and ways.
pub open spec fn announces_data(b: Seq<u8>, header: Seq<Field>) -> bool {
    match last_span(header, 1) {
        Some((p, q)) => names_data(b, p as int, q as int),
        None => false,
    }
}

fn check_name(b: &[u8], p: usize, q: usize) -> (r: bool)
    requires
        p <= q <= b.len(),
    ensures
        r == names_data(b@, p as int, q as int),
{
    q - p == 7 && b[p] == 0x4f && b[p + 1] == 0x53 && b[p + 2] == 0x4d && b[p + 3] == 0x44 && b[p + 4]
        == 0x61 && b[p + 5] == 0x74 && b[p + 6] == 0x61
}

/// The four-byte number at `at`, most significant byte first.
pub open spec fn be32(b: Seq<u8>, at: int) -> int {
    b[at] * 0x100_0000 + b[at + 1] * 0x1_0000 + b[at + 2] * 0x100 + b[at + 3]
}

/// From `at` on, headers and blobs can be read to the end of the extract, and the
/// numbers of every block of nodes stay in range.
pub open spec fn extract_holds(b: Seq<u8>, at: int, needed: Set<i64>) -> bool
    decreases b.len() - at,
{
    if b.len() - at < 4 {
        true
    } else {
        let size = be32(b, at);
        let start = clipped(at + 4, size, b.len() as int);
        match fields(b, at + 4, start) {
            Some(header) => {
                let end = clipped(start, last_number(header, 3, 0) as int, b.len() as int);
                if size >= MAX_HEADER || start <= at || end < start {
                    false
                } else {
                    &&& announces_data(b, header) ==> blob_holds(b, start, end, needed)
                    &&& extract_holds(b, end, needed)
                }
            },
            None => false,
        }
    }
}

/// Every sum that reading the extract forms, and every product that placing the
/// needed nodes takes, stays in range.
pub open spec fn numbers_hold(extract: Seq<u8>, needed: Set<i64>) -> bool {
    extract_holds(extract, 0, needed)
}

/// Whether an extract's numbers can be summed, and the needed nodes be placed (see
/// [`numbers_hold`]).
pub fn check_numbers(extract: &[u8], needed: &HashSet<i64>) -> (r: bool)
    ensures
        r == numbers_hold(extract@, needed@),
{
    let b = extract;
    let mut at: usize = 0;
    while b.len() - at >= 4
        invariant
            at <= b.len(),
            extract == b,
            numbers_hold(extract@, needed@) == extract_holds(b@, at as int, needed@),
        decreases b.len() - at,
    {
        let size: u64 = b[at] as u64 * 0x100_0000 + b[at + 1] as u64 * 0x1_0000 + b[at + 2] as u64
            * 0x100 + b[at + 3] as u64;
        let start = clip(at + 4, size, b.len());
        let header = match read_fields(b, at + 4, start) {
            Some(f) => f,
            None => return false,
        };
        if size >= MAX_HEADER {
            return false;
        }
        let end = clip(start, find_number(&header, 3, 0), b.len());
        proof {
            lemma_span_inside(header@, 1, start as int);
        }
        if let Some((p, q)) = find_span(&header, 1) {
            if check_name(b, p, q) && !check_blob(b, start, end, needed) {
                return false;
            }
        }
        at = end;
    }
    true
}

/// Numbers are written in base 128, the least significant digit first; a byte of 128 or
/// more says that another follows. Ten bytes are the most, the tenth at most one.
pub proof fn numbers_are_in_base_128(b: Seq<u8>, at: int, end: int, k: int)
    requires
        0 <= k,
    ensures
        at >= end || k >= 10 ==> varint(b, at, end, k) is None,
        at < end && k < 9 && b[at] < 128 ==> varint(b, at, end, k) == Some((b[at] as int, at + 1)),
        at < end && k == 9 ==> (varint(b, at, end, k) is Some <==> b[at] <= 1),
        at < end && k < 9 && b[at] >= 128 ==> match varint(b, at + 1, end, k + 1) {
            Some((high, next)) => varint(b, at, end, k) == Some((b[at] % 128 + 128 * high, next)),
            None => varint(b, at, end, k) is None,
        },
{
    reveal_with_fuel(varint, 2);
    if at < end && k < 9 && b[at] >= 128 {
        assert(b[at] % 128 == b[at] - 128);
    }
}

/// A number that was read stands before the end, and the place behind it is the first after
/// a byte below 128.
pub proof fn numbers_end_with_a_small_byte(b: Seq<u8>, at: int, end: int, k: int)
    requires
        0 <= at,
        varint(b, at, end, k) is Some,
    ensures
        ({
            let (v, next) = varint(b, at, end, k)->Some_0;
            &&& at < next <= end
            &&& v >= 0
            &&& b[next - 1] < 128
            &&& forall|i: int| at <= i < next - 1 ==> #[trigger] b[i] >= 128
        }),
    decreases 10 - k,
{
    if b[at] >= 128 {
        numbers_end_with_a_small_byte(b, at + 1, end, k + 1);
    }
}

/// Stretches stop at the end, and before it where they are shorter.
pub proof fn stretches_stop_at_the_end(at: int, n: int, end: int)
    requires
        at <= end,
        0 <= n,
    ensures
        clipped(at, n, end) <= end,
        at + n <= end ==> clipped(at, n, end) == at + n,
        at + n > end ==> clipped(at, n, end) == end,
{
}

/// Zigzag numbers alternate: 0, -1, 1, -2 and so on.
pub proof fn zigzag_alternates(v: u64)
    requires
        v % 2 == 0,
    ensures
        2 * unzigzag(v) == v,
        unzigzag((v + 1) as u64) == -unzigzag(v) - 1,
{
}

/// Deltas add up, and running sums are those of the beginnings.
pub proof fn deltas_add_up(deltas: Seq<u64>, d: u64, n: int, low: int, high: int)
    requires
        0 <= n <= deltas.len(),
    ensures
        total(deltas.push(d)) == total(deltas) + unzigzag(d),
        total(Seq::empty()) == 0,
        sums_within(deltas, n, low, high) <==> forall|k: int|
            1 <= k <= n ==> low <= total(#[trigger] deltas.take(k)) && total(deltas.take(k)) <= high,
{
    assert(deltas.push(d).drop_last() =~= deltas);
}

/// Of a field that is given several times the last value of its sort counts.
pub proof fn the_last_value_counts(f: Seq<Field>, g: Field, number: u32, default: u64)
    ensures
        g.number == number && g.body is Number ==> last_number(f.push(g), number, default)
            == g.body->Number_0,
        g.number != number || !(g.body is Number) ==> last_number(f.push(g), number, default)
            == last_number(f, number, default),
        last_number(Seq::empty(), number, default) == default,
        g.number == number && g.body is Span ==> last_span(f.push(g), number) == Some(
            (g.body->Span_0, g.body->Span_1),
        ),
        g.number != number || !(g.body is Span) ==> last_span(f.push(g), number) == last_span(f, number),
        last_span(Seq::empty(), number) is None,
        g.body is Span && (g.number == 1 || 3 <= g.number <= 7) ==> last_data(f.push(g)) == Some(g),
        !(g.body is Span) || g.number == 0 || g.number == 2 || g.number > 7 ==> last_data(f.push(g))
            == last_data(f),
        last_data(Seq::empty()) is None,
{
    assert(f.push(g).drop_last() =~= f);
}

/// A column goes on with the numbers of each field of its own number: one by one, or packed
/// one behind the other.
pub proof fn columns_are_gathered_in_order(b: Seq<u8>, f: Seq<Field>, g: Field, number: u32)
    requires
        column(b, f, number) is Some,
    ensures
        g.number != number ==> column(b, f.push(g), number) == column(b, f, number),
        g.number == number && g.body is Number ==> column(b, f.push(g), number) == Some(
            column(b, f, number)->Some_0.push(g.body->Number_0),
        ),
        g.number == number && g.body is Span ==> match unpacked(
            b,
            g.body->Span_0 as int,
            g.body->Span_1 as int,
            Seq::empty(),
        ) {
            Some(more) => column(b, f.push(g), number) == Some(column(b, f, number)->Some_0 + more),
            None => column(b, f.push(g), number) is None,
        },
        column(b, Seq::empty(), number) == Some(Seq::<u64>::empty()),
{
    assert(f.push(g).drop_last() =~= f);
    if g.number == number && g.body is Span {
        lemma_unpacked_behind(
            b,
            g.body->Span_0 as int,
            g.body->Span_1 as int,
            column(b, f, number)->Some_0,
            Seq::empty(),
        );
        let before = column(b, f, number)->Some_0;
        assert(before + Seq::<u64>::empty() =~= before);
    }
}

proof fn lemma_unpacked_behind(b: Seq<u8>, at: int, end: int, before: Seq<u64>, seen: Seq<u64>)
    ensures
        match unpacked(b, at, end, seen) {
            Some(more) => unpacked(b, at, end, before + seen) == Some(before + more),
            None => unpacked(b, at, end, before + seen) is None,
        },
    decreases end - at,
{
    if at < end {
        if let Some((v, next)) = varint(b, at, end, 0) {
            if at < next <= end {
                lemma_unpacked_behind(b, next, end, before, seen.push(v as u64));
                assert((before + seen).push(v as u64) =~= before + seen.push(v as u64));
            }
        }
    }
}

/// Packed numbers follow one another: the first, and then those behind it.
pub proof fn packed_numbers_follow_one_another(b: Seq<u8>, at: int, end: int)
    requires
        0 <= at < end,
    ensures
        match varint(b, at, end, 0) {
            None => unpacked(b, at, end, Seq::empty()) is None,
            Some((v, next)) => match unpacked(b, next, end, Seq::empty()) {
                Some(rest) => unpacked(b, at, end, Seq::empty()) == Some(seq![v as u64] + rest),
                None => unpacked(b, at, end, Seq::empty()) is None,
            },
        },
        unpacked(b, end, end, Seq::empty()) == Some(Seq::<u64>::empty()),
{
    if let Some((v, next)) = varint(b, at, end, 0) {
        numbers_end_with_a_small_byte(b, at, end, 0);
        lemma_unpacked_behind(b, next, end, seq![v as u64], Seq::empty());
        assert(seq![v as u64] + Seq::<u64>::empty() =~= seq![v as u64]);
        assert(Seq::<u64>::empty().push(v as u64) =~= seq![v as u64]);
    }
}

/// Fields follow one another up to the end; what stands in a group is passed over, and a
/// group that is not closed, or closed without being opened, breaks the message.
pub proof fn groups_are_passed_over(b: Seq<u8>, at: int, end: int, depth: nat, seen: Seq<Field>)
    requires
        at < end,
        next_field(b, at, end) matches Some(p) && at < p.1 <= end,
    ensures
        ({
            let (f, next) = next_field(b, at, end)->Some_0;
            &&& f.body is Open ==> gathered(b, at, end, depth, seen) == gathered(
                b,
                next,
                end,
                depth + 1,
                seen,
            )
            &&& f.body is Close && depth == 0 ==> gathered(b, at, end, depth, seen) is None
            &&& f.body is Close && depth > 0 ==> gathered(b, at, end, depth, seen) == gathered(
                b,
                next,
                end,
                (depth - 1) as nat,
                seen,
            )
            &&& !(f.body is Open) && !(f.body is Close) && depth > 0 ==> gathered(b, at, end, depth, seen)
                == gathered(b, next, end, depth, seen)
            &&& !(f.body is Open) && !(f.body is Close) && depth == 0 ==> gathered(b, at, end, depth, seen)
                == gathered(b, next, end, depth, seen.push(f))
        }),
        gathered(b, end, end, 0, seen) == Some(seen),
        depth > 0 ==> gathered(b, end, end, depth, seen) is None,
{
}

/// A field is told by its tag: the lowest three bits say what follows, the others are its
/// number.
pub proof fn tags_say_what_follows(b: Seq<u8>, at: int, end: int)
    requires
        varint(b, at, end, 0) matches Some(t) && 0 <= t.0 <= u32::MAX,
    ensures
        ({
            let (tag, p) = varint(b, at, end, 0)->Some_0;
            let r = next_field(b, at, end);
            &&& r matches Some(q) ==> q.0.number == tag / 8
            &&& tag % 8 == 0 ==> match varint(b, p, end, 0) {
                Some((v, next)) => r matches Some(q) && q.0.body == Body::Number(v as u64) && q.1 == next,
                None => r is None,
            }
            &&& tag % 8 == 2 ==> match varint(b, p, end, 0) {
                Some((n, from)) => r matches Some(q) && q.1 == clipped(from, n, end) && q.0.body
                    == Body::Span(from as usize, clipped(from, n, end) as usize),
                None => r is None,
            }
            &&& tag % 8 == 1 ==> (r is Some <==> p + 8 <= end)
            &&& tag % 8 == 5 ==> (r is Some <==> p + 4 <= end)
            &&& tag % 8 == 1 && p + 8 <= end ==> r->Some_0.1 == p + 8
            &&& tag % 8 == 5 && p + 4 <= end ==> r->Some_0.1 == p + 4
            &&& tag % 8 == 3 ==> (r matches Some(q) && q.0.body == Body::Open && q.1 == p)
            &&& tag % 8 == 4 ==> (r matches Some(q) && q.0.body == Body::Close && q.1 == p)
            &&& tag % 8 > 5 ==> r is None
        }),
{
}

/// A block without a word on its scale counts in units of 100, without offsets.
pub proof fn scales_have_defaults()
    ensures
        scale_of(Seq::empty()).granularity == 100,
        scale_of(Seq::empty()).lat_offset == 0,
        scale_of(Seq::empty()).lon_offset == 0,
{
}

/// Blobs of nodes and ways are announced by the seven letters of `OSMData`.
pub proof fn data_blobs_are_announced_by_name(b: Seq<u8>, p: int, q: int)
    requires
        0 <= p <= q <= b.len(),
    ensures
        names_data(b, p, q) <==> b.subrange(p, q) == seq![
            0x4fu8,
            0x53,
            0x4d,
            0x44,
            0x61,
            0x74,
            0x61,
        ],
{
    let name = seq![0x4fu8, 0x53, 0x4d, 0x44, 0x61, 0x74, 0x61];
    let s = b.subrange(p, q);
    if names_data(b, p, q) {
        assert(s =~= name);
    }
    if s == name {
        assert(s.len() == 7);
        assert(s[0] == b[p] && s[1] == b[p + 1] && s[2] == b[p + 2] && s[3] == b[p + 3]);
        assert(s[4] == b[p + 4] && s[5] == b[p + 5] && s[6] == b[p + 6]);
        assert(name[0] == 0x4f && name[1] == 0x53 && name[2] == 0x4d && name[3] == 0x44);
        assert(name[4] == 0x61 && name[5] == 0x74 && name[6] == 0x61);
    }
}

/// Needing fewer nodes never makes an extract's numbers go out of range.
pub proof fn fewer_nodes_hold_as_well(b: Seq<u8>, at: int, needed: Set<i64>, fewer: Set<i64>)
    requires
        fewer.subset_of(needed),
        extract_holds(b, at, needed),
    ensures
        extract_holds(b, at, fewer),
    decreases b.len() - at,
{
    if b.len() - at >= 4 {
        let size = be32(b, at);
        let start = clipped(at + 4, size, b.len() as int);
        let header = fields(b, at + 4, start)->Some_0;
        let end = clipped(start, last_number(header, 3, 0) as int, b.len() as int);
        fewer_nodes_hold_as_well(b, end, needed, fewer);
        if announces_data(b, header) {
            lemma_blob_fewer(b, start, end, needed, fewer);
        }
    }
}

proof fn lemma_blob_fewer(b: Seq<u8>, lo: int, hi: int, needed: Set<i64>, fewer: Set<i64>)
    requires
        fewer.subset_of(needed),
        blob_holds(b, lo, hi, needed),
    ensures
        blob_holds(b, lo, hi, fewer),
{
    let f = fields(b, lo, hi)->Some_0;
    if let Some(data) = last_data(f) {
        if let Body::Span(p, q) = data.body {
            if data.number == 1 {
                lemma_block_fewer(b, p as int, q as int, needed, fewer);
            } else if data.number == 3 {
                let block = inflated(b.subrange(p as int, q as int), MAX_BLOCK)->Some_0;
                lemma_block_fewer(block, 0, block.len() as int, needed, fewer);
            }
        }
    }
}

proof fn lemma_block_fewer(b: Seq<u8>, lo: int, hi: int, needed: Set<i64>, fewer: Set<i64>)
    requires
        fewer.subset_of(needed),
        block_holds(b, lo, hi, needed),
    ensures
        block_holds(b, lo, hi, fewer),
{
    let f = fields(b, lo, hi)->Some_0;
    let s = scale_of(f);
    assert forall|i: int| 0 <= i < f.len() implies block_part_holds(b, #[trigger] f[i], s, fewer) by {
        assert(block_part_holds(b, f[i], s, needed));
        if f[i].number == 2 {
            if let Body::Span(p, q) = f[i].body {
                lemma_group_fewer(b, p as int, q as int, s, needed, fewer);
            }
        }
    }
}

proof fn lemma_group_fewer(
    b: Seq<u8>,
    lo: int,
    hi: int,
    s: Scale,
    needed: Set<i64>,
    fewer: Set<i64>,
)
    requires
        fewer.subset_of(needed),
        group_holds(b, lo, hi, s, needed),
    ensures
        group_holds(b, lo, hi, s, fewer),
{
    let f = fields(b, lo, hi)->Some_0;
    assert forall|i: int| 0 <= i < f.len() implies group_part_holds(b, #[trigger] f[i], s, fewer) by {
        assert(group_part_holds(b, f[i], s, needed));
    }
    if let Some((p, q)) = last_span(f, 2) {
        let g = fields(b, p as int, q as int)->Some_0;
        let ids = column(b, g, 1)->Some_0;
        let lats = column(b, g, 8)->Some_0;
        let lons = column(b, g, 9)->Some_0;
        let n = shorter(ids.len() as int, shorter(lats.len() as int, lons.len() as int));
        assert(dense_placed(ids, lats, lons, n, s, needed));
        assert(dense_placed(ids, lats, lons, n, s, fewer));
    }
}

/// A needed node can be placed exactly where its coordinates can be scaled: the product with
/// the granularity, and its sum with the offset, fit 64 bits.
pub proof fn needed_nodes_are_scaled(b: Seq<u8>, lo: int, hi: int, s: Scale, needed: Set<i64>)
    requires
        fields(b, lo, hi) is Some,
        needed.contains(unzigzag(last_number(fields(b, lo, hi)->Some_0, 1, 0)) as i64),
    ensures
        ({
            let f = fields(b, lo, hi)->Some_0;
            let lat = s.granularity * unzigzag(last_number(f, 8, 0));
            let lon = s.granularity * unzigzag(last_number(f, 9, 0));
            node_holds(b, lo, hi, s, needed) <==> {
                &&& i64::MIN <= lat <= i64::MAX && i64::MIN <= s.lat_offset + lat <= i64::MAX
                &&& i64::MIN <= lon <= i64::MAX && i64::MIN <= s.lon_offset + lon <= i64::MAX
            }
        }),
{
}

/// Dense nodes are summed in three columns, as far as all of them go.
pub proof fn dense_nodes_are_summed(b: Seq<u8>, lo: int, hi: int, s: Scale, needed: Set<i64>, k: int)
    requires
        dense_holds(b, lo, hi, s, needed),
        fields(b, lo, hi) is Some,
    ensures
        ({
            let f = fields(b, lo, hi)->Some_0;
            &&& column(b, f, 1) matches Some(ids)
            &&& column(b, f, 8) matches Some(lats)
            &&& column(b, f, 9) matches Some(lons)
            &&& 0 < k <= ids.len() && k <= lats.len() && k <= lons.len() ==> {
                let (id, lat, lon) = (total(ids.take(k)), total(lats.take(k)), total(lons.take(k)));
                &&& i64::MIN <= id <= i64::MAX
                &&& i64::MIN <= lat <= i64::MAX
                &&& i64::MIN <= lon <= i64::MAX
                &&& needed.contains(id as i64) ==> scales(lat, s.granularity, s.lat_offset) && scales(
                    lon,
                    s.granularity,
                    s.lon_offset,
                )
            }
        }),
{
    let f = fields(b, lo, hi)->Some_0;
    let ids = column(b, f, 1)->Some_0;
    let lats = column(b, f, 8)->Some_0;
    let lons = column(b, f, 9)->Some_0;
    if 0 < k <= ids.len() && k <= lats.len() && k <= lons.len() {
        assert(needed.contains(total(ids.take(k)) as i64) ==> s.places(
            total(lats.take(k)),
            total(lons.take(k)),
        ));
    }
}

}

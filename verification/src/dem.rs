//! The digital elevation model: which tiles exist, which are in memory, which
//! one answers for a point, and when one has to be loaded.
//!
//! Reading a tile is the caller's work. A [`TileStore`] says whether a cell of
//! the tile grid is covered, whether its tile is there or has to be loaded, and
//! which tile leaves when a loaded one is stored in a full cache.

use std::collections::HashMap;
use vstd::prelude::*;
use crate::asc::AscTile;

verus! {

/// Terrain tiles kept in memory: a wide horizon cast revisits about 200 of them.
pub const TERRAIN_CAP: usize = 1024;

/// LIDAR tiles kept in memory.
pub const LIDAR_CAP: usize = 16;

/// A cell of the tile grid as one number.
pub open spec fn packed(key: (i32, i32)) -> u64 {
    ((key.0 + 0x8000_0000) * 0x1_0000_0000 + (key.1 + 0x8000_0000)) as u64
}

/// Different cells have different numbers.
pub proof fn packing_is_injective(a: (i32, i32), b: (i32, i32))
    requires
        packed(a) == packed(b),
    ensures
        a == b,
{
}

fn pack(key: (i32, i32)) -> (r: u64)
    ensures
        r == packed(key),
{
    ((key.0 as i64 + 0x8000_0000) as u64) * 0x1_0000_0000 + (key.1 as i64 + 0x8000_0000) as u64
}

/// Tiles in memory, at most `cap` of them, and the order in which they leave.
pub struct TileCache {
    cap: usize,
    order: Vec<u64>,
    by_key: HashMap<u64, AscTile>,
}

/// `order` without the key that makes room for another.
pub open spec fn evicted(order: Seq<u64>, cap: nat) -> Seq<u64> {
    if order.len() >= cap && order.len() > 0 {
        order.drop_first()
    } else {
        order
    }
}

/// `tiles` without the tile that makes room for another.
pub open spec fn after_eviction(
    tiles: Map<u64, AscTile>,
    order: Seq<u64>,
    cap: nat,
) -> Map<u64, AscTile> {
    if order.len() >= cap && order.len() > 0 {
        tiles.remove(order.first())
    } else {
        tiles
    }
}

/// `order` after a key was used: it now leaves last.
pub open spec fn touched(order: Seq<u64>, key: u64) -> Seq<u64> {
    order.remove_value(key).push(key)
}

impl TileCache {
    /// Each tile stands in the order once, and there are never more than `cap`
    /// of them (but one, where `cap` is zero).
    pub closed spec fn valid(self) -> bool {
        &&& self.order@.no_duplicates()
        &&& forall|k: u64| #[trigger] self.order@.contains(k) <==> self.by_key@.dom().contains(k)
        &&& self.order.len() <= if self.cap == 0 {
            1
        } else {
            self.cap as int
        }
    }

    pub closed spec fn capacity(self) -> nat {
        self.cap as nat
    }

    /// The tiles' keys, the next to leave first.
    pub closed spec fn keys(self) -> Seq<u64> {
        self.order@
    }

    pub closed spec fn tiles(self) -> Map<u64, AscTile> {
        self.by_key@
    }

    pub fn new(cap: usize) -> (c: TileCache)
        ensures
            c.valid(),
            c.capacity() == cap,
            c.keys() == Seq::<u64>::empty(),
            c.tiles() == Map::<u64, AscTile>::empty(),
    {
        broadcast use vstd::std_specs::hash::group_hash_axioms;

        TileCache { cap, order: Vec::new(), by_key: HashMap::new() }
    }

    /// The tile of a cell, if it is in memory.
    pub fn get(&self, key: (i32, i32)) -> (r: Option<&AscTile>)
        requires
            self.valid(),
        ensures
            match r {
                Some(t) => self.tiles().contains_pair(packed(key), *t),
                None => !self.tiles().contains_key(packed(key)),
            },
            r is Some == self.keys().contains(packed(key)),
    {
        broadcast use vstd::std_specs::hash::group_hash_axioms;

        let k: u64 = pack(key);
        assert(self.order@.contains(k) <==> self.by_key@.dom().contains(k));
        self.by_key.get(&k)
    }

    /// Keep a tile; in a full cache the next to leave makes room for it.
    pub fn insert(&mut self, key: (i32, i32), tile: AscTile)
        requires
            old(self).valid(),
            !old(self).keys().contains(packed(key)),
        ensures
            final(self).valid(),
            final(self).capacity() == old(self).capacity(),
            final(self).keys() == evicted(old(self).keys(), old(self).capacity()).push(packed(key)),
            final(self).tiles() == after_eviction(
                old(self).tiles(),
                old(self).keys(),
                old(self).capacity(),
            ).insert(packed(key), tile),
    {
        broadcast use vstd::std_specs::hash::group_hash_axioms;

        let ghost before = *self;
        let k: u64 = pack(key);
        if self.order.len() >= self.cap && self.order.len() > 0 {
            let gone: u64 = self.order.remove(0);
            self.by_key.remove(&gone);
            proof {
                assert(self.order@ =~= before.order@.drop_first());
                lemma_drop_first(before.order@);
                assert forall|x: u64| #[trigger] self.order@.contains(x) <==> self.by_key@.dom().contains(x) by {
                    assert(before.order@.contains(x) <==> before.by_key@.dom().contains(x));
                }
            }
        }
        let ghost kept = *self;
        self.by_key.insert(k, tile);
        self.order.push(k);
        proof {
            assert(!kept.order@.contains(k));
            lemma_push_fresh(kept.order@, k);
            assert forall|x: u64| #[trigger] self.order@.contains(x) <==> self.by_key@.dom().contains(x) by {
                assert(kept.order@.contains(x) <==> kept.by_key@.dom().contains(x));
            }
        }
    }

    /// Note that a tile in memory was used: it now leaves last.
    pub fn touch(&mut self, key: (i32, i32))
        requires
            old(self).valid(),
            old(self).keys().contains(packed(key)),
        ensures
            final(self).valid(),
            final(self).capacity() == old(self).capacity(),
            final(self).tiles() == old(self).tiles(),
            final(self).keys() == touched(old(self).keys(), packed(key)),
    {
        let ghost before = *self;
        let k: u64 = pack(key);
        let mut i: usize = 0;
        while i < self.order.len() && self.order[i] != k
            invariant
                *self == before,
                i <= self.order.len(),
                forall|j: int| 0 <= j < i ==> #[trigger] self.order@[j] != k,
            decreases self.order.len() - i,
        {
            i = i + 1;
        }
        proof {
            let j = choose|j: int| 0 <= j < before.order@.len() && before.order@[j] == k;
            assert(i < self.order.len());
            lemma_index_of_first(before.order@, k, i as int);
            lemma_remove_at(before.order@, i as int);
        }
        self.order.remove(i);
        let ghost rest = self.order@;
        self.order.push(k);
        proof {
            assert(rest =~= before.order@.remove(i as int));
            lemma_push_fresh(rest, k);
            assert forall|x: u64| #[trigger] self.order@.contains(x) <==> self.by_key@.dom().contains(x) by {
                assert(before.order@.contains(x) <==> before.by_key@.dom().contains(x));
            }
        }
    }
}

proof fn lemma_drop_first(order: Seq<u64>)
    requires
        order.no_duplicates(),
        order.len() > 0,
    ensures
        order.drop_first().no_duplicates(),
        forall|x: u64| #[trigger] order.drop_first().contains(x) <==> order.contains(x) && x != order.first(),
{
    let rest = order.drop_first();
    assert forall|x: u64| #[trigger] rest.contains(x) <==> order.contains(x) && x != order.first() by {
        if rest.contains(x) {
            let i = choose|i: int| 0 <= i < rest.len() && rest[i] == x;
            assert(order[i + 1] == x);
        }
        if order.contains(x) && x != order.first() {
            let i = choose|i: int| 0 <= i < order.len() && order[i] == x;
            assert(rest[i - 1] == x);
        }
    }
}

proof fn lemma_push_fresh(order: Seq<u64>, k: u64)
    requires
        order.no_duplicates(),
        !order.contains(k),
    ensures
        order.push(k).no_duplicates(),
        forall|x: u64| #[trigger] order.push(k).contains(x) <==> order.contains(x) || x == k,
{
    let more = order.push(k);
    assert forall|x: u64| #[trigger] more.contains(x) <==> order.contains(x) || x == k by {
        if order.contains(x) {
            let i = choose|i: int| 0 <= i < order.len() && order[i] == x;
            assert(more[i] == x);
        }
        assert(more[order.len() as int] == k);
    }
}

proof fn lemma_remove_at(order: Seq<u64>, i: int)
    requires
        order.no_duplicates(),
        0 <= i < order.len(),
    ensures
        order.remove(i).no_duplicates(),
        forall|x: u64| #[trigger] order.remove(i).contains(x) <==> order.contains(x) && x != order[i],
{
    let rest = order.remove(i);
    assert forall|x: u64| #[trigger] rest.contains(x) <==> order.contains(x) && x != order[i] by {
        if rest.contains(x) {
            let j = choose|j: int| 0 <= j < rest.len() && rest[j] == x;
            assert(order[if j < i { j } else { j + 1 }] == x);
        }
        if order.contains(x) && x != order[i] {
            let j = choose|j: int| 0 <= j < order.len() && order[j] == x;
            assert(rest[if j < i { j } else { j - 1 }] == x);
        }
    }
}

proof fn lemma_index_of_first(order: Seq<u64>, k: u64, i: int)
    requires
        0 <= i < order.len(),
        order[i] == k,
        forall|j: int| 0 <= j < i ==> order[j] != k,
    ensures
        order.remove_value(k) == order.remove(i),
{
    order.index_of_first_ensures(k);
}

/// What is known of a cell of the tile grid.
#[derive(Debug, Clone, Copy, PartialEq, Eq, Structural)]
pub enum Lookup {
    /// No tile covers it.
    Absent,
    /// The tile at this position in the list of files covers it, but is not in
    /// memory.
    Load(usize),
    /// Its tile is in memory.
    Ready,
}

/// The tiles of one data set: those that exist, and those in memory.
pub struct TileStore {
    index: HashMap<u64, usize>,
    cache: TileCache,
}

/// The files' cells, where they have one, as a map from cell to file: of two
/// files for one cell the later counts.
pub open spec fn indexed(files: Seq<Option<(i32, i32)>>) -> Map<u64, usize>
    decreases files.len(),
{
    if files.len() == 0 {
        Map::empty()
    } else {
        match files.last() {
            Some(key) => indexed(files.drop_last()).insert(packed(key), (files.len() - 1) as usize),
            None => indexed(files.drop_last()),
        }
    }
}

impl TileStore {
    pub closed spec fn valid(self) -> bool {
        &&& self.cache.valid()
        &&& self.index@.dom().finite()
        &&& forall|k: u64| #[trigger] self.cache.keys().contains(k) ==> self.index@.contains_key(k)
    }

    /// The file that covers each covered cell.
    pub closed spec fn files(self) -> Map<u64, usize> {
        self.index@
    }

    pub closed spec fn memory(self) -> TileCache {
        self.cache
    }

    /// Index the files of a data set by the cells they cover. A file that could
    /// not be read has no cell.
    pub fn new(files: &Vec<Option<(i32, i32)>>, cap: usize) -> (s: TileStore)
        ensures
            s.valid(),
            s.files() == indexed(files@),
            s.memory().capacity() == cap,
            s.memory().keys() == Seq::<u64>::empty(),
    {
        broadcast use vstd::std_specs::hash::group_hash_axioms;

        let mut index: HashMap<u64, usize> = HashMap::new();
        let mut i: usize = 0;
        while i < files.len()
            invariant
                i <= files.len(),
                index@ == indexed(files@.take(i as int)),
                index@.dom().finite(),
            decreases files.len() - i,
        {
            broadcast use vstd::std_specs::hash::group_hash_axioms;

            proof {
                assert(files@.take(i as int + 1).drop_last() =~= files@.take(i as int));
            }
            if let Some(key) = files[i] {
                index.insert(pack(key), i);
            }
            i = i + 1;
        }
        proof {
            assert(files@.take(i as int) =~= files@);
        }
        let cache = TileCache::new(cap);
        TileStore { index, cache }
    }

    /// How many cells are covered.
    pub fn tile_count(&self) -> (n: usize)
        requires
            self.valid(),
        ensures
            n == self.files().len(),
    {
        broadcast use vstd::std_specs::hash::group_hash_axioms;

        self.index.len()
    }

    pub fn lookup(&self, key: (i32, i32)) -> (r: Lookup)
        requires
            self.valid(),
        ensures
            r == (if !self.files().contains_key(packed(key)) {
                Lookup::Absent
            } else if self.memory().keys().contains(packed(key)) {
                Lookup::Ready
            } else {
                Lookup::Load(self.files()[packed(key)])
            }),
    {
        broadcast use vstd::std_specs::hash::group_hash_axioms;

        let k: u64 = pack(key);
        match self.index.get(&k) {
            None => Lookup::Absent,
            Some(at) => {
                if self.cache.get(key).is_some() {
                    Lookup::Ready
                } else {
                    Lookup::Load(*at)
                }
            },
        }
    }

    /// The tile of a cell, if it is in memory.
    pub fn tile(&self, key: (i32, i32)) -> (r: Option<&AscTile>)
        requires
            self.valid(),
        ensures
            match r {
                Some(t) => self.memory().tiles().contains_pair(packed(key), *t),
                None => !self.memory().tiles().contains_key(packed(key)),
            },
            r is Some == self.memory().keys().contains(packed(key)),
    {
        self.cache.get(key)
    }

    /// Keep a loaded tile.
    pub fn store(&mut self, key: (i32, i32), tile: AscTile)
        requires
            old(self).valid(),
            old(self).files().contains_key(packed(key)),
            !old(self).memory().keys().contains(packed(key)),
        ensures
            final(self).valid(),
            final(self).files() == old(self).files(),
            final(self).memory().capacity() == old(self).memory().capacity(),
            final(self).memory().keys() == evicted(
                old(self).memory().keys(),
                old(self).memory().capacity(),
            ).push(packed(key)),
            final(self).memory().tiles() == after_eviction(
                old(self).memory().tiles(),
                old(self).memory().keys(),
                old(self).memory().capacity(),
            ).insert(packed(key), tile),
    {
        let ghost before = *self;
        self.cache.insert(key, tile);
        proof {
            let was = before.cache.keys();
            let now = self.cache.keys();
            assert forall|k: u64| #[trigger] now.contains(k) implies self.index@.contains_key(k) by {
                let i = choose|i: int| 0 <= i < now.len() && now[i] == k;
                if k != packed(key) {
                    let kept = evicted(was, before.cache.capacity());
                    assert(kept[i] == k);
                    if was.len() >= before.cache.capacity() && was.len() > 0 {
                        assert(was[i + 1] == k);
                    } else {
                        assert(was[i] == k);
                    }
                    assert(was.contains(k));
                }
            }
        }
    }

    /// Note that a tile in memory was used, so that it leaves last.
    pub fn touch(&mut self, key: (i32, i32))
        requires
            old(self).valid(),
            old(self).memory().keys().contains(packed(key)),
        ensures
            final(self).valid(),
            final(self).files() == old(self).files(),
            final(self).memory().capacity() == old(self).memory().capacity(),
            final(self).memory().tiles() == old(self).memory().tiles(),
            final(self).memory().keys() == touched(old(self).memory().keys(), packed(key)),
    {
        let ghost before = *self;
        self.cache.touch(key);
        proof {
            assert forall|k: u64| #[trigger] self.cache.keys().contains(k) implies self.index@.contains_key(k) by {
                assert(self.cache.order@.contains(k) <==> self.cache.by_key@.dom().contains(k));
                assert(before.cache.order@.contains(k) <==> before.cache.by_key@.dom().contains(k));
                assert(before.cache.keys().contains(k));
            }
        }
    }

    /// Which of the `keys` are near and covered but not in memory, in order.
    pub fn missing_near(&self, keys: &Vec<(i32, i32)>, near: &Vec<bool>) -> (want: Vec<(i32, i32)>)
        requires
            self.valid(),
            keys.len() == near.len(),
        ensures
            want@ == self.wanted(keys@, near@),
    {
        let mut want: Vec<(i32, i32)> = Vec::new();
        let mut i: usize = 0;
        while i < keys.len()
            invariant
                self.valid(),
                keys.len() == near.len(),
                i <= keys.len(),
                want@ == self.wanted(keys@.take(i as int), near@.take(i as int)),
            decreases keys.len() - i,
        {
            proof {
                assert(keys@.take(i as int + 1).drop_last() =~= keys@.take(i as int));
                assert(near@.take(i as int + 1).drop_last() =~= near@.take(i as int));
            }
            let key = keys[i];
            if near[i] {
                if let Lookup::Load(_) = self.lookup(key) {
                    want.push(key);
                }
            }
            i = i + 1;
        }
        proof {
            assert(keys@.take(i as int) =~= keys@);
            assert(near@.take(i as int) =~= near@);
        }
        want
    }

    pub open spec fn wanted(self, keys: Seq<(i32, i32)>, near: Seq<bool>) -> Seq<(i32, i32)>
        decreases keys.len(),
    {
        if keys.len() == 0 {
            Seq::empty()
        } else {
            let before = self.wanted(keys.drop_last(), near.drop_last());
            if near.last() && self.files().contains_key(packed(keys.last()))
                && !self.memory().keys().contains(packed(keys.last())) {
                before.push(keys.last())
            } else {
                before
            }
        }
    }
}

/// Why an elevation model cannot be opened.
#[derive(Debug)]
pub enum DemError {
    Io(std::io::Error),
    /// The directory does not exist.
    DirMissing(String),
    /// The directory holds no readable `.asc` file.
    Empty(String),
}

/// The elevation model: OS Terrain 50, and a LIDAR overlay that is preferred
/// where it has coverage.
pub struct Dem {
    pub base: TileStore,
    pub lidar: Option<TileStore>,
}

impl Dem {
    /// Open the model over a directory: `present` says whether the directory is
    /// there, and `files` which cell each of its `.asc` files covers, where the
    /// header could be read.
    pub fn open(dir: &str, present: bool, files: &Vec<Option<(i32, i32)>>) -> (r: Result<
        Dem,
        DemError,
    >)
        ensures
            if !present {
                r matches Err(DemError::DirMissing(d)) && d@ == dir@
            } else if forall|i: int| 0 <= i < files.len() ==> (#[trigger] files@[i]) is None {
                r matches Err(DemError::Empty(d)) && d@ == dir@
            } else {
                &&& r matches Ok(m)
                &&& m.base.valid()
                &&& m.base.files() == indexed(files@)
                &&& m.base.memory().capacity() == TERRAIN_CAP
                &&& m.base.memory().keys() == Seq::<u64>::empty()
                &&& m.lidar is None
            },
    {
        if !present {
            return Err(DemError::DirMissing(dir.to_owned()));
        }
        let base = TileStore::new(files, TERRAIN_CAP);
        proof {
            lemma_indexed_empty(files@);
        }
        if base.tile_count() == 0 {
            proof {
                assert(base.files().dom() =~= Set::empty());
            }
            return Err(DemError::Empty(dir.to_owned()));
        }
        Ok(Dem { base, lidar: None })
    }

    /// Attach a LIDAR overlay. No-op if there is none to attach. Returns the
    /// number of LIDAR tiles indexed.
    pub fn attach_lidar(&mut self, overlay: Option<TileStore>) -> (n: usize)
        requires
            overlay matches Some(s) ==> s.valid(),
        ensures
            final(self).base == old(self).base,
            match overlay {
                Some(s) => final(self).lidar == Some(s) && n == s.files().len(),
                None => final(self).lidar == old(self).lidar && n == 0,
            },
    {
        match overlay {
            None => 0,
            Some(s) => {
                let n = s.tile_count();
                self.lidar = Some(s);
                n
            },
        }
    }

    /// True if a LIDAR overlay is attached.
    pub fn has_lidar(&self) -> (r: bool)
        ensures
            r == self.lidar is Some,
    {
        self.lidar.is_some()
    }

    pub fn tile_count(&self) -> (n: usize)
        requires
            self.base.valid(),
        ensures
            n == self.base.files().len(),
    {
        self.base.tile_count()
    }
}

/// The LIDAR overlay over a list of zips, if any of them could be indexed.
pub fn open_lidar(zips: &Vec<Option<(i32, i32)>>) -> (r: Option<TileStore>)
    ensures
        match r {
            None => forall|i: int| 0 <= i < zips.len() ==> (#[trigger] zips@[i]) is None,
            Some(s) => {
                &&& exists|i: int| 0 <= i < zips.len() && (#[trigger] zips@[i]) is Some
                &&& s.valid()
                &&& s.files() == indexed(zips@)
                &&& s.memory().capacity() == LIDAR_CAP
                &&& s.memory().keys() == Seq::<u64>::empty()
            },
        },
{
    let s = TileStore::new(zips, LIDAR_CAP);
    proof {
        lemma_indexed_empty(zips@);
    }
    if s.tile_count() == 0 {
        proof {
            assert(s.files().dom() =~= Set::empty());
        }
        None
    } else {
        Some(s)
    }
}

/// The elevation that counts: LIDAR's where it has one, else the base model's.
pub fn prefer_lidar<T>(lidar: Option<T>, base: Option<T>) -> (r: Option<T>)
    ensures
        r == (if lidar is Some {
            lidar
        } else {
            base
        }),
{
    match lidar {
        Some(v) => Some(v),
        None => base,
    }
}

proof fn lemma_indexed_empty(files: Seq<Option<(i32, i32)>>)
    ensures
        indexed(files).dom().finite(),
        (indexed(files).len() == 0) == (forall|i: int|
            0 <= i < files.len() ==> (#[trigger] files[i]) is None),
    decreases files.len(),
{
    if files.len() > 0 {
        let rest = files.drop_last();
        lemma_indexed_empty(rest);
        match files.last() {
            Some(key) => {
                assert(indexed(files).dom().contains(packed(key)));
                if indexed(files).dom().len() == 0 {
                    assert(indexed(files).dom() =~= Set::empty());
                }
                assert(files[files.len() - 1] is Some);
            },
            None => {
                assert(indexed(files) == indexed(rest));
                if forall|i: int| 0 <= i < rest.len() ==> (#[trigger] rest[i]) is None {
                    assert forall|i: int| 0 <= i < files.len() implies (#[trigger] files[i]) is None by {
                        if i < rest.len() {
                            assert(rest[i] == files[i]);
                        }
                    }
                } else {
                    let i = choose|i: int| 0 <= i < rest.len() && (#[trigger] rest[i]) is Some;
                    assert(files[i] == rest[i]);
                }
            },
        }
    }
}

/// A tile just stored is in memory, and the cache never outgrows its capacity
/// (one tile, where that is zero).
pub proof fn stored_tile_is_kept(order: Seq<u64>, cap: nat, key: u64)
    requires
        order.len() <= if cap == 0 {
            1
        } else {
            cap
        },
    ensures
        evicted(order, cap).push(key).contains(key),
        evicted(order, cap).push(key).len() <= if cap == 0 {
            1
        } else {
            cap
        },
{
    let after = evicted(order, cap).push(key);
    assert(after[after.len() - 1] == key);
}

/// Only the oldest tile can leave: every other stays, in its place.
pub proof fn only_the_oldest_leaves(order: Seq<u64>, cap: nat, key: u64, i: int)
    requires
        0 < i < order.len(),
    ensures
        evicted(order, cap).push(key).contains(order[i]),
{
    let after = evicted(order, cap).push(key);
    if order.len() >= cap {
        assert(after[i - 1] == order[i]);
    } else {
        assert(after[i] == order[i]);
    }
}

/// A tile that was just used outlives the next store, unless it is alone.
pub proof fn touched_tile_survives(order: Seq<u64>, cap: nat, used: u64, key: u64)
    requires
        order.contains(used),
        order.len() > 1,
    ensures
        evicted(touched(order, used), cap).push(key).contains(used),
{
    order.index_of_first_ensures(used);
    let after = touched(order, used);
    only_the_oldest_leaves(after, cap, key, after.len() - 1);
}

/// The tile of a cell is the last of the files that cover it; a cell is covered exactly if
/// some file covers it.
pub proof fn the_last_file_of_a_cell_counts(files: Seq<Option<(i32, i32)>>, key: (i32, i32))
    requires
        files.len() <= usize::MAX,
    ensures
        indexed(files).contains_key(packed(key)) <==> exists|i: int|
            0 <= i < files.len() && #[trigger] files[i] == Some(key),
        indexed(files).contains_key(packed(key)) ==> {
            let at = indexed(files)[packed(key)];
            &&& at < files.len() && files[at as int] == Some(key)
            &&& forall|i: int| at < i < files.len() ==> #[trigger] files[i] != Some(key)
        },
    decreases files.len(),
{
    if files.len() > 0 {
        let before = files.drop_last();
        let last = files.len() - 1;
        the_last_file_of_a_cell_counts(before, key);
        assert(files[last] == files.last());
        assert(forall|i: int| 0 <= i < before.len() ==> #[trigger] files[i] == before[i]);
        assert(forall|i: int| 0 <= i < before.len() ==> #[trigger] before[i] == files[i]);
        if let Some(other) = files.last() {
            if packed(other) == packed(key) {
                packing_is_injective(other, key);
            }
        }
        if files[last] == Some(key) {
            assert(indexed(files).contains_key(packed(key)));
        } else {
            assert(indexed(files).contains_key(packed(key)) == indexed(before).contains_key(
                packed(key),
            ));
        }
    }
}

/// Exactly the near cells that are covered and not in memory are loaded, in order.
pub proof fn near_cells_are_loaded_once(
    s: TileStore,
    keys: Seq<(i32, i32)>,
    near: Seq<bool>,
    key: (i32, i32),
    is_near: bool,
)
    requires
        keys.len() == near.len(),
    ensures
        is_near && s.files().contains_key(packed(key)) && !s.memory().keys().contains(packed(key))
            ==> s.wanted(keys.push(key), near.push(is_near)) == s.wanted(keys, near).push(key),
        !is_near || !s.files().contains_key(packed(key)) || s.memory().keys().contains(packed(key))
            ==> s.wanted(keys.push(key), near.push(is_near)) == s.wanted(keys, near),
        s.wanted(Seq::empty(), Seq::empty()).len() == 0,
{
    assert(keys.push(key).drop_last() =~= keys);
    assert(near.push(is_near).drop_last() =~= near);
}

/// Nothing leaves a cache that is not full; from a full one the oldest leaves, and it
/// alone.
pub proof fn room_is_made_only_in_a_full_cache(
    tiles: Map<u64, AscTile>,
    order: Seq<u64>,
    cap: nat,
    k: u64,
)
    ensures
        order.len() < cap ==> evicted(order, cap) == order && after_eviction(tiles, order, cap)
            == tiles,
        order.len() >= cap && order.len() > 0 ==> {
            &&& evicted(order, cap) == order.drop_first()
            &&& after_eviction(tiles, order, cap).contains_key(k) <==> tiles.contains_key(k) && k
                != order[0]
            &&& tiles.contains_key(k) && k != order[0] ==> after_eviction(tiles, order, cap)[k]
                == tiles[k]
        },
{
}

/// The packed number of a cell counts columns in its upper half and rows in its lower one.
pub proof fn packing_keeps_both_halves(key: (i32, i32))
    ensures
        packed(key) / 0x1_0000_0000 == key.0 + 0x8000_0000,
        packed(key) % 0x1_0000_0000 == key.1 + 0x8000_0000,
{
}

/// LIDAR's elevation counts wherever there is one, and the base model's elsewhere.
pub proof fn lidar_comes_first<T>(lidar: Option<T>, base: Option<T>, r: Option<T>)
    requires
        call_ensures(prefer_lidar::<T>, (lidar, base), r),
    ensures
        lidar is Some ==> r == lidar,
        lidar is None ==> r == base,
{
}

/// A cell is looked up in the index first: what no file covers is absent, what is in memory
/// is ready, and the rest is to be loaded from its own file.
pub proof fn cells_are_absent_ready_or_to_load(s: &TileStore, key: (i32, i32), r: Lookup)
    requires
        s.valid(),
        call_ensures(TileStore::lookup, (s, key), r),
    ensures
        r == Lookup::Absent <==> !s.files().contains_key(packed(key)),
        r == Lookup::Ready <==> s.files().contains_key(packed(key)) && s.memory().keys().contains(
            packed(key),
        ),
        r matches Lookup::Load(at) ==> s.files()[packed(key)] == at && !s.memory().keys().contains(
            packed(key),
        ),
{
}

/// A model is opened exactly where its directory is there and at least one of its files has a
/// cell; it starts with nothing in memory and no overlay.
pub proof fn models_need_one_readable_file(
    dir: &str,
    present: bool,
    files: &Vec<Option<(i32, i32)>>,
    r: Result<Dem, DemError>,
)
    requires
        call_ensures(Dem::open, (dir, present, files), r),
    ensures
        r is Ok <==> present && exists|i: int| 0 <= i < files.len() && (#[trigger] files@[i]) is Some,
        !present ==> (r matches Err(DemError::DirMissing(d)) && d@ == dir@),
        present && r is Err ==> (r matches Err(DemError::Empty(d)) && d@ == dir@),
        r matches Ok(m) ==> m.lidar is None && m.base.files() == indexed(files@)
            && m.base.memory().keys().len() == 0 && m.base.memory().capacity() == 1024,
{
}

/// An overlay is opened exactly where at least one of its zips has a cell.
pub proof fn overlays_need_one_readable_zip(zips: &Vec<Option<(i32, i32)>>, r: Option<TileStore>)
    requires
        call_ensures(open_lidar, (zips,), r),
    ensures
        r is Some <==> exists|i: int| 0 <= i < zips.len() && (#[trigger] zips@[i]) is Some,
        r matches Some(s) ==> s.files() == indexed(zips@) && s.memory().keys().len() == 0
            && s.memory().capacity() == 16,
{
}

/// A tile that was used goes to the end of the order; the others close up behind it and keep
/// their order.
pub proof fn used_tiles_go_to_the_end(order: Seq<u64>, i: int)
    requires
        order.no_duplicates(),
        0 <= i < order.len(),
    ensures
        touched(order, order[i]).len() == order.len(),
        touched(order, order[i]).last() == order[i],
        forall|j: int| 0 <= j < i ==> #[trigger] touched(order, order[i])[j] == order[j],
        forall|j: int|
            i <= j < order.len() - 1 ==> #[trigger] touched(order, order[i])[j] == order[j + 1],
{
    lemma_index_of_first(order, order[i], i);
}

}

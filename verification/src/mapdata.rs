//! Walker paths from an OpenStreetMap extract.
//!
//! The extract does not hold coordinates on ways, so it is read twice: the first
//! pass collects the path ways and the nodes they refer to, the second those
//! nodes' coordinates. Each way then falls into unbroken runs.

use std::collections::{HashMap, HashSet};
use vstd::prelude::*;
use crate::ieee::Double;
use crate::pbf::{check_numbers, numbers_hold};
use crate::text::same_text;

verus! {

/// 400 m in binary64: a single straight segment longer than this breaks the line
/// (better a small gap than a straight line drawn across the terrain).
pub const MAX_SEGMENT_BITS: u64 = 0x4079_0000_0000_0000;

/// What kind of path a way is, for styling.
#[derive(Debug, Clone, Copy, PartialEq, Eq, Structural)]
pub enum PathKind {
    /// Footway, path, steps, pedestrian — on-foot routes.
    Foot,
    /// Bridleway (horse/foot/cycle).
    Bridleway,
    /// Track (farm/forestry, walkable).
    Track,
}

/// The last value that the tags give a key.
pub open spec fn tag_value(tags: Seq<(Seq<char>, Seq<char>)>, key: Seq<char>) -> Option<Seq<char>>
    decreases tags.len(),
{
    if tags.len() == 0 {
        None
    } else if tags.last().0 == key {
        Some(tags.last().1)
    } else {
        tag_value(tags.drop_last(), key)
    }
}

/// The kind of path that a `highway` value stands for.
pub open spec fn highway_kind(value: Seq<char>) -> Option<PathKind> {
    if value == "footway"@ || value == "path"@ || value == "steps"@ || value == "pedestrian"@
        || value == "cycleway"@ {
        Some(PathKind::Foot)
    } else if value == "bridleway"@ {
        Some(PathKind::Bridleway)
    } else if value == "track"@ {
        Some(PathKind::Track)
    } else {
        None
    }
}

/// The kind of path that tags describe: by the `highway` value, or else, where a
/// right of way is designated, a path on foot.
pub open spec fn path_kind(tags: Seq<(Seq<char>, Seq<char>)>) -> Option<PathKind> {
    let by_highway = match tag_value(tags, "highway"@) {
        Some(v) => highway_kind(v),
        None => None,
    };
    if by_highway is Some {
        by_highway
    } else if tag_value(tags, "designation"@) is Some {
        Some(PathKind::Foot)
    } else {
        None
    }
}

pub open spec fn tag_views(tags: Seq<(&str, &str)>) -> Seq<(Seq<char>, Seq<char>)> {
    tags.map_values(|t: (&str, &str)| (t.0@, t.1@))
}

fn kind_of_highway(value: &str) -> (r: Option<PathKind>)
    ensures
        r == highway_kind(value@),
{
    if same_text(value, "footway") || same_text(value, "path") || same_text(value, "steps")
        || same_text(value, "pedestrian") || same_text(value, "cycleway") {
        Some(PathKind::Foot)
    } else if same_text(value, "bridleway") {
        Some(PathKind::Bridleway)
    } else if same_text(value, "track") {
        Some(PathKind::Track)
    } else {
        None
    }
}

/// Decide whether an OSM way is a walker path, from its tags.
pub fn classify(tags: &[(&str, &str)]) -> (r: Option<PathKind>)
    ensures
        r == path_kind(tag_views(tags@)),
{
    let ghost views = tag_views(tags@);
    let mut highway: Option<&str> = None;
    let mut designated = false;
    let mut i: usize = 0;
    while i < tags.len()
        invariant
            i <= tags.len(),
            views == tag_views(tags@),
            match tag_value(views.take(i as int), "highway"@) {
                Some(v) => highway matches Some(h) && h@ == v,
                None => highway is None,
            },
            designated == tag_value(views.take(i as int), "designation"@) is Some,
        decreases tags.len() - i,
    {
        let (k, v) = tags[i];
        proof {
            assert(views.take(i as int + 1).drop_last() =~= views.take(i as int));
            assert(views[i as int] == (k@, v@));
            reveal_strlit("highway");
            reveal_strlit("designation");
            assert("highway"@.len() != "designation"@.len());
        }
        if same_text(k, "highway") {
            highway = Some(v);
        } else if same_text(k, "designation") {
            designated = true;
        }
        i = i + 1;
    }
    proof {
        assert(views.take(i as int) =~= views);
    }
    let by_highway = match highway {
        Some(v) => kind_of_highway(v),
        None => None,
    };
    if by_highway.is_some() {
        by_highway
    } else if designated {
        Some(PathKind::Foot)
    } else {
        None
    }
}

#[verifier::external_type_specification]
#[verifier::external_body]
pub struct ExOsmError(osmpbf::Error);

/// The nodes that a way's deltas lead through: the first is the first node, each
/// other says how far the number moves on. Sums stay within 64 bits.
pub open spec fn way_refs(deltas: Seq<i64>) -> Seq<i64>
    decreases deltas.len(),
{
    if deltas.len() == 0 {
        Seq::empty()
    } else {
        let before = way_refs(deltas.drop_last());
        before.push(last_ref(before).wrapping_add(deltas.last()))
    }
}

/// The node that was reached last; numbers start from zero.
pub open spec fn last_ref(refs: Seq<i64>) -> i64 {
    if refs.len() == 0 {
        0
    } else {
        refs.last()
    }
}

fn follow_deltas(deltas: &Vec<i64>) -> (refs: Vec<i64>)
    ensures
        refs@ == way_refs(deltas@),
{
    let mut refs: Vec<i64> = Vec::new();
    let mut current: i64 = 0;
    let mut i: usize = 0;
    while i < deltas.len()
        invariant
            i <= deltas.len(),
            refs@ == way_refs(deltas@.take(i as int)),
            current == last_ref(refs@),
        decreases deltas.len() - i,
    {
        proof {
            assert(deltas@.take(i as int + 1).drop_last() =~= deltas@.take(i as int));
        }
        current = current.wrapping_add(deltas[i]);
        refs.push(current);
        i = i + 1;
    }
    proof {
        assert(deltas@.take(i as int) =~= deltas@);
    }
    refs
}

/// An element of an extract, as far as paths need it.
pub enum ElementView {
    Node { id: i64, lat: Double, lon: Double },
    Way { tags: Seq<(Seq<char>, Seq<char>)>, refs: Seq<i64> },
    Other,
}

/// What the two passes over an extract collect.
pub struct PathCollector {
    ways: Vec<(PathKind, Vec<i64>)>,
    needed: HashSet<i64>,
    coords: HashMap<i64, (Double, Double)>,
    second: bool,
}

pub struct Collected {
    /// The path ways: their kind and the nodes they refer to.
    pub ways: Seq<(PathKind, Seq<i64>)>,
    /// The nodes that some path refers to.
    pub needed: Set<i64>,
    /// The coordinates (latitude, longitude) of those nodes.
    pub coords: Map<i64, (Double, Double)>,
    /// The second pass is under way.
    pub second: bool,
}

pub open spec fn way_views(ways: Seq<(PathKind, Vec<i64>)>) -> Seq<(PathKind, Seq<i64>)> {
    ways.map_values(|w: (PathKind, Vec<i64>)| (w.0, w.1@))
}

impl View for PathCollector {
    type V = Collected;

    closed spec fn view(&self) -> Collected {
        Collected {
            ways: way_views(self.ways@),
            needed: self.needed@,
            coords: self.coords@,
            second: self.second,
        }
    }
}

/// What is collected after one more element: in the first pass path ways and
/// their nodes, in the second the coordinates of needed nodes.
pub open spec fn visited(c: Collected, e: ElementView) -> Collected {
    match e {
        ElementView::Way { tags, refs } => match path_kind(tags) {
            Some(kind) => if c.second {
                c
            } else {
                Collected {
                    ways: c.ways.push((kind, refs)),
                    needed: c.needed.union(refs.to_set()),
                    ..c
                }
            },
            None => c,
        },
        ElementView::Node { id, lat, lon } => if c.second && c.needed.contains(id) {
            Collected { coords: c.coords.insert(id, (lat, lon)), ..c }
        } else {
            c
        },
        ElementView::Other => c,
    }
}

/// What is collected after the first `n` elements.
pub open spec fn visited_all(c: Collected, elements: Seq<ElementView>, n: int) -> Collected
    decreases n,
{
    if n <= 0 {
        c
    } else {
        visited(visited_all(c, elements, n - 1), elements[n - 1])
    }
}

/// The nodes whose coordinates the next element may be asked for.
pub open spec fn wanted(c: Collected) -> Set<i64> {
    if c.second {
        c.needed
    } else {
        Set::empty()
    }
}

pub open spec fn nothing_yet() -> Collected {
    Collected { ways: Seq::empty(), needed: Set::empty(), coords: Map::empty(), second: false }
}

/// What the first pass over an extract collects.
pub open spec fn first_pass(elements: Seq<ElementView>) -> Collected {
    visited_all(nothing_yet(), elements, elements.len() as int)
}

/// What both passes over an extract collect.
pub open spec fn collected(elements: Seq<ElementView>) -> Collected {
    visited_all(
        Collected { second: true, ..first_pass(elements) },
        elements,
        elements.len() as int,
    )
}

impl PathCollector {
    fn new() -> (c: PathCollector)
        ensures
            c@ == nothing_yet(),
    {
        broadcast use vstd::std_specs::hash::group_hash_axioms;

        let c = PathCollector {
            ways: Vec::new(),
            needed: HashSet::new(),
            coords: HashMap::new(),
            second: false,
        };
        proof {
            assert(way_views(c.ways@) =~= Seq::empty());
        }
        c
    }

    /// A node. Its coordinates are only asked for where they are needed.
    fn visit_node<F: FnOnce() -> (Double, Double)>(&mut self, id: i64, at: F)
        requires
            wanted(old(self)@).contains(id) ==> at.requires(()),
        ensures
            if wanted(old(self)@).contains(id) {
                exists|p: (Double, Double)| #[trigger]
                    at.ensures((), p) && final(self)@ == visited(
                        old(self)@,
                        ElementView::Node { id, lat: p.0, lon: p.1 },
                    )
            } else {
                final(self)@ == old(self)@
            },
    {
        broadcast use vstd::std_specs::hash::group_hash_axioms;

        if self.second && self.needed.contains(&id) {
            let p = at();
            self.coords.insert(id, p);
        }
    }

    /// A way, by its tags and the deltas of its nodes.
    fn visit_way(&mut self, tags: Vec<(&str, &str)>, deltas: Vec<i64>)
        ensures
            final(self)@ == visited(
                old(self)@,
                ElementView::Way { tags: tag_views(tags@), refs: way_refs(deltas@) },
            ),
    {
        broadcast use vstd::std_specs::hash::group_hash_axioms;

        if self.second {
            return;
        }
        let ghost before = *self;
        if let Some(kind) = classify(tags.as_slice()) {
            let refs = follow_deltas(&deltas);
            let mut i: usize = 0;
            proof {
                assert(refs@.take(0).to_set() =~= Set::empty());
                assert(before.needed@.union(Set::empty()) =~= before.needed@);
            }
            while i < refs.len()
                invariant
                    i <= refs.len(),
                    self.ways == before.ways,
                    self.coords == before.coords,
                    self.second == before.second,
                    self.needed@ == before.needed@.union(refs@.take(i as int).to_set()),
                decreases refs.len() - i,
            {
                broadcast use vstd::std_specs::hash::group_hash_axioms;

                self.needed.insert(refs[i]);
                proof {
                    lemma_take_set(refs@, i as int);
                    assert(self.needed@ =~= before.needed@.union(refs@.take(i as int + 1).to_set()));
                }
                i = i + 1;
            }
            proof {
                assert(refs@.take(i as int) =~= refs@);
            }
            let ghost r = refs@;
            self.ways.push((kind, refs));
            proof {
                assert(way_views(self.ways@) =~= way_views(before.ways@).push((kind, r)));
            }
        }
    }
}

proof fn lemma_take_set(refs: Seq<i64>, i: int)
    requires
        0 <= i < refs.len(),
    ensures
        refs.take(i + 1).to_set() == refs.take(i).to_set().insert(refs[i]),
{
    let (a, b) = (refs.take(i), refs.take(i + 1));
    assert forall|x: i64| b.to_set().contains(x) <==> a.to_set().insert(refs[i]).contains(x) by {
        if b.contains(x) {
            let k = choose|k: int| 0 <= k < b.len() && b[k] == x;
            if k < i {
                assert(a[k] == x);
            }
        }
        if a.contains(x) {
            let k = choose|k: int| 0 <= k < a.len() && a[k] == x;
            assert(b[k] == x);
        }
        assert(b[i] == refs[i]);
    }
    assert(b.to_set() =~= a.to_set().insert(refs[i]));
}

/// The elements that `osmpbf::ElementReader::for_each` hands out for an extract,
/// in order; `None` where it fails.
pub uninterp spec fn osm_elements(extract: Seq<u8>) -> Option<Seq<ElementView>>;

/// `osmpbf::ElementReader::for_each` over an extract in memory: the collector
/// visits each element, in order. Which elements there are is a function of the
/// bytes alone; they are named, not stated. Nodes and dense nodes are both
/// nodes, with the coordinates that `lat` and `lon` give; of a way it takes
/// `raw_refs`, so that no sum of references is formed outside. Where reading fails,
/// what was collected until then is left open. The reader sums the deltas of dense
/// nodes, and `lat` and `lon` scale coordinates, with plain 64- and 32-bit
/// arithmetic; extracts on which that overflows are left out.
#[verifier::external_body]
fn for_each_element(extract: &[u8], sink: &mut PathCollector) -> (r: Result<(), osmpbf::Error>)
    requires
        numbers_hold(extract@, wanted(old(sink)@)),
    ensures
        match osm_elements(extract@) {
            Some(e) => r is Ok && final(sink)@ == visited_all(old(sink)@, e, e.len() as int),
            None => r is Err,
        },
{
    osmpbf::ElementReader::new(extract).for_each(|e| match e {
        osmpbf::Element::Node(n) => sink.visit_node(n.id(), || (
            Double { bits: n.lat().to_bits() }, Double { bits: n.lon().to_bits() },
        )),
        osmpbf::Element::DenseNode(n) => sink.visit_node(n.id(), || (
            Double { bits: n.lat().to_bits() }, Double { bits: n.lon().to_bits() },
        )),
        osmpbf::Element::Way(w) => sink.visit_way(w.tags().collect(), w.raw_refs().to_vec()),
        osmpbf::Element::Relation(_) => {},
    })
}

/// Why an extract cannot be used.
#[derive(Debug)]
pub enum PathError {
    /// The extract's blocks cannot be walked, or hold numbers whose sums and
    /// products leave their range.
    Numbers,
    /// The extract cannot be read.
    Osm(osmpbf::Error),
}

/// A path way with the coordinates of its nodes; `None` where the extract lacks
/// a node.
#[derive(Debug)]
pub struct LooseWay {
    pub kind: PathKind,
    pub nodes: Vec<Option<(Double, Double)>>,
}

/// The coordinates of nodes, where there are any.
pub open spec fn located(refs: Seq<i64>, coords: Map<i64, (Double, Double)>) -> Seq<
    Option<(Double, Double)>,
> {
    refs.map_values(
        |id: i64|
            if coords.contains_key(id) {
                Some(coords[id])
            } else {
                None
            },
    )
}

/// `ways` are the collected path ways, in order, with their nodes located.
pub open spec fn resolves(ways: Seq<LooseWay>, c: Collected) -> bool {
    &&& ways.len() == c.ways.len()
    &&& forall|i: int|
        0 <= i < ways.len() ==> (#[trigger] ways[i]).kind == c.ways[i].0 && ways[i].nodes@
            == located(c.ways[i].1, c.coords)
}

/// Read an extract and return every walker path with its nodes located, to be
/// cut into runs by [`stitch_paths`].
pub fn load_paths(extract: &[u8]) -> (r: Result<Vec<LooseWay>, PathError>)
    ensures
        if !numbers_hold(extract@, Set::empty()) {
            r matches Err(PathError::Numbers)
        } else {
            match osm_elements(extract@) {
                Some(e) => if !numbers_hold(extract@, first_pass(e).needed) {
                    r matches Err(PathError::Numbers)
                } else {
                    r matches Ok(ways) && resolves(ways@, collected(e))
                },
                None => r matches Err(PathError::Osm(_)),
            }
        },
{
    broadcast use vstd::std_specs::hash::group_hash_axioms;

    let mut c = PathCollector::new();
    if !check_numbers(extract, &c.needed) {
        return Err(PathError::Numbers);
    }
    match for_each_element(extract, &mut c) {
        Ok(()) => {},
        Err(e) => return Err(PathError::Osm(e)),
    }
    if !check_numbers(extract, &c.needed) {
        return Err(PathError::Numbers);
    }
    c.second = true;
    match for_each_element(extract, &mut c) {
        Ok(()) => {},
        Err(e) => return Err(PathError::Osm(e)),
    }
    Ok(resolve(&c))
}

fn resolve(c: &PathCollector) -> (out: Vec<LooseWay>)
    ensures
        resolves(out@, c@),
{
    broadcast use vstd::std_specs::hash::group_hash_axioms;

    let mut out: Vec<LooseWay> = Vec::new();
    let mut i: usize = 0;
    while i < c.ways.len()
        invariant
            i <= c.ways.len(),
            out.len() == i,
            forall|k: int|
                0 <= k < i ==> (#[trigger] out@[k]).kind == c@.ways[k].0 && out@[k].nodes@
                    == located(c@.ways[k].1, c@.coords),
        decreases c.ways.len() - i,
    {
        broadcast use vstd::std_specs::hash::group_hash_axioms;

        let refs = &c.ways[i].1;
        let mut nodes: Vec<Option<(Double, Double)>> = Vec::new();
        let mut j: usize = 0;
        while j < refs.len()
            invariant
                j <= refs.len(),
                nodes@ == located(refs@.take(j as int), c@.coords),
            decreases refs.len() - j,
        {
            broadcast use vstd::std_specs::hash::group_hash_axioms;

            let found = match c.coords.get(&refs[j]) {
                Some(p) => Some(*p),
                None => None,
            };
            nodes.push(found);
            j = j + 1;
            proof {
                assert(nodes@ =~= located(refs@.take(j as int), c@.coords));
            }
        }
        proof {
            assert(refs@.take(j as int) =~= refs@);
            assert(c@.ways[i as int] == (c.ways@[i as int].0, refs@));
        }
        out.push(LooseWay { kind: c.ways[i].0, nodes });
        i = i + 1;
    }
    out
}

/// Some path way of the extract refers to node `id`.
pub open spec fn on_a_path(elements: Seq<ElementView>, id: i64) -> bool {
    exists|i: int| 0 <= i < elements.len() && refers_to(#[trigger] elements[i], id)
}

/// A path way that refers to node `id`.
pub open spec fn refers_to(e: ElementView, id: i64) -> bool {
    match e {
        ElementView::Way { tags, refs } => path_kind(tags) is Some && refs.contains(id),
        _ => false,
    }
}

/// Where the first `n` elements place node `id`: the last of them that is that
/// node counts.
pub open spec fn position_of(elements: Seq<ElementView>, id: i64, n: int) -> Option<(Double, Double)>
    decreases n,
{
    if n <= 0 {
        None
    } else {
        match elements[n - 1] {
            ElementView::Node { id: at, lat, lon } => if at == id {
                Some((lat, lon))
            } else {
                position_of(elements, id, n - 1)
            },
            _ => position_of(elements, id, n - 1),
        }
    }
}

proof fn lemma_first_pass(elements: Seq<ElementView>, id: i64, n: int)
    requires
        0 <= n <= elements.len(),
    ensures
        ({
            let c = visited_all(nothing_yet(), elements, n);
            &&& !c.second
            &&& c.coords == Map::<i64, (Double, Double)>::empty()
            &&& c.needed.contains(id) <==> on_a_path(elements.take(n), id)
        }),
    decreases n,
{
    if n > 0 {
        lemma_first_pass(elements, id, n - 1);
        let (a, b) = (elements.take(n - 1), elements.take(n));
        if on_a_path(a, id) {
            let i = choose|i: int| 0 <= i < a.len() && refers_to(#[trigger] a[i], id);
            assert(b[i] == a[i]);
        }
        if on_a_path(b, id) {
            let i = choose|i: int| 0 <= i < b.len() && refers_to(#[trigger] b[i], id);
            if i < n - 1 {
                assert(a[i] == b[i]);
            }
        }
        assert(b[n - 1] == elements[n - 1]);
    }
}

/// The nodes whose coordinates are asked for are exactly those on a path.
pub proof fn only_path_nodes_are_needed(elements: Seq<ElementView>, id: i64)
    ensures
        first_pass(elements).needed.contains(id) <==> on_a_path(elements, id),
{
    lemma_first_pass(elements, id, elements.len() as int);
    assert(elements.take(elements.len() as int) =~= elements);
}

proof fn lemma_second_pass(c: Collected, elements: Seq<ElementView>, id: i64, n: int)
    requires
        0 <= n <= elements.len(),
        c.second,
        c.coords == Map::<i64, (Double, Double)>::empty(),
    ensures
        ({
            let d = visited_all(c, elements, n);
            &&& d.second
            &&& d.ways == c.ways
            &&& d.needed == c.needed
            &&& d.coords.contains_key(id) <==> c.needed.contains(id) && position_of(
                elements,
                id,
                n,
            ) is Some
            &&& d.coords.contains_key(id) ==> Some(d.coords[id]) == position_of(elements, id, n)
        }),
    decreases n,
{
    if n > 0 {
        lemma_second_pass(c, elements, id, n - 1);
    }
}

/// The two passes find every node, in whatever order the extract lists nodes and
/// ways: a node has coordinates exactly if some path refers to it and the extract
/// holds it, and then they are those of its last entry.
pub proof fn path_nodes_are_located(elements: Seq<ElementView>, id: i64)
    ensures
        collected(elements).coords.contains_key(id) <==> on_a_path(elements, id) && position_of(
            elements,
            id,
            elements.len() as int,
        ) is Some,
        collected(elements).coords.contains_key(id) ==> Some(collected(elements).coords[id])
            == position_of(elements, id, elements.len() as int),
{
    let n = elements.len() as int;
    lemma_first_pass(elements, id, n);
    assert(elements.take(n) =~= elements);
    let first = visited_all(nothing_yet(), elements, n);
    lemma_second_pass(Collected { second: true, ..first }, elements, id, n);
}

/// The path ways among the first `n` elements, in order.
pub open spec fn path_ways(elements: Seq<ElementView>, n: int) -> Seq<(PathKind, Seq<i64>)>
    decreases n,
{
    if n <= 0 {
        Seq::empty()
    } else {
        let before = path_ways(elements, n - 1);
        match elements[n - 1] {
            ElementView::Way { tags, refs } => match path_kind(tags) {
                Some(kind) => before.push((kind, refs)),
                None => before,
            },
            _ => before,
        }
    }
}

proof fn lemma_ways_collected(elements: Seq<ElementView>, n: int)
    ensures
        visited_all(nothing_yet(), elements, n).ways == path_ways(elements, n),
        !visited_all(nothing_yet(), elements, n).second,
    decreases n,
{
    if n > 0 {
        lemma_ways_collected(elements, n - 1);
    }
}

proof fn lemma_ways_kept(c: Collected, elements: Seq<ElementView>, n: int)
    requires
        c.second,
    ensures
        visited_all(c, elements, n).ways == c.ways,
        visited_all(c, elements, n).second,
    decreases n,
{
    if n > 0 {
        lemma_ways_kept(c, elements, n - 1);
    }
}

/// Every path way of the extract is collected once, in order, and no other way.
pub proof fn every_path_is_collected(elements: Seq<ElementView>)
    ensures
        collected(elements).ways == path_ways(elements, elements.len() as int),
{
    let n = elements.len() as int;
    lemma_ways_collected(elements, n);
    let first = visited_all(nothing_yet(), elements, n);
    lemma_ways_kept(Collected { second: true, ..first }, elements, n);
}

/// A single path as an ordered WGS84 polyline.
#[derive(Debug)]
pub struct PathWay {
    pub kind: PathKind,
    /// (lat, lon) points in order.
    pub points: Vec<(Double, Double)>,
}

/// The finished runs of a way and the one still growing.
pub struct Runs {
    pub done: Seq<Seq<(Double, Double)>>,
    pub run: Seq<(Double, Double)>,
}

/// End the growing run; a single point is no line.
pub open spec fn flushed(r: Runs) -> Runs {
    Runs {
        done: if r.run.len() >= 2 {
            r.done.push(r.run)
        } else {
            r.done
        },
        run: Seq::empty(),
    }
}

/// A straight segment this long is a gap in the extract rather than a path.
pub open spec fn too_far(gap: Double) -> bool {
    (Double { bits: MAX_SEGMENT_BITS }).below(gap)
}

/// The runs among a way's first `n` nodes: the line breaks where a node is
/// missing, and where a node is implausibly far from the one before.
pub open spec fn runs(nodes: Seq<Option<(Double, Double)>>, gaps: Seq<Double>, n: int) -> Runs
    decreases n,
{
    if n <= 0 {
        Runs { done: Seq::empty(), run: Seq::empty() }
    } else {
        let r = runs(nodes, gaps, n - 1);
        match nodes[n - 1] {
            None => flushed(r),
            Some(p) => {
                let kept = if r.run.len() > 0 && too_far(gaps[n - 1]) {
                    flushed(r)
                } else {
                    r
                };
                Runs { done: kept.done, run: kept.run.push(p) }
            },
        }
    }
}

/// A way's lines.
pub open spec fn lines_of(nodes: Seq<Option<(Double, Double)>>, gaps: Seq<Double>) -> Seq<
    Seq<(Double, Double)>,
> {
    flushed(runs(nodes, gaps, nodes.len() as int)).done
}

/// The lines of the first `n` ways, with their kinds.
pub open spec fn paths_of(ways: Seq<LooseWay>, gaps: Seq<Vec<Double>>, n: int) -> Seq<
    (PathKind, Seq<(Double, Double)>),
>
    decreases n,
{
    if n <= 0 {
        Seq::empty()
    } else {
        let w = ways[n - 1];
        paths_of(ways, gaps, n - 1) + lines_of(w.nodes@, gaps[n - 1]@).map_values(
            |l: Seq<(Double, Double)>| (w.kind, l),
        )
    }
}

pub open spec fn path_views(paths: Seq<PathWay>) -> Seq<(PathKind, Seq<(Double, Double)>)> {
    paths.map_values(|p: PathWay| (p.kind, p.points@))
}

fn flush_run(out: &mut Vec<PathWay>, kind: PathKind, run: Vec<(Double, Double)>)
    ensures
        path_views(final(out)@) == if run@.len() >= 2 {
            path_views(old(out)@).push((kind, run@))
        } else {
            path_views(old(out)@)
        },
{
    if run.len() >= 2 {
        let ghost before = out@;
        let ghost r = run@;
        out.push(PathWay { kind, points: run });
        proof {
            assert(path_views(out@) =~= path_views(before).push((kind, r)));
        }
    }
}

/// Cut ways into unbroken runs, each a path of its own. `gaps[i][k]` is the
/// distance (m) of node `k` of way `i` from node `k - 1`; it counts only where
/// both nodes are there.
pub fn stitch_paths(ways: &Vec<LooseWay>, gaps: &Vec<Vec<Double>>) -> (out: Vec<PathWay>)
    requires
        ways.len() == gaps.len(),
        forall|i: int| 0 <= i < ways.len() ==> (#[trigger] ways@[i]).nodes.len() == gaps@[i].len(),
    ensures
        path_views(out@) == paths_of(ways@, gaps@, ways.len() as int),
{
    let mut out: Vec<PathWay> = Vec::new();
    let mut i: usize = 0;
    proof {
        assert(path_views(out@) =~= Seq::empty());
    }
    while i < ways.len()
        invariant
            i <= ways.len(),
            ways.len() == gaps.len(),
            forall|k: int| 0 <= k < ways.len() ==> (#[trigger] ways@[k]).nodes.len() == gaps@[k].len(),
            path_views(out@) == paths_of(ways@, gaps@, i as int),
        decreases ways.len() - i,
    {
        let w = &ways[i];
        let steps = &gaps[i];
        let ghost before = path_views(out@);
        let ghost tag = |l: Seq<(Double, Double)>| (w.kind, l);
        let mut run: Vec<(Double, Double)> = Vec::new();
        let mut k: usize = 0;
        proof {
            assert(before + Seq::<Seq<(Double, Double)>>::empty().map_values(tag) =~= before);
        }
        while k < w.nodes.len()
            invariant
                w.nodes.len() == steps.len(),
                k <= w.nodes.len(),
                tag == (|l: Seq<(Double, Double)>| (w.kind, l)),
                run@ == runs(w.nodes@, steps@, k as int).run,
                path_views(out@) == before + runs(w.nodes@, steps@, k as int).done.map_values(tag),
            decreases w.nodes.len() - k,
        {
            let ghost r = runs(w.nodes@, steps@, k as int);
            proof {
                lemma_tagged_push(before, r.done, r.run, w.kind);
            }
            match w.nodes[k] {
                Some(p) => {
                    if run.len() > 0 && (Double { bits: MAX_SEGMENT_BITS }).lt(steps[k]) {
                        flush_run(&mut out, w.kind, run);
                        run = Vec::new();
                    }
                    run.push(p);
                },
                None => {
                    flush_run(&mut out, w.kind, run);
                    run = Vec::new();
                },
            }
            k = k + 1;
        }
        proof {
            let r = runs(w.nodes@, steps@, k as int);
            lemma_tagged_push(before, r.done, r.run, w.kind);
        }
        flush_run(&mut out, w.kind, run);
        i = i + 1;
    }
    out
}

proof fn lemma_tagged_push(
    before: Seq<(PathKind, Seq<(Double, Double)>)>,
    done: Seq<Seq<(Double, Double)>>,
    run: Seq<(Double, Double)>,
    kind: PathKind,
)
    ensures
        (before + done.map_values(|l: Seq<(Double, Double)>| (kind, l))).push((kind, run)) == before
            + done.push(run).map_values(|l: Seq<(Double, Double)>| (kind, l)),
{
    assert((before + done.map_values(|l: Seq<(Double, Double)>| (kind, l))).push((kind, run))
        =~= before + done.push(run).map_values(|l: Seq<(Double, Double)>| (kind, l)));
}

/// `line` is an unbroken stretch of the nodes from `a` on: none is missing, and
/// none is too far from the one before it in the line.
pub open spec fn unbroken(
    nodes: Seq<Option<(Double, Double)>>,
    gaps: Seq<Double>,
    line: Seq<(Double, Double)>,
    a: int,
) -> bool {
    &&& 0 <= a
    &&& a + line.len() <= nodes.len()
    &&& forall|j: int| a <= j < a + line.len() ==> #[trigger] nodes[j] == Some(line[j - a])
    &&& forall|j: int| a < j < a + line.len() ==> !too_far(#[trigger] gaps[j])
}

proof fn lemma_runs_unbroken(nodes: Seq<Option<(Double, Double)>>, gaps: Seq<Double>, n: int)
    requires
        0 <= n <= nodes.len(),
    ensures
        ({
            let r = runs(nodes, gaps, n);
            &&& r.run.len() <= n
            &&& unbroken(nodes, gaps, r.run, n - r.run.len())
            &&& forall|k: int|
                0 <= k < r.done.len() ==> r.done[k].len() >= 2 && exists|a: int|
                    unbroken(nodes, gaps, #[trigger] r.done[k], a)
        }),
    decreases n,
{
    if n > 0 {
        lemma_runs_unbroken(nodes, gaps, n - 1);
        let r = runs(nodes, gaps, n - 1);
        let s = runs(nodes, gaps, n);
        assert forall|k: int| 0 <= k < s.done.len() implies s.done[k].len() >= 2 && exists|a: int|
            unbroken(nodes, gaps, #[trigger] s.done[k], a) by {
            if k < r.done.len() {
                assert(s.done[k] == r.done[k]);
            } else {
                assert(s.done[k] == r.run);
                assert(unbroken(nodes, gaps, s.done[k], n - 1 - r.run.len()));
            }
        }
        assert(unbroken(nodes, gaps, s.run, n - s.run.len()));
    }
}

/// Every path has at least two points and is an unbroken stretch of its way: no
/// path bridges a missing node or a gap.
pub proof fn paths_are_unbroken(
    nodes: Seq<Option<(Double, Double)>>,
    gaps: Seq<Double>,
    k: int,
)
    requires
        0 <= k < lines_of(nodes, gaps).len(),
    ensures
        lines_of(nodes, gaps)[k].len() >= 2,
        exists|a: int| #[trigger] unbroken(nodes, gaps, lines_of(nodes, gaps)[k], a),
{
    let n = nodes.len() as int;
    lemma_runs_unbroken(nodes, gaps, n);
    let r = runs(nodes, gaps, n);
    if k < r.done.len() {
        assert(lines_of(nodes, gaps)[k] == r.done[k]);
    } else {
        assert(unbroken(nodes, gaps, lines_of(nodes, gaps)[k], n - r.run.len()));
    }
}

/// `line` holds both node `j - 1` and node `j` as neighbours.
pub open spec fn joins(
    nodes: Seq<Option<(Double, Double)>>,
    gaps: Seq<Double>,
    line: Seq<(Double, Double)>,
    a: int,
    j: int,
) -> bool {
    unbroken(nodes, gaps, line, a) && a < j < a + line.len()
}

proof fn lemma_neighbours(nodes: Seq<Option<(Double, Double)>>, gaps: Seq<Double>, n: int, j: int)
    requires
        0 < j < n <= nodes.len(),
        nodes[j - 1] is Some,
        nodes[j] is Some,
        !too_far(gaps[j]),
    ensures
        ({
            let r = runs(nodes, gaps, n);
            ||| j > n - r.run.len()
            ||| exists|k: int, a: int|
                0 <= k < r.done.len() && #[trigger] joins(nodes, gaps, r.done[k], a, j)
        }),
    decreases n,
{
    let r = runs(nodes, gaps, n - 1);
    let s = runs(nodes, gaps, n);
    lemma_runs_unbroken(nodes, gaps, n - 1);
    if j < n - 1 {
        lemma_neighbours(nodes, gaps, n - 1, j);
        if j > n - 1 - r.run.len() {
            if s.done.len() > r.done.len() {
                let k = r.done.len() as int;
                assert(s.done[k] == r.run);
                assert(joins(nodes, gaps, s.done[k], n - 1 - r.run.len(), j));
            }
        } else {
            let (k, a) = choose|k: int, a: int|
                0 <= k < r.done.len() && #[trigger] joins(nodes, gaps, r.done[k], a, j);
            assert(s.done[k] == r.done[k]);
            assert(joins(nodes, gaps, s.done[k], a, j));
        }
    } else {
        assert(r.run.len() > 0);
    }
}

/// No line breaks without need: two nodes that follow one another in a way, are
/// both there and are not too far apart stay neighbours on one of its paths.
pub proof fn near_neighbours_stay_joined(
    nodes: Seq<Option<(Double, Double)>>,
    gaps: Seq<Double>,
    j: int,
)
    requires
        0 < j < nodes.len(),
        nodes[j - 1] is Some,
        nodes[j] is Some,
        !too_far(gaps[j]),
    ensures
        exists|k: int, a: int|
            0 <= k < lines_of(nodes, gaps).len() && #[trigger] joins(
                nodes,
                gaps,
                lines_of(nodes, gaps)[k],
                a,
                j,
            ),
{
    let n = nodes.len() as int;
    lemma_neighbours(nodes, gaps, n, j);
    lemma_runs_unbroken(nodes, gaps, n);
    let r = runs(nodes, gaps, n);
    let lines = lines_of(nodes, gaps);
    if j > n - r.run.len() {
        let k = r.done.len() as int;
        assert(lines[k] == r.run);
        assert(joins(nodes, gaps, lines[k], n - r.run.len(), j));
    } else {
        let (k, a) = choose|k: int, a: int|
            0 <= k < r.done.len() && #[trigger] joins(nodes, gaps, r.done[k], a, j);
        assert(lines[k] == r.done[k]);
        assert(joins(nodes, gaps, lines[k], a, j));
    }
}

/// Of several values for one key the last counts; there is none exactly where no tag has
/// the key.
pub proof fn the_last_tag_of_a_key_counts(
    tags: Seq<(Seq<char>, Seq<char>)>,
    tag: (Seq<char>, Seq<char>),
    key: Seq<char>,
)
    ensures
        tag.0 == key ==> tag_value(tags.push(tag), key) == Some(tag.1),
        tag.0 != key ==> tag_value(tags.push(tag), key) == tag_value(tags, key),
        tag_value(Seq::empty(), key) is None,
{
    assert(tags.push(tag).drop_last() =~= tags);
}

/// Seven values of `highway` are paths: five on foot, bridleways and tracks.
pub proof fn seven_highways_are_paths(value: Seq<char>)
    ensures
        highway_kind(value) == Some(PathKind::Foot) <==> value == "footway"@ || value == "path"@ || value
            == "steps"@ || value == "pedestrian"@ || value == "cycleway"@,
        highway_kind(value) == Some(PathKind::Bridleway) <==> value == "bridleway"@,
        highway_kind(value) == Some(PathKind::Track) <==> value == "track"@,
{
    reveal_strlit("footway");
    reveal_strlit("path");
    reveal_strlit("steps");
    reveal_strlit("pedestrian");
    reveal_strlit("cycleway");
    reveal_strlit("bridleway");
    reveal_strlit("track");
    assert("footway"@.len() == 7 && "path"@.len() == 4 && "steps"@.len() == 5);
    assert("pedestrian"@.len() == 10 && "cycleway"@.len() == 8 && "bridleway"@.len() == 9);
    assert("track"@.len() == 5 && "track"@[0] != "steps"@[0]);
}

/// The `highway` value decides where it names a path; where it does not, a designated
/// right of way is a path on foot, and any other way is none.
pub proof fn highways_come_before_designations(tags: Seq<(Seq<char>, Seq<char>)>)
    ensures
        tag_value(tags, "highway"@) matches Some(v) && highway_kind(v) is Some ==> path_kind(tags)
            == highway_kind(tag_value(tags, "highway"@)->Some_0),
        (tag_value(tags, "highway"@) is None || highway_kind(tag_value(tags, "highway"@)->Some_0) is None)
            && tag_value(tags, "designation"@) is Some ==> path_kind(tags) == Some(PathKind::Foot),
        (tag_value(tags, "highway"@) is None || highway_kind(tag_value(tags, "highway"@)->Some_0) is None)
            && tag_value(tags, "designation"@) is None ==> path_kind(tags) is None,
{
}

/// The nodes of a way differ by its deltas: the first is the first delta, and each other is
/// its delta on from the one before.
pub proof fn deltas_lead_from_node_to_node(deltas: Seq<i64>)
    ensures
        way_refs(deltas).len() == deltas.len(),
        deltas.len() > 0 ==> way_refs(deltas)[0] == deltas[0],
        forall|i: int|
            0 < i < deltas.len() ==> #[trigger] way_refs(deltas)[i] == way_refs(deltas)[i
                - 1].wrapping_add(deltas[i]),
    decreases deltas.len(),
{
    if deltas.len() > 0 {
        let before = deltas.drop_last();
        deltas_lead_from_node_to_node(before);
        let (r, s) = (way_refs(before), way_refs(deltas));
        assert(forall|i: int| 0 <= i < r.len() ==> #[trigger] s[i] == r[i]);
        assert(forall|i: int| 0 <= i < before.len() ==> #[trigger] deltas[i] == before[i]);
        if before.len() == 0 {
            assert(0i64.wrapping_add(deltas[0]) == deltas[0]);
        }
        assert forall|i: int| 0 < i < deltas.len() implies #[trigger] s[i] == s[i - 1].wrapping_add(
            deltas[i],
        ) by {
            if i < r.len() {
                assert(s[i] == r[i] && s[i - 1] == r[i - 1]);
            } else {
                assert(s[i - 1] == r[i - 1]);
                assert(r.last() == r[i - 1]);
            }
        }
    }
}

/// A node stands where the last of its entries puts it; ways, and other nodes, do not
/// move it.
pub proof fn the_last_entry_of_a_node_counts(elements: Seq<ElementView>, id: i64, n: int)
    requires
        0 <= n <= elements.len(),
    ensures
        position_of(elements, id, n) is None <==> forall|i: int|
            0 <= i < n ==> !is_node(#[trigger] elements[i], id),
        forall|i: int|
            0 <= i < n && is_node(#[trigger] elements[i], id) && (forall|j: int|
                i < j < n ==> !is_node(#[trigger] elements[j], id)) ==> position_of(elements, id, n)
                == Some((elements[i]->lat, elements[i]->lon)),
    decreases n,
{
    if n > 0 {
        the_last_entry_of_a_node_counts(elements, id, n - 1);
        if is_node(elements[n - 1], id) {
            assert(position_of(elements, id, n) == Some((elements[n - 1]->lat, elements[n - 1]->lon)));
        } else {
            assert(position_of(elements, id, n) == position_of(elements, id, n - 1));
        }
    }
}

/// The element is node `id`.
pub open spec fn is_node(e: ElementView, id: i64) -> bool {
    e is Node && e->id == id
}

/// One more element adds its path to the end, if it is a path way, and no path otherwise.
pub proof fn only_path_ways_are_collected(elements: Seq<ElementView>, n: int)
    requires
        0 < n <= elements.len(),
    ensures
        ({
            let e = elements[n - 1];
            let before = path_ways(elements, n - 1);
            let after = path_ways(elements, n);
            &&& e is Way && path_kind(e->tags) is Some ==> {
                &&& after.len() == before.len() + 1
                &&& after.drop_last() == before
                &&& Some(after.last().0) == path_kind(e->tags)
                &&& after.last().1 == e->refs
            }
            &&& !(e is Way) || path_kind(e->tags) is None ==> after == before
        }),
        path_ways(elements, 0).len() == 0,
{
    let e = elements[n - 1];
    let before = path_ways(elements, n - 1);
    if e is Way && path_kind(e->tags) is Some {
        assert(before.push((path_kind(e->tags)->Some_0, e->refs)).drop_last() =~= before);
    }
}

/// Nodes are located one by one: each at its own coordinates, or nowhere.
pub proof fn nodes_are_located_one_by_one(
    refs: Seq<i64>,
    coords: Map<i64, (Double, Double)>,
    i: int,
)
    requires
        0 <= i < refs.len(),
    ensures
        located(refs, coords).len() == refs.len(),
        coords.contains_key(refs[i]) ==> located(refs, coords)[i] == Some(coords[refs[i]]),
        !coords.contains_key(refs[i]) ==> located(refs, coords)[i] is None,
{
}

proof fn lemma_parted_runs(
    left: Seq<Option<(Double, Double)>>,
    left_gaps: Seq<Double>,
    nodes: Seq<Option<(Double, Double)>>,
    gaps: Seq<Double>,
    n: int,
)
    requires
        left.len() == left_gaps.len(),
        nodes.len() == gaps.len(),
        left.len() <= nodes.len(),
        forall|i: int| 0 <= i < left.len() ==> #[trigger] nodes[i] == left[i],
        forall|i: int| 0 <= i < left.len() ==> #[trigger] gaps[i] == left_gaps[i],
        0 <= n <= left.len(),
    ensures
        runs(nodes, gaps, n) == runs(left, left_gaps, n),
    decreases n,
{
    if n > 0 {
        lemma_parted_runs(left, left_gaps, nodes, gaps, n - 1);
    }
}

proof fn lemma_runs_after(
    nodes: Seq<Option<(Double, Double)>>,
    gaps: Seq<Double>,
    right: Seq<Option<(Double, Double)>>,
    right_gaps: Seq<Double>,
    m: int,
    n: int,
)
    requires
        nodes.len() == gaps.len(),
        right.len() == right_gaps.len(),
        0 <= m,
        m + right.len() == nodes.len(),
        forall|i: int| 0 <= i < right.len() ==> nodes[m + i] == #[trigger] right[i],
        forall|i: int| 0 <= i < right.len() ==> gaps[m + i] == #[trigger] right_gaps[i],
        0 < n <= right.len(),
        runs(nodes, gaps, m).run.len() == 0 || right[0] is None || too_far(right_gaps[0]),
    ensures
        runs(nodes, gaps, m + n).done == flushed(runs(nodes, gaps, m)).done + runs(
            right,
            right_gaps,
            n,
        ).done,
        runs(nodes, gaps, m + n).run == runs(right, right_gaps, n).run,
    decreases n,
{
    let parted = flushed(runs(nodes, gaps, m)).done;
    assert(nodes[m + (n - 1)] == right[n - 1] && gaps[m + (n - 1)] == right_gaps[n - 1]);
    if n > 1 {
        lemma_runs_after(nodes, gaps, right, right_gaps, m, n - 1);
        let r = runs(right, right_gaps, n - 1);
        assert((parted + r.done).push(r.run) =~= parted + r.done.push(r.run));
    } else {
        assert(runs(right, right_gaps, 0).done.len() == 0);
        assert(runs(right, right_gaps, 0).run.len() == 0);
        let start = runs(nodes, gaps, m);
        assert(parted + Seq::<Seq<(Double, Double)>>::empty() =~= parted);
        assert(runs(right, right_gaps, 1).done =~= Seq::<Seq<(Double, Double)>>::empty());
        if start.run.len() == 0 {
            assert(start.run =~= Seq::<(Double, Double)>::empty());
        }
        assert(runs(nodes, gaps, m + 1).run =~= runs(right, right_gaps, 1).run);
    }
}

/// A missing node, or one more than 400 m from the node before it, parts a way: what lies before
/// gives its lines, and what lies from there on gives its own, after them.
pub proof fn gaps_part_ways(
    left: Seq<Option<(Double, Double)>>,
    left_gaps: Seq<Double>,
    right: Seq<Option<(Double, Double)>>,
    right_gaps: Seq<Double>,
)
    requires
        left.len() == left_gaps.len(),
        right.len() == right_gaps.len(),
        right.len() > 0,
        right[0] is None || (Double { bits: 0x4079_0000_0000_0000 }).below(right_gaps[0]),
    ensures
        lines_of(left + right, left_gaps + right_gaps) == lines_of(left, left_gaps) + lines_of(
            right,
            right_gaps,
        ),
{
    let (nodes, gaps) = (left + right, left_gaps + right_gaps);
    let m = left.len() as int;
    let n = right.len() as int;
    assert forall|i: int| 0 <= i < right.len() implies nodes[m + i] == #[trigger] right[i] by {}
    assert forall|i: int| 0 <= i < right.len() implies gaps[m + i] == #[trigger] right_gaps[i] by {}
    lemma_parted_runs(left, left_gaps, nodes, gaps, m);
    lemma_runs_after(nodes, gaps, right, right_gaps, m, n);
    let parted = lines_of(left, left_gaps);
    let r = runs(right, right_gaps, n);
    assert((parted + r.done).push(r.run) =~= parted + r.done.push(r.run));
}

/// A way without a missing node or a gap is one line through all its nodes, where it has
/// two or more.
pub proof fn unbroken_ways_are_one_line(
    nodes: Seq<Option<(Double, Double)>>,
    gaps: Seq<Double>,
    points: Seq<(Double, Double)>,
)
    requires
        nodes.len() == gaps.len(),
        points.len() == nodes.len(),
        forall|i: int| 0 <= i < nodes.len() ==> #[trigger] nodes[i] == Some(points[i]),
        forall|i: int|
            0 < i < nodes.len() ==> !(Double { bits: 0x4079_0000_0000_0000 }).below(
                #[trigger] gaps[i],
            ),
    ensures
        points.len() >= 2 ==> lines_of(nodes, gaps) == seq![points],
        points.len() < 2 ==> lines_of(nodes, gaps).len() == 0,
{
    let n = nodes.len() as int;
    lemma_one_run(nodes, gaps, points, n);
    assert(points.take(n) =~= points);
    assert(Seq::<Seq<(Double, Double)>>::empty().push(points) =~= seq![points]);
}

proof fn lemma_one_run(
    nodes: Seq<Option<(Double, Double)>>,
    gaps: Seq<Double>,
    points: Seq<(Double, Double)>,
    n: int,
)
    requires
        0 <= n <= nodes.len(),
        points.len() == nodes.len(),
        forall|i: int| 0 <= i < nodes.len() ==> #[trigger] nodes[i] == Some(points[i]),
        forall|i: int| 0 < i < nodes.len() ==> !too_far(#[trigger] gaps[i]),
    ensures
        runs(nodes, gaps, n).done == Seq::<Seq<(Double, Double)>>::empty(),
        runs(nodes, gaps, n).run == points.take(n),
    decreases n,
{
    if n > 0 {
        lemma_one_run(nodes, gaps, points, n - 1);
        assert(points.take(n - 1).push(points[n - 1]) =~= points.take(n));
    } else {
        assert(points.take(0) =~= Seq::<(Double, Double)>::empty());
    }
}

/// The paths are the lines of the ways, way after way, each of its way's kind.
pub proof fn paths_keep_the_order_of_ways(ways: Seq<LooseWay>, gaps: Seq<Vec<Double>>, n: int)
    requires
        0 < n <= ways.len(),
        ways.len() == gaps.len(),
    ensures
        ({
            let lines = lines_of(ways[n - 1].nodes@, gaps[n - 1]@);
            let before = paths_of(ways, gaps, n - 1);
            let after = paths_of(ways, gaps, n);
            &&& after.len() == before.len() + lines.len()
            &&& after.take(before.len() as int) == before
            &&& forall|k: int|
                0 <= k < lines.len() ==> after[before.len() + k].0 == ways[n - 1].kind && after[before.len()
                    + k].1 == #[trigger] lines[k]
        }),
        paths_of(ways, gaps, 0).len() == 0,
{
    let before = paths_of(ways, gaps, n - 1);
    assert(paths_of(ways, gaps, n).take(before.len() as int) =~= before);
}

/// A way is a path on foot, a bridleway or a track by its last `highway` value; failing that,
/// a designated right of way is a path on foot.
pub proof fn ways_are_classified_by_their_tags(tags: &[(&str, &str)], r: Option<PathKind>)
    requires
        call_ensures(classify, (tags,), r),
    ensures
        ({
            let views = tag_views(tags@);
            let highway = match tag_value(views, "highway"@) {
                Some(v) => highway_kind(v),
                None => None,
            };
            &&& highway is Some ==> r == highway
            &&& highway is None ==> (r == Some(PathKind::Foot) <==> tag_value(views, "designation"@) is Some)
            &&& highway is None ==> (r is None <==> tag_value(views, "designation"@) is None)
        }),
{
}

/// Every collected way comes out with its own kind and its nodes in order, each at its
/// coordinates where it has any.
pub proof fn ways_keep_their_nodes(ways: Seq<LooseWay>, c: Collected, i: int, k: int)
    requires
        resolves(ways, c),
        0 <= i < ways.len(),
        0 <= k < c.ways[i].1.len(),
    ensures
        ways.len() == c.ways.len(),
        ways[i].kind == c.ways[i].0,
        ways[i].nodes.len() == c.ways[i].1.len(),
        c.coords.contains_key(c.ways[i].1[k]) ==> ways[i].nodes@[k] == Some(
            c.coords[c.ways[i].1[k]],
        ),
        !c.coords.contains_key(c.ways[i].1[k]) ==> ways[i].nodes@[k] is None,
{
    nodes_are_located_one_by_one(c.ways[i].1, c.coords, k);
    assert(ways[i].nodes@ == located(c.ways[i].1, c.coords));
}

}

//! Vector tile features: geometry drawn from its command stream, and attributes
//! looked up in the layer's dictionaries.

use vstd::prelude::*;
use crate::basemap::{read_layers, RawFeature, RawLayer, TileError};
use crate::text::same_text;

verus! {

/// What a feature's geometry is.
#[derive(Debug, Clone, Copy, PartialEq, Eq, Structural)]
pub enum GeomKind {
    Unknown,
    Point,
    Line,
    Polygon,
}

/// A feature in tile coordinates. Rings repeat their first point as their last.
#[derive(Debug)]
pub struct Feature {
    pub kind: GeomKind,
    pub parts: Vec<Vec<(i32, i32)>>,
    /// String attributes, in the order of the feature's tags.
    pub attrs: Vec<(String, String)>,
}

#[derive(Debug)]
pub struct VectorLayer {
    pub name: String,
    pub features: Vec<Feature>,
}

/// A decoded tile with its geometry.
#[derive(Debug)]
pub struct VectorTile {
    pub layers: Vec<VectorLayer>,
}

/// The signed number that a zigzag-coded parameter stands for.
pub open spec fn unzigzag(v: u32) -> int {
    if v % 2 == 0 {
        v as int / 2
    } else {
        -(v as int / 2) - 1
    }
}

pub open spec fn fits(v: int) -> bool {
    i32::MIN <= v <= i32::MAX
}

/// The pen that draws a geometry: where it is, and the parts drawn so far.
pub struct Pen {
    pub x: int,
    pub y: int,
    pub parts: Seq<Seq<(i32, i32)>>,
}

/// `p` added to the last part; where there is none, `p` starts one.
pub open spec fn extended(parts: Seq<Seq<(i32, i32)>>, p: (i32, i32)) -> Seq<Seq<(i32, i32)>> {
    if parts.len() == 0 {
        seq![seq![p]]
    } else {
        parts.drop_last().push(parts.last().push(p))
    }
}

/// Move the pen by (`dx`, `dy`) and set a vertex: a new part's first with
/// `fresh`, else the next of the last part. `None` off the coordinate range.
pub open spec fn vertex(pen: Pen, dx: u32, dy: u32, fresh: bool) -> Option<Pen> {
    let x = pen.x + unzigzag(dx);
    let y = pen.y + unzigzag(dy);
    if !fits(x) || !fits(y) {
        None
    } else {
        let p = (x as i32, y as i32);
        Some(
            Pen {
                x,
                y,
                parts: if fresh {
                    pen.parts.push(seq![p])
                } else {
                    extended(pen.parts, p)
                },
            },
        )
    }
}

/// Close the last part: its first point becomes its last as well.
pub open spec fn closed_ring(parts: Seq<Seq<(i32, i32)>>) -> Seq<Seq<(i32, i32)>> {
    if parts.len() == 0 || parts.last().len() == 0 {
        parts
    } else {
        extended(parts, parts.last()[0])
    }
}

/// Run the commands from `at` on: a command is an id (1 moves, 2 draws, 7
/// closes) and a count. Drawing stops at the end, at an unknown command, where
/// parameters are missing, or off the coordinate range.
pub open spec fn draw(g: Seq<u32>, at: int, pen: Pen) -> Seq<Seq<(i32, i32)>>
    decreases g.len() - at, 0int,
{
    if at >= g.len() {
        pen.parts
    } else {
        let id = g[at] % 8;
        let count = (g[at] / 8) as nat;
        if id == 1 || id == 2 {
            draw_points(g, at + 1, count, id == 1, pen)
        } else if id == 7 {
            draw(g, at + 1, Pen { parts: closed_ring(pen.parts), ..pen })
        } else {
            pen.parts
        }
    }
}

/// Run `count` moves or lines whose parameters stand at `at`, then go on.
pub open spec fn draw_points(g: Seq<u32>, at: int, count: nat, fresh: bool, pen: Pen) -> Seq<
    Seq<(i32, i32)>,
>
    decreases g.len() - at, 1int,
{
    if count == 0 {
        draw(g, at, pen)
    } else if at + 2 > g.len() {
        pen.parts
    } else {
        match vertex(pen, g[at], g[at + 1], fresh) {
            None => pen.parts,
            Some(next) => draw_points(g, at + 2, (count - 1) as nat, fresh, next),
        }
    }
}

/// The parts of a geometry.
pub open spec fn drawn(g: Seq<u32>) -> Seq<Seq<(i32, i32)>> {
    draw(g, 0, Pen { x: 0, y: 0, parts: Seq::empty() })
}

pub open spec fn part_views(parts: Seq<Vec<(i32, i32)>>) -> Seq<Seq<(i32, i32)>> {
    parts.map_values(|p: Vec<(i32, i32)>| p@)
}

fn from_zigzag(v: u32) -> (r: i64)
    ensures
        r == unzigzag(v),
        -0x8000_0000 <= r <= 0x7fff_ffff,
{
    if v % 2 == 0 {
        (v / 2) as i64
    } else {
        -((v / 2) as i64) - 1
    }
}

fn extend_last(parts: &mut Vec<Vec<(i32, i32)>>, p: (i32, i32))
    ensures
        part_views(final(parts)@) == extended(part_views(old(parts)@), p),
{
    let ghost before = part_views(parts@);
    match parts.pop() {
        None => {
            let mut part: Vec<(i32, i32)> = Vec::new();
            part.push(p);
            proof {
                assert(part@ =~= seq![p]);
            }
            parts.push(part);
            proof {
                assert(part_views(parts@) =~= seq![seq![p]]);
            }
        },
        Some(last) => {
            let mut part = last;
            proof {
                assert(before.last() == part@);
                assert(part_views(parts@) =~= before.drop_last());
            }
            let ghost rest = parts@;
            part.push(p);
            parts.push(part);
            proof {
                assert(part_views(parts@) =~= part_views(rest).push(before.last().push(p)));
            }
        },
    }
}

/// Draw a geometry's parts from its command stream.
pub fn decode_geometry(g: &Vec<u32>) -> (parts: Vec<Vec<(i32, i32)>>)
    ensures
        part_views(parts@) == drawn(g@),
{
    let mut parts: Vec<Vec<(i32, i32)>> = Vec::new();
    let mut x: i64 = 0;
    let mut y: i64 = 0;
    let mut at: usize = 0;
    proof {
        assert(part_views(parts@) =~= Seq::empty());
    }
    while at < g.len()
        invariant
            at <= g.len(),
            fits(x as int),
            fits(y as int),
            draw(g@, at as int, Pen { x: x as int, y: y as int, parts: part_views(parts@) }) == drawn(g@),
        decreases g.len() - at,
    {
        let word: u32 = g[at];
        let id: u32 = word % 8;
        let mut count: u32 = word / 8;
        if id == 7 {
            let ghost before = part_views(parts@);
            if parts.len() > 0 && parts[parts.len() - 1].len() > 0 {
                let first = parts[parts.len() - 1][0];
                proof {
                    assert(before.last() == parts@[parts.len() - 1]@);
                }
                extend_last(&mut parts, first);
            } else {
                proof {
                    if parts.len() > 0 {
                        assert(before.last() == parts@[parts.len() - 1]@);
                    }
                }
            }
            proof {
                assert(part_views(parts@) == closed_ring(before));
            }
            at = at + 1;
        } else if id == 1 || id == 2 {
            let ghost start = at;
            at = at + 1;
            while count > 0
                invariant
                    start < at <= g.len(),
                    fits(x as int),
                    fits(y as int),
                    id == 1 || id == 2,
                    draw_points(
                        g@,
                        at as int,
                        count as nat,
                        id == 1,
                        Pen { x: x as int, y: y as int, parts: part_views(parts@) },
                    ) == drawn(g@),
                decreases count,
            {
                if g.len() - at < 2 {
                    return parts;
                }
                let nx: i64 = x + from_zigzag(g[at]);
                let ny: i64 = y + from_zigzag(g[at + 1]);
                if nx < i32::MIN as i64 || nx > i32::MAX as i64 || ny < i32::MIN as i64 || ny
                    > i32::MAX as i64 {
                    return parts;
                }
                let p: (i32, i32) = (nx as i32, ny as i32);
                if id == 1 {
                    let ghost before = parts@;
                    let mut part: Vec<(i32, i32)> = Vec::new();
                    part.push(p);
                    proof {
                        assert(part@ =~= seq![p]);
                    }
                    parts.push(part);
                    proof {
                        assert(part_views(parts@) =~= part_views(before).push(seq![p]));
                    }
                } else {
                    extend_last(&mut parts, p);
                }
                x = nx;
                y = ny;
                at = at + 2;
                count = count - 1;
            }
        } else {
            return parts;
        }
    }
    parts
}

/// The geometry kind that a type field stands for.
pub open spec fn kind_of(field: Seq<u8>) -> GeomKind {
    if field == crate::basemap::type_field(1) {
        GeomKind::Point
    } else if field == crate::basemap::type_field(2) {
        GeomKind::Line
    } else if field == crate::basemap::type_field(3) {
        GeomKind::Polygon
    } else {
        GeomKind::Unknown
    }
}

/// The string attributes of the first `n` tag pairs: pairs of positions in the
/// dictionaries. Pairs that point outside, or at a value that is not a string,
/// give none.
pub open spec fn attributes(
    tags: Seq<u32>,
    keys: Seq<Seq<char>>,
    values: Seq<Option<Seq<char>>>,
    n: int,
) -> Seq<(Seq<char>, Seq<char>)>
    decreases n,
{
    if n <= 0 {
        Seq::empty()
    } else {
        let before = attributes(tags, keys, values, n - 1);
        let k = tags[2 * (n - 1)] as int;
        let v = tags[2 * (n - 1) + 1] as int;
        if k < keys.len() && v < values.len() && values[v] is Some {
            before.push((keys[k], values[v]->Some_0))
        } else {
            before
        }
    }
}

pub open spec fn attr_views(attrs: Seq<(String, String)>) -> Seq<(Seq<char>, Seq<char>)> {
    attrs.map_values(|a: (String, String)| (a.0@, a.1@))
}

fn read_attributes(f: &RawFeature, l: &RawLayer) -> (attrs: Vec<(String, String)>)
    ensures
        attr_views(attrs@) == attributes(f@.tags, l@.keys, l@.values, f@.tags.len() as int / 2),
{
    let mut attrs: Vec<(String, String)> = Vec::new();
    let pairs: usize = f.tags.len() / 2;
    let mut i: usize = 0;
    proof {
        assert(attr_views(attrs@) =~= Seq::empty());
    }
    while i < pairs
        invariant
            i <= pairs,
            pairs == f.tags.len() / 2,
            attr_views(attrs@) == attributes(f@.tags, l@.keys, l@.values, i as int),
        decreases pairs - i,
    {
        let k: usize = f.tags[2 * i] as usize;
        let v: usize = f.tags[2 * i + 1] as usize;
        if k < l.keys.len() && v < l.values.len() {
            proof {
                assert(l@.keys[k as int] == l.keys@[k as int]@);
                assert(l@.values[v as int] == crate::basemap::optional_view(l.values@[v as int]));
            }
            if let Some(value) = &l.values[v] {
                let ghost before = attrs@;
                attrs.push((l.keys[k].clone(), value.clone()));
                proof {
                    assert(attr_views(attrs@) =~= attr_views(before).push(
                        (l@.keys[k as int], value@),
                    ));
                }
            }
        }
        i = i + 1;
    }
    attrs
}

/// `f` is what the message's feature `raw` of layer `l` holds.
pub open spec fn decodes(
    f: Feature,
    raw: crate::basemap::RawFeatureView,
    l: crate::basemap::RawLayerView,
) -> bool {
    &&& f.kind == kind_of(raw.kind)
    &&& part_views(f.parts@) == drawn(raw.geometry)
    &&& attr_views(f.attrs@) == attributes(raw.tags, l.keys, l.values, raw.tags.len() as int / 2)
}

/// `v` is what the message's layer `l` holds.
pub open spec fn decodes_layer(v: VectorLayer, l: crate::basemap::RawLayerView) -> bool {
    &&& v.name@ == l.name
    &&& v.features.len() == l.features.len()
    &&& forall|i: int|
        0 <= i < l.features.len() ==> decodes(#[trigger] v.features@[i], l.features[i], l)
}

fn decode_feature(raw: &RawFeature, l: &RawLayer) -> (f: Feature)
    ensures
        decodes(f, raw@, l@),
{
    let kind = if crate::basemap::is_type(&raw.kind, 1) {
        GeomKind::Point
    } else if crate::basemap::is_type(&raw.kind, 2) {
        GeomKind::Line
    } else if crate::basemap::is_type(&raw.kind, 3) {
        GeomKind::Polygon
    } else {
        GeomKind::Unknown
    };
    Feature { kind, parts: decode_geometry(&raw.geometry), attrs: read_attributes(raw, l) }
}

impl VectorTile {
    /// Decode the features of a tile's layers.
    pub fn from_layers(layers: &Vec<RawLayer>) -> (t: VectorTile)
        ensures
            t.layers.len() == layers.len(),
            forall|i: int|
                0 <= i < layers.len() ==> decodes_layer(#[trigger] t.layers@[i], layers@[i]@),
    {
        let mut out: Vec<VectorLayer> = Vec::new();
        let mut i: usize = 0;
        while i < layers.len()
            invariant
                i <= layers.len(),
                out.len() == i,
                forall|k: int| 0 <= k < i ==> decodes_layer(#[trigger] out@[k], layers@[k]@),
            decreases layers.len() - i,
        {
            let l = &layers[i];
            let mut features: Vec<Feature> = Vec::new();
            let mut j: usize = 0;
            while j < l.features.len()
                invariant
                    j <= l.features.len(),
                    features.len() == j,
                    forall|k: int|
                        0 <= k < j ==> decodes(#[trigger] features@[k], l.features@[k]@, l@),
                decreases l.features.len() - j,
            {
                features.push(decode_feature(&l.features[j], l));
                j = j + 1;
            }
            out.push(VectorLayer { name: l.name.clone(), features });
            i = i + 1;
        }
        VectorTile { layers: out }
    }

    /// The position of the first layer of that name.
    pub open spec fn layer_named(self, name: Seq<char>, from: int) -> Option<int>
        decreases self.layers.len() - from,
    {
        if from >= self.layers.len() {
            None
        } else if self.layers@[from].name@ == name {
            Some(from)
        } else {
            self.layer_named(name, from + 1)
        }
    }

    /// The position of the first layer named `name`.
    pub fn layer(&self, name: &str) -> (r: Option<usize>)
        ensures
            match self.layer_named(name@, 0) {
                Some(i) => r == Some(i as usize) && 0 <= i < self.layers.len()
                    && self.layers@[i].name@ == name@,
                None => r is None,
            },
    {
        let mut i: usize = 0;
        while i < self.layers.len()
            invariant
                i <= self.layers.len(),
                self.layer_named(name@, i as int) == self.layer_named(name@, 0),
            decreases self.layers.len() - i,
        {
            if same_text(self.layers[i].name.as_str(), name) {
                return Some(i);
            }
            i = i + 1;
        }
        None
    }
}

/// The value of the first attribute with that key, counting from `from`.
pub open spec fn attr_in(
    attrs: Seq<(Seq<char>, Seq<char>)>,
    key: Seq<char>,
    from: int,
) -> Option<Seq<char>>
    decreases attrs.len() - from,
{
    if from >= attrs.len() {
        None
    } else if attrs[from].0 == key {
        Some(attrs[from].1)
    } else {
        attr_in(attrs, key, from + 1)
    }
}

impl Feature {
    /// The value of a string attribute.
    pub fn attr(&self, key: &str) -> (r: Option<&str>)
        ensures
            match attr_in(attr_views(self.attrs@), key@, 0) {
                Some(v) => r matches Some(s) && s@ == v,
                None => r is None,
            },
    {
        let mut i: usize = 0;
        let ghost views = attr_views(self.attrs@);
        while i < self.attrs.len()
            invariant
                i <= self.attrs.len(),
                views == attr_views(self.attrs@),
                attr_in(views, key@, i as int) == attr_in(views, key@, 0),
            decreases self.attrs.len() - i,
        {
            proof {
                assert(views[i as int] == (self.attrs@[i as int].0@, self.attrs@[i as int].1@));
            }
            if same_text(self.attrs[i].0.as_str(), key) {
                return Some(self.attrs[i].1.as_str());
            }
            i = i + 1;
        }
        None
    }
}

/// Decompress and decode a tile blob with its geometry. `None` if the tile is
/// absent.
pub fn decode_vector_tile(blob: Option<&[u8]>) -> (r: Result<Option<VectorTile>, TileError>)
    ensures
        match blob {
            None => r matches Ok(None),
            Some(b) => match crate::basemap::message_in(b@) {
                None => r matches Err(TileError::Io(_)),
                Some(m) => match crate::basemap::mvt_layers(m) {
                    None => r matches Err(TileError::Decode(_)),
                    Some(l) => {
                        &&& r matches Ok(Some(t))
                        &&& t.layers.len() == l.len()
                        &&& forall|i: int|
                            0 <= i < l.len() ==> decodes_layer(#[trigger] t.layers@[i], l[i])
                    },
                },
            },
        },
{
    match blob {
        None => Ok(None),
        Some(b) => match read_layers(b) {
            Err(e) => Err(e),
            Ok(layers) => {
                let t = VectorTile::from_layers(&layers);
                proof {
                    let views = crate::basemap::layer_views(layers@);
                    assert forall|i: int| 0 <= i < layers.len() implies decodes_layer(
                        #[trigger] t.layers@[i],
                        views[i],
                    ) by {
                        assert(views[i] == layers@[i]@);
                    }
                }
                Ok(Some(t))
            },
        },
    }
}

/// A ring that was closed repeats its first point as its last.
pub proof fn closing_repeats_first_point(parts: Seq<Seq<(i32, i32)>>)
    requires
        parts.len() > 0,
        parts.last().len() > 0,
    ensures
        closed_ring(parts).last().last() == parts.last()[0],
        closed_ring(parts).last()[0] == parts.last()[0],
        closed_ring(parts).len() == parts.len(),
{
}

/// A layer is found by its name, the first of several; where no layer bears the
/// name none is found.
pub proof fn layer_is_the_first_of_its_name(t: VectorTile, name: Seq<char>, from: int)
    requires
        0 <= from,
    ensures
        t.layer_named(name, from) matches Some(i) ==> {
            &&& from <= i < t.layers.len()
            &&& t.layers@[i].name@ == name
            &&& forall|j: int| from <= j < i ==> (#[trigger] t.layers@[j]).name@ != name
        },
        t.layer_named(name, from) is None <==> forall|j: int|
            from <= j < t.layers.len() ==> (#[trigger] t.layers@[j]).name@ != name,
    decreases t.layers.len() - from,
{
    if from < t.layers.len() {
        layer_is_the_first_of_its_name(t, name, from + 1);
        if t.layers@[from].name@ == name {
            assert(t.layer_named(name, from) == Some(from));
        }
    }
}

/// An attribute is the value of the first pair with its key; there is none exactly
/// where no pair has the key.
pub proof fn attribute_is_the_first_of_its_key(
    attrs: Seq<(Seq<char>, Seq<char>)>,
    key: Seq<char>,
    from: int,
)
    requires
        0 <= from,
    ensures
        attr_in(attrs, key, from) is None <==> forall|j: int|
            from <= j < attrs.len() ==> (#[trigger] attrs[j]).0 != key,
        forall|i: int|
            from <= i < attrs.len() && (#[trigger] attrs[i]).0 == key && (forall|j: int|
                from <= j < i ==> (#[trigger] attrs[j]).0 != key) ==> attr_in(attrs, key, from)
                == Some(attrs[i].1),
    decreases attrs.len() - from,
{
    if from < attrs.len() {
        attribute_is_the_first_of_its_key(attrs, key, from + 1);
        if attrs[from].0 == key {
            assert(attr_in(attrs, key, from) == Some(attrs[from].1));
        }
    }
}

/// Each pair of tags adds one attribute at most, at the end: the key and the string
/// that its two numbers point at. A pair that points outside the dictionaries, or at
/// a value that is no string, adds none.
pub proof fn tags_point_into_the_dictionaries(
    tags: Seq<u32>,
    keys: Seq<Seq<char>>,
    values: Seq<Option<Seq<char>>>,
    n: int,
)
    requires
        0 < n,
        2 * n <= tags.len(),
    ensures
        ({
            let before = attributes(tags, keys, values, n - 1);
            let after = attributes(tags, keys, values, n);
            let (k, v) = (tags[2 * n - 2] as int, tags[2 * n - 1] as int);
            &&& k >= keys.len() || v >= values.len() || values[v] is None ==> after == before
            &&& k < keys.len() && v < values.len() && values[v] is Some ==> {
                &&& after.len() == before.len() + 1
                &&& after.drop_last() == before
                &&& after.last().0 == keys[k]
                &&& Some(after.last().1) == values[v]
            }
        }),
        attributes(tags, keys, values, 0).len() == 0,
{
    let before = attributes(tags, keys, values, n - 1);
    let k = tags[2 * (n - 1)] as int;
    let v = tags[2 * (n - 1) + 1] as int;
    assert(before.push((keys[k], values[v]->Some_0)).drop_last() =~= before);
}

/// Zigzag coding interleaves the signs: an even parameter stands for half of it, and
/// the odd one after it for the negative number whose magnitude is one more.
pub proof fn zigzag_interleaves_signs(v: u32)
    requires
        v < 0xffff_ffff,
        v % 2 == 0,
    ensures
        2 * unzigzag(v) == v,
        unzigzag((v + 1) as u32) == -unzigzag(v) - 1,
        unzigzag(v) >= 0,
        unzigzag((v + 1) as u32) < 0,
{
}

/// A move starts a part with one vertex, displaced from where the pen was, and
/// leaves the other parts as they are.
pub proof fn a_move_starts_a_part(pen: Pen, dx: u32, dy: u32)
    requires
        fits(pen.x + unzigzag(dx)),
        fits(pen.y + unzigzag(dy)),
    ensures
        vertex(pen, dx, dy, true) matches Some(next) && {
            &&& next.x == pen.x + unzigzag(dx) && next.y == pen.y + unzigzag(dy)
            &&& next.parts.len() == pen.parts.len() + 1
            &&& next.parts.drop_last() == pen.parts
            &&& next.parts.last().len() == 1
            &&& next.parts.last()[0].0 == next.x && next.parts.last()[0].1 == next.y
        },
{
    let next = vertex(pen, dx, dy, true)->Some_0;
    assert(next.parts.drop_last() =~= pen.parts);
}

/// A line adds one vertex to the last part, displaced from where the pen was, and
/// leaves the other parts as they are.
pub proof fn a_line_goes_on_from_the_pen(pen: Pen, dx: u32, dy: u32)
    requires
        fits(pen.x + unzigzag(dx)),
        fits(pen.y + unzigzag(dy)),
        pen.parts.len() > 0,
    ensures
        vertex(pen, dx, dy, false) matches Some(next) && {
            &&& next.x == pen.x + unzigzag(dx) && next.y == pen.y + unzigzag(dy)
            &&& next.parts.len() == pen.parts.len()
            &&& next.parts.drop_last() == pen.parts.drop_last()
            &&& next.parts.last().len() == pen.parts.last().len() + 1
            &&& next.parts.last().drop_last() == pen.parts.last()
            &&& next.parts.last().last().0 == next.x && next.parts.last().last().1 == next.y
        },
{
    let next = vertex(pen, dx, dy, false)->Some_0;
    assert(next.parts.drop_last() =~= pen.parts.drop_last());
    assert(next.parts.last().drop_last() =~= pen.parts.last());
}

/// Off the coordinate range the pen does not go.
pub proof fn the_pen_stays_in_range(pen: Pen, dx: u32, dy: u32, fresh: bool)
    ensures
        vertex(pen, dx, dy, fresh) is None <==> {
            ||| pen.x + unzigzag(dx) > i32::MAX
            ||| pen.x + unzigzag(dx) < i32::MIN
            ||| pen.y + unzigzag(dy) > i32::MAX
            ||| pen.y + unzigzag(dy) < i32::MIN
        },
{
}

/// The vertices of lines drawn one after the other: each is displaced from the one
/// before, and the first from where the pen was, by its own pair of parameters.
pub proof fn vertices_follow_their_displacements(
    g: Seq<u32>,
    at: int,
    count: nat,
    pen: Pen,
    i: int,
)
    requires
        0 <= at,
        0 <= i < count,
        at + 2 * i + 2 <= g.len(),
        pen.parts.len() > 0,
        forall|k: int|
            0 < k <= i + 1 ==> fits(#[trigger] displaced(g, at, pen.x, k)) && fits(
                displaced(g, at + 1, pen.y, k),
            ),
    ensures
        ({
            let part = draw_points(g, at, count, false, pen)[pen.parts.len() - 1];
            let p = part[pen.parts.last().len() + i];
            &&& part.len() > pen.parts.last().len() + i
            &&& p.0 == displaced(g, at, pen.x, i + 1)
            &&& p.1 == displaced(g, at + 1, pen.y, i + 1)
        }),
    decreases i,
{
    let first = vertex(pen, g[at], g[at + 1], false);
    reveal_with_fuel(displaced, 2);
    assert(fits(displaced(g, at, pen.x, 1)) && fits(displaced(g, at + 1, pen.y, 1)));
    let next = first->Some_0;
    a_line_goes_on_from_the_pen(pen, g[at], g[at + 1]);
    if i == 0 {
        lemma_draws_on(g, at + 2, (count - 1) as nat, false, next, pen.parts.len() - 1);
    } else {
        lemma_displaced_from(g, at, pen.x, i + 1);
        lemma_displaced_from(g, at + 1, pen.y, i + 1);
        assert forall|k: int| 0 < k <= i implies fits(#[trigger] displaced(g, at + 2, next.x, k))
            && fits(displaced(g, at + 3, next.y, k)) by {
            lemma_displaced_from(g, at, pen.x, k + 1);
            lemma_displaced_from(g, at + 1, pen.y, k + 1);
            assert(fits(displaced(g, at, pen.x, k + 1)));
        }
        vertices_follow_their_displacements(g, at + 2, (count - 1) as nat, next, i - 1);
    }
}

/// A coordinate that starts at `from` after `n` displacements, whose parameters stand
/// at every other place from `at` on.
pub open spec fn displaced(g: Seq<u32>, at: int, from: int, n: int) -> int
    decreases n,
{
    if n <= 0 {
        from
    } else {
        displaced(g, at, from, n - 1) + unzigzag(g[at + 2 * (n - 1)])
    }
}

proof fn lemma_displaced_from(g: Seq<u32>, at: int, from: int, n: int)
    requires
        n > 0,
    ensures
        displaced(g, at, from, n) == displaced(g, at + 2, from + unzigzag(g[at]), n - 1),
    decreases n,
{
    if n > 1 {
        lemma_displaced_from(g, at, from, n - 1);
    } else {
        assert(displaced(g, at, from, 0) == from);
    }
}

/// What is drawn stays drawn: later commands change no vertex, whatever they are.
proof fn lemma_draws_on(g: Seq<u32>, at: int, count: nat, fresh: bool, pen: Pen, k: int)
    requires
        0 <= at,
        0 <= k < pen.parts.len(),
    ensures
        ({
            let out = draw_points(g, at, count, fresh, pen);
            &&& out.len() >= pen.parts.len()
            &&& out[k].len() >= pen.parts[k].len()
            &&& out[k].take(pen.parts[k].len() as int) == pen.parts[k]
            &&& forall|i: int| 0 <= i < pen.parts[k].len() ==> #[trigger] out[k][i] == pen.parts[k][i]
        }),
    decreases g.len() - at, 1int,
{
    let out = draw_points(g, at, count, fresh, pen);
    assert(pen.parts[k].take(pen.parts[k].len() as int) =~= pen.parts[k]);
    if count == 0 {
        lemma_draws(g, at, pen, k);
    } else if at + 2 <= g.len() {
        if let Some(next) = vertex(pen, g[at], g[at + 1], fresh) {
            lemma_draws_on(g, at + 2, (count - 1) as nat, fresh, next, k);
            assert(next.parts[k].take(pen.parts[k].len() as int) =~= pen.parts[k]);
            assert(out[k].take(pen.parts[k].len() as int) =~= pen.parts[k]) by {
                assert forall|i: int| 0 <= i < pen.parts[k].len() implies out[k][i] == pen.parts[k][i] by {
                    assert(out[k][i] == next.parts[k][i]);
                    assert(next.parts[k].take(pen.parts[k].len() as int)[i] == next.parts[k][i]);
                }
            }
        }
    }
    assert forall|i: int| 0 <= i < pen.parts[k].len() implies #[trigger] out[k][i]
        == pen.parts[k][i] by {
        assert(out[k].take(pen.parts[k].len() as int)[i] == out[k][i]);
    }
}

proof fn lemma_draws(g: Seq<u32>, at: int, pen: Pen, k: int)
    requires
        0 <= at,
        0 <= k < pen.parts.len(),
    ensures
        ({
            let out = draw(g, at, pen);
            &&& out.len() >= pen.parts.len()
            &&& out[k].len() >= pen.parts[k].len()
            &&& out[k].take(pen.parts[k].len() as int) == pen.parts[k]
        }),
    decreases g.len() - at, 0int,
{
    let out = draw(g, at, pen);
    assert(pen.parts[k].take(pen.parts[k].len() as int) =~= pen.parts[k]);
    if at < g.len() {
        let id = g[at] % 8;
        let count = (g[at] / 8) as nat;
        if id == 1 || id == 2 {
            lemma_draws_on(g, at + 1, count, id == 1, pen, k);
        } else if id == 7 {
            let next = Pen { parts: closed_ring(pen.parts), ..pen };
            lemma_draws(g, at + 1, next, k);
            assert(next.parts[k].take(pen.parts[k].len() as int) =~= pen.parts[k]);
            assert(out[k].take(pen.parts[k].len() as int) =~= pen.parts[k]) by {
                assert forall|i: int| 0 <= i < pen.parts[k].len() implies out[k][i] == pen.parts[k][i] by {
                    assert(out[k].take(next.parts[k].len() as int)[i] == out[k][i]);
                    assert(next.parts[k].take(pen.parts[k].len() as int)[i] == next.parts[k][i]);
                }
            }
        }
    }
}

/// The commands, told by their three lowest bits: 1 moves and 2 draws, as often as the
/// other bits say; 7 closes the last part; anything else ends the drawing.
pub proof fn commands_do_what_they_say(g: Seq<u32>, at: int, pen: Pen)
    requires
        0 <= at < g.len(),
    ensures
        g[at] % 8 == 1 ==> draw(g, at, pen) == draw_points(g, at + 1, (g[at] / 8) as nat, true, pen),
        g[at] % 8 == 2 ==> draw(g, at, pen) == draw_points(g, at + 1, (g[at] / 8) as nat, false, pen),
        g[at] % 8 == 7 ==> draw(g, at, pen) == draw(
            g,
            at + 1,
            (Pen { x: pen.x, y: pen.y, parts: closed_ring(pen.parts) }),
        ),
        g[at] % 8 != 1 && g[at] % 8 != 2 && g[at] % 8 != 7 ==> draw(g, at, pen) == pen.parts,
{
}

/// An empty stream draws nothing, and the end of the stream ends the drawing.
pub proof fn drawing_ends_with_the_stream(g: Seq<u32>, at: int, pen: Pen)
    requires
        at >= g.len(),
    ensures
        draw(g, at, pen) == pen.parts,
        drawn(Seq::empty()).len() == 0,
{
}

/// The geometry kind is told by the number in the type field: 1 is a point, 2 a line and
/// 3 a polygon; anything else is unknown.
pub proof fn kinds_are_told_by_number(field: Seq<u8>)
    ensures
        kind_of(field) == GeomKind::Point <==> field.len() == 2 && field[0] == 0x18 && field[1] == 1,
        kind_of(field) == GeomKind::Line <==> field.len() == 2 && field[0] == 0x18 && field[1] == 2,
        kind_of(field) == GeomKind::Polygon <==> field.len() == 2 && field[0] == 0x18 && field[1] == 3,
{
    let (a, b, c) = (
        crate::basemap::type_field(1),
        crate::basemap::type_field(2),
        crate::basemap::type_field(3),
    );
    assert(a.len() == 2 && a[0] == 0x18 && a[1] == 1);
    assert(b.len() == 2 && b[0] == 0x18 && b[1] == 2);
    assert(c.len() == 2 && c[0] == 0x18 && c[1] == 3);
    if field.len() == 2 && field[0] == 0x18 {
        assert(field[1] == 1 ==> field =~= a);
        assert(field[1] == 2 ==> field =~= b);
        assert(field[1] == 3 ==> field =~= c);
    }
}

/// A line without a part to go on from starts one.
pub proof fn a_line_may_start_a_part(pen: Pen, dx: u32, dy: u32)
    requires
        fits(pen.x + unzigzag(dx)),
        fits(pen.y + unzigzag(dy)),
        pen.parts.len() == 0,
    ensures
        vertex(pen, dx, dy, false) matches Some(next) && {
            &&& next.x == pen.x + unzigzag(dx) && next.y == pen.y + unzigzag(dy)
            &&& next.parts.len() == 1 && next.parts[0].len() == 1
            &&& next.parts[0][0].0 == next.x && next.parts[0][0].1 == next.y
        },
{
}

/// Vertices are drawn one by one, each from its own pair of parameters; where parameters are
/// missing, or lead off the coordinate range, the drawing ends with what there is.
pub proof fn vertices_are_drawn_one_by_one(
    g: Seq<u32>,
    at: int,
    count: nat,
    fresh: bool,
    pen: Pen,
)
    requires
        0 <= at,
    ensures
        draw_points(g, at, 0, fresh, pen) == draw(g, at, pen),
        count > 0 && at + 2 > g.len() ==> draw_points(g, at, count, fresh, pen) == pen.parts,
        count > 0 && at + 2 <= g.len() ==> match vertex(pen, g[at], g[at + 1], fresh) {
            None => draw_points(g, at, count, fresh, pen) == pen.parts,
            Some(next) => draw_points(g, at, count, fresh, pen) == draw_points(
                g,
                at + 2,
                (count - 1) as nat,
                fresh,
                next,
            ),
        },
        drawn(g) == draw(g, 0, (Pen { x: 0, y: 0, parts: Seq::empty() })),
{
}

/// Closing needs a part with a vertex; it leaves the other parts as they are, and adds one
/// vertex to the last.
pub proof fn closing_changes_the_last_part_only(parts: Seq<Seq<(i32, i32)>>)
    ensures
        parts.len() == 0 || parts.last().len() == 0 ==> closed_ring(parts) == parts,
        parts.len() > 0 && parts.last().len() > 0 ==> {
            &&& closed_ring(parts).drop_last() == parts.drop_last()
            &&& closed_ring(parts).last() == parts.last().push(parts.last()[0])
        },
{
    if parts.len() > 0 && parts.last().len() > 0 {
        assert(closed_ring(parts).drop_last() =~= parts.drop_last());
    }
}

/// A tile keeps its layers and their features in order: a layer its name, a feature its kind,
/// its drawn geometry, and the attributes that all of its tag pairs give.
pub proof fn tiles_keep_their_features(
    layers: &Vec<RawLayer>,
    t: VectorTile,
    i: int,
    j: int,
)
    requires
        call_ensures(VectorTile::from_layers, (layers,), t),
        0 <= i < layers.len(),
        0 <= j < layers@[i].features.len(),
    ensures
        t.layers.len() == layers.len(),
        t.layers@[i].name@ == layers@[i].name@,
        t.layers@[i].features.len() == layers@[i].features.len(),
        ({
            let f = t.layers@[i].features@[j];
            let raw = layers@[i].features@[j];
            let l = layers@[i]@;
            &&& f.kind == kind_of(raw.kind@)
            &&& part_views(f.parts@) == drawn(raw.geometry@)
            &&& attr_views(f.attrs@) == attributes(
                raw.tags@,
                l.keys,
                l.values,
                raw.tags.len() as int / 2,
            )
        }),
{
    assert(decodes_layer(t.layers@[i], layers@[i]@));
    assert(layers@[i]@.features[j] == layers@[i].features@[j]@);
    assert(decodes(t.layers@[i].features@[j], layers@[i]@.features[j], layers@[i]@));
}

}

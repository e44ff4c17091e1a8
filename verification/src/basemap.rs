//! Vector map tiles: the archive's metadata, the tile blobs (gzip-compressed or
//! raw Mapbox Vector Tiles), and what is in a decoded tile.

use std::io::Read;
use vstd::prelude::*;
use crate::text::{parse_text, same_text, trim};
use crate::tile::TILE_EXTENT;

verus! {

#[verifier::external_type_specification]
#[verifier::external_body]
pub struct ExDecodeError(prost::DecodeError);

/// Why a tile blob cannot be used.
#[derive(Debug)]
pub enum TileError {
    /// The gzip stream is broken.
    Io(std::io::Error),
    /// The protobuf message is broken.
    Decode(prost::DecodeError),
}

/// A few useful `metadata` values (whatever the archive provides).
#[derive(Debug, Default, Clone)]
pub struct Metadata {
    pub name: Option<String>,
    pub format: Option<String>,
    pub minzoom: Option<u8>,
    pub maxzoom: Option<u8>,
    pub bounds: Option<String>,
}

/// The zoom level that a metadata value spells, if it is one.
pub open spec fn zoom_in(value: Option<String>) -> Option<u8> {
    match value {
        None => None,
        Some(s) => match crate::text::numeral(
            crate::text::code_points(crate::text::trimmed(s@)),
        ) {
            Some(v) => if v <= 255 {
                Some(v as u8)
            } else {
                None
            },
            None => None,
        },
    }
}

fn parse_zoom(value: &Option<String>) -> (r: Option<u8>)
    ensures
        r == zoom_in(*value),
{
    match value {
        None => None,
        Some(s) => {
            let t = trim(s.as_str());
            match parse_text(t.as_str(), 255) {
                Some(v) => Some(v as u8),
                None => None,
            }
        },
    }
}

impl Metadata {
    /// Assemble the metadata from the archive's values, in which zoom levels are
    /// text.
    pub fn from_values(
        name: Option<String>,
        format: Option<String>,
        minzoom: Option<String>,
        maxzoom: Option<String>,
        bounds: Option<String>,
    ) -> (m: Metadata)
        ensures
            m.name == name,
            m.format == format,
            m.minzoom == zoom_in(minzoom),
            m.maxzoom == zoom_in(maxzoom),
            m.bounds == bounds,
    {
        Metadata {
            name,
            format,
            minzoom: parse_zoom(&minzoom),
            maxzoom: parse_zoom(&maxzoom),
            bounds,
        }
    }
}

/// What `flate2::read::GzDecoder` reads from a gzip stream; `None` where it
/// fails.
pub uninterp spec fn gunzipped(stream: Seq<u8>) -> Option<Seq<u8>>;

/// What `prost::Message::decode` makes of a vector tile (`geozero::mvt::Tile`):
/// its layers; `None` where it fails.
pub uninterp spec fn mvt_layers(message: Seq<u8>) -> Option<Seq<RawLayerView>>;

/// `flate2::read::GzDecoder` on a stream in memory, read to its end. What it
/// reads is a function of the bytes alone; it is named, not stated.
#[verifier::external_body]
fn gunzip(stream: &[u8]) -> (r: Result<Vec<u8>, std::io::Error>)
    ensures
        match gunzipped(stream@) {
            Some(b) => r matches Ok(v) && v@ == b,
            None => r is Err,
        },
{
    let mut out = Vec::new();
    flate2::read::GzDecoder::new(stream).read_to_end(&mut out)?;
    Ok(out)
}

/// `prost::Message::decode` on a `geozero::mvt::Tile`. The layers are a function
/// of the bytes alone; they are named, not stated. Of each feature its tags and
/// geometry are kept and, as `encode_to_vec` writes it, its type; of the values
/// those that are strings.
#[verifier::external_body]
fn parse_mvt(message: &[u8]) -> (r: Result<Vec<RawLayer>, prost::DecodeError>)
    ensures
        match mvt_layers(message@) {
            Some(l) => r matches Ok(v) && layer_views(v@) == l,
            None => r is Err,
        },
{
    let tile: geozero::mvt::Tile = prost::Message::decode(message)?;
    Ok(tile.layers.into_iter().map(|l| RawLayer {
        name: l.name,
        version: l.version,
        extent: l.extent,
        features: l.features.into_iter().map(|mut f| RawFeature {
            tags: std::mem::take(&mut f.tags),
            geometry: std::mem::take(&mut f.geometry),
            kind: prost::Message::encode_to_vec(&geozero::mvt::tile::Feature { id: None, ..f }),
        }).collect(),
        keys: l.keys,
        values: l.values.into_iter().map(|v| v.string_value).collect(),
    }).collect())
}

/// A feature as the message holds it. Its geometry type stays in wire format: a
/// field key and a number, or nothing where the feature has none.
#[derive(Debug)]
pub struct RawFeature {
    pub kind: Vec<u8>,
    pub tags: Vec<u32>,
    pub geometry: Vec<u32>,
}

/// A layer as the message holds it; values that are not strings are `None`.
#[derive(Debug)]
pub struct RawLayer {
    pub name: String,
    pub version: u32,
    pub extent: Option<u32>,
    pub features: Vec<RawFeature>,
    pub keys: Vec<String>,
    pub values: Vec<Option<String>>,
}

pub struct RawFeatureView {
    pub kind: Seq<u8>,
    pub tags: Seq<u32>,
    pub geometry: Seq<u32>,
}

pub struct RawLayerView {
    pub name: Seq<char>,
    pub version: u32,
    pub extent: Option<u32>,
    pub features: Seq<RawFeatureView>,
    pub keys: Seq<Seq<char>>,
    pub values: Seq<Option<Seq<char>>>,
}

impl View for RawFeature {
    type V = RawFeatureView;

    open spec fn view(&self) -> RawFeatureView {
        RawFeatureView { kind: self.kind@, tags: self.tags@, geometry: self.geometry@ }
    }
}

pub open spec fn optional_view(s: Option<String>) -> Option<Seq<char>> {
    match s {
        Some(s) => Some(s@),
        None => None,
    }
}

impl View for RawLayer {
    type V = RawLayerView;

    open spec fn view(&self) -> RawLayerView {
        RawLayerView {
            name: self.name@,
            version: self.version,
            extent: self.extent,
            features: self.features@.map_values(|f: RawFeature| f@),
            keys: crate::text::string_views(self.keys@),
            values: self.values@.map_values(|v: Option<String>| optional_view(v)),
        }
    }
}

pub open spec fn layer_views(layers: Seq<RawLayer>) -> Seq<RawLayerView> {
    layers.map_values(|l: RawLayer| l@)
}

/// The blob carries the gzip magic.
pub open spec fn gzipped(blob: Seq<u8>) -> bool {
    blob.len() >= 2 && blob[0] == 0x1f && blob[1] == 0x8b
}

/// The message inside a blob; `None` where its gzip stream is broken.
pub open spec fn message_in(blob: Seq<u8>) -> Option<Seq<u8>> {
    if gzipped(blob) {
        gunzipped(blob)
    } else {
        Some(blob)
    }
}

/// Gzip-decompress if the blob carries the gzip magic (1f 8b); otherwise return
/// it as-is (some MBTiles store raw, uncompressed PBF).
pub fn maybe_gunzip(bytes: &[u8]) -> (r: Result<Vec<u8>, TileError>)
    ensures
        match message_in(bytes@) {
            Some(m) => r matches Ok(v) && v@ == m,
            None => r matches Err(TileError::Io(_)),
        },
{
    if bytes.len() >= 2 && bytes[0] == 0x1f && bytes[1] == 0x8b {
        match gunzip(bytes) {
            Ok(v) => Ok(v),
            Err(e) => Err(TileError::Io(e)),
        }
    } else {
        Ok(vstd::slice::slice_to_vec(bytes))
    }
}

/// Per-layer summary of a decoded tile.
#[derive(Debug, Clone)]
pub struct LayerSummary {
    pub name: String,
    pub version: u32,
    pub extent: u32,
    pub features: usize,
    pub points: usize,
    pub lines: usize,
    pub polygons: usize,
    /// Attribute keys present in the layer's dictionary.
    pub keys: Vec<String>,
}

/// A decoded tile reduced to per-layer summaries.
#[derive(Debug, Clone)]
pub struct DecodedTile {
    pub layers: Vec<LayerSummary>,
}

/// The geometry type field with a one-byte number, in wire format.
pub open spec fn type_field(kind: u8) -> Seq<u8> {
    seq![0x18u8, kind]
}

/// How many features are of a geometry type: 1 = point, 2 = line string,
/// 3 = polygon.
pub open spec fn of_kind(features: Seq<RawFeatureView>, kind: u8) -> nat
    decreases features.len(),
{
    if features.len() == 0 {
        0
    } else {
        of_kind(features.drop_last(), kind) + if features.last().kind == type_field(kind) {
            1nat
        } else {
            0nat
        }
    }
}

/// `s` summarises layer `l`.
pub open spec fn summarises(s: LayerSummary, l: RawLayerView) -> bool {
    &&& s.name@ == l.name
    &&& s.version == l.version
    &&& s.extent == match l.extent {
        Some(e) => e,
        None => TILE_EXTENT,
    }
    &&& s.features == l.features.len()
    &&& s.points == of_kind(l.features, 1)
    &&& s.lines == of_kind(l.features, 2)
    &&& s.polygons == of_kind(l.features, 3)
    &&& crate::text::string_views(s.keys@) == l.keys
}

/// Every feature counts for at most one geometry type.
pub proof fn kinds_are_among_features(features: Seq<RawFeatureView>)
    ensures
        of_kind(features, 1) + of_kind(features, 2) + of_kind(features, 3) <= features.len(),
    decreases features.len(),
{
    if features.len() > 0 {
        kinds_are_among_features(features.drop_last());
        assert(type_field(1)[1] == 1 && type_field(2)[1] == 2 && type_field(3)[1] == 3);
    }
}

/// The number of features in all layers.
pub open spec fn feature_total(layers: Seq<LayerSummary>) -> nat
    decreases layers.len(),
{
    if layers.len() == 0 {
        0
    } else {
        feature_total(layers.drop_last()) + layers.last().features as nat
    }
}

proof fn lemma_total_grows(layers: Seq<LayerSummary>, k: int)
    requires
        0 <= k <= layers.len(),
    ensures
        feature_total(layers.take(k)) <= feature_total(layers),
    decreases layers.len() - k,
{
    if k < layers.len() {
        lemma_total_grows(layers, k + 1);
        assert(layers.take(k + 1).drop_last() =~= layers.take(k));
    } else {
        assert(layers.take(k) =~= layers);
    }
}

impl DecodedTile {
    pub fn total_features(&self) -> (n: usize)
        requires
            feature_total(self.layers@) <= usize::MAX,
        ensures
            n == feature_total(self.layers@),
    {
        let mut n: usize = 0;
        let mut i: usize = 0;
        while i < self.layers.len()
            invariant
                i <= self.layers.len(),
                feature_total(self.layers@) <= usize::MAX,
                n == feature_total(self.layers@.take(i as int)),
            decreases self.layers.len() - i,
        {
            proof {
                assert(self.layers@.take(i as int + 1).drop_last() =~= self.layers@.take(i as int));
                lemma_total_grows(self.layers@, i as int + 1);
            }
            n = n + self.layers[i].features;
            i = i + 1;
        }
        proof {
            assert(self.layers@.take(i as int) =~= self.layers@);
        }
        n
    }
}

fn copy_strings(src: &Vec<String>) -> (r: Vec<String>)
    ensures
        crate::text::string_views(r@) == crate::text::string_views(src@),
{
    let mut r: Vec<String> = Vec::new();
    let mut i: usize = 0;
    while i < src.len()
        invariant
            i <= src.len(),
            r.len() == i,
            forall|k: int| 0 <= k < i ==> (#[trigger] r@[k])@ == src@[k]@,
        decreases src.len() - i,
    {
        r.push(src[i].clone());
        i = i + 1;
    }
    proof {
        assert(crate::text::string_views(r@) =~= crate::text::string_views(src@));
    }
    r
}

pub(crate) fn is_type(field: &Vec<u8>, kind: u8) -> (r: bool)
    ensures
        r == (field@ == type_field(kind)),
{
    let r = field.len() == 2 && field[0] == 0x18 && field[1] == kind;
    proof {
        if r {
            assert(field@ =~= type_field(kind));
        } else if field@ == type_field(kind) {
            assert(field@[0] == 0x18 && field@[1] == kind);
        }
    }
    r
}

fn count_kind(features: &Vec<RawFeature>, kind: u8) -> (n: usize)
    ensures
        n == of_kind(features@.map_values(|f: RawFeature| f@), kind),
{
    let ghost views = features@.map_values(|f: RawFeature| f@);
    let mut n: usize = 0;
    let mut i: usize = 0;
    while i < features.len()
        invariant
            views == features@.map_values(|f: RawFeature| f@),
            n <= i <= features.len(),
            n == of_kind(views.take(i as int), kind),
        decreases features.len() - i,
    {
        proof {
            assert(views.take(i as int + 1).drop_last() =~= views.take(i as int));
        }
        if is_type(&features[i].kind, kind) {
            n = n + 1;
        }
        i = i + 1;
    }
    proof {
        assert(views.take(i as int) =~= views);
    }
    n
}

/// Reduce a tile's layers to summaries.
pub fn summarise(layers: &Vec<RawLayer>) -> (t: DecodedTile)
    ensures
        t.layers.len() == layers.len(),
        forall|i: int| 0 <= i < layers.len() ==> summarises(#[trigger] t.layers@[i], layers@[i]@),
{
    let mut out: Vec<LayerSummary> = Vec::new();
    let mut i: usize = 0;
    while i < layers.len()
        invariant
            i <= layers.len(),
            out.len() == i,
            forall|k: int| 0 <= k < i ==> summarises(#[trigger] out@[k], layers@[k]@),
        decreases layers.len() - i,
    {
        let l = &layers[i];
        out.push(
            LayerSummary {
                name: l.name.clone(),
                version: l.version,
                extent: match l.extent {
                    Some(e) => e,
                    None => TILE_EXTENT,
                },
                features: l.features.len(),
                points: count_kind(&l.features, 1),
                lines: count_kind(&l.features, 2),
                polygons: count_kind(&l.features, 3),
                keys: copy_strings(&l.keys),
            },
        );
        i = i + 1;
    }
    DecodedTile { layers: out }
}

/// The layers in a tile blob, or which error it gives.
pub open spec fn layers_in(blob: Seq<u8>, r: Result<Seq<RawLayerView>, TileError>) -> bool {
    match message_in(blob) {
        None => r matches Err(TileError::Io(_)),
        Some(m) => match mvt_layers(m) {
            None => r matches Err(TileError::Decode(_)),
            Some(l) => r matches Ok(v) && v == l,
        },
    }
}

pub(crate) fn read_layers(blob: &[u8]) -> (r: Result<Vec<RawLayer>, TileError>)
    ensures
        match r {
            Ok(v) => layers_in(blob@, Ok(layer_views(v@))),
            Err(e) => layers_in(blob@, Err(e)),
        },
{
    let message = match maybe_gunzip(blob) {
        Ok(m) => m,
        Err(e) => return Err(e),
    };
    match parse_mvt(message.as_slice()) {
        Ok(l) => Ok(l),
        Err(e) => Err(TileError::Decode(e)),
    }
}

/// Decompress and decode a tile blob into a per-layer summary. `None` if the
/// tile is absent.
pub fn decode_tile(blob: Option<&[u8]>) -> (r: Result<Option<DecodedTile>, TileError>)
    ensures
        match blob {
            None => r matches Ok(None),
            Some(b) => match message_in(b@) {
                None => r matches Err(TileError::Io(_)),
                Some(m) => match mvt_layers(m) {
                    None => r matches Err(TileError::Decode(_)),
                    Some(l) => {
                        &&& r matches Ok(Some(t))
                        &&& t.layers.len() == l.len()
                        &&& forall|i: int| 0 <= i < l.len() ==> summarises(#[trigger] t.layers@[i], l[i])
                    },
                },
            },
        },
{
    match blob {
        None => Ok(None),
        Some(b) => match read_layers(b) {
            Err(e) => Err(e),
            Ok(layers) => {
                let t = summarise(&layers);
                proof {
                    assert forall|i: int| 0 <= i < layers.len() implies summarises(
                        #[trigger] t.layers@[i],
                        layer_views(layers@)[i],
                    ) by {
                        assert(layer_views(layers@)[i] == layers@[i]@);
                    }
                }
                Ok(Some(t))
            },
        },
    }
}

/// A feature counts for a geometry type exactly if its type field is the field's key and
/// that number; one more feature adds one to its own type's count and to no other.
pub proof fn features_count_by_type(features: Seq<RawFeatureView>, f: RawFeatureView, kind: u8)
    ensures
        f.kind.len() == 2 && f.kind[0] == 0x18 && f.kind[1] == kind ==> of_kind(
            features.push(f),
            kind,
        ) == of_kind(features, kind) + 1,
        f.kind.len() != 2 || f.kind[0] != 0x18 || f.kind[1] != kind ==> of_kind(
            features.push(f),
            kind,
        ) == of_kind(features, kind),
        of_kind(Seq::empty(), kind) == 0,
{
    assert(features.push(f).drop_last() =~= features);
    let t = type_field(kind);
    assert(t.len() == 2 && t[0] == 0x18 && t[1] == kind);
    if f.kind.len() == 2 && f.kind[0] == 0x18 && f.kind[1] == kind {
        assert(f.kind =~= t);
    }
}

/// The total adds up over the layers.
pub proof fn totals_add_up(layers: Seq<LayerSummary>, l: LayerSummary)
    ensures
        feature_total(layers.push(l)) == feature_total(layers) + l.features,
        feature_total(Seq::empty()) == 0,
{
    assert(layers.push(l).drop_last() =~= layers);
}

/// A summary's extent is the layer's, or 4096 where it gives none.
pub proof fn extents_default_to_the_standard(s: LayerSummary, l: RawLayerView)
    requires
        summarises(s, l),
    ensures
        l.extent is None ==> s.extent == 4096,
        l.extent matches Some(e) ==> s.extent == e,
        s.features == l.features.len(),
        s.points == of_kind(l.features, 1) && s.lines == of_kind(l.features, 2) && s.polygons
            == of_kind(l.features, 3),
{
}

/// A blob is decompressed exactly if it starts with the two bytes of the gzip magic; any
/// other is the message itself.
pub proof fn only_gzip_is_decompressed(blob: Seq<u8>)
    ensures
        blob.len() >= 2 && blob[0] == 0x1f && blob[1] == 0x8b ==> message_in(blob) == gunzipped(blob),
        blob.len() < 2 || blob[0] != 0x1f || blob[1] != 0x8b ==> message_in(blob) == Some(blob),
{
}

/// A zoom level is the numeral in its value, white space aside; what is no numeral, or
/// above 255, is none.
pub proof fn zoom_levels_are_small_numerals(s: String)
    ensures
        zoom_in(None) is None,
        ({
            let n = crate::text::numeral(crate::text::code_points(crate::text::trimmed(s@)));
            &&& n is None ==> zoom_in(Some(s)) is None
            &&& n matches Some(v) ==> (if v <= 255 {
                zoom_in(Some(s)) matches Some(z) && z == v
            } else {
                zoom_in(Some(s)) is None
            })
        }),
{
}

/// Metadata keep each value under its own name.
pub proof fn metadata_keep_their_names(
    name: Option<String>,
    format: Option<String>,
    minzoom: Option<String>,
    maxzoom: Option<String>,
    bounds: Option<String>,
    m: Metadata,
)
    requires
        call_ensures(Metadata::from_values, (name, format, minzoom, maxzoom, bounds), m),
    ensures
        m.name == name && m.format == format && m.bounds == bounds,
        m.minzoom == zoom_in(minzoom),
        m.maxzoom == zoom_in(maxzoom),
{
}

/// Layers are summarised one by one, in order: each under its own name and version, with its
/// own counts and keys.
pub proof fn layers_are_summarised_one_by_one(layers: &Vec<RawLayer>, t: DecodedTile, i: int)
    requires
        call_ensures(summarise, (layers,), t),
        0 <= i < layers.len(),
    ensures
        t.layers.len() == layers.len(),
        t.layers@[i].name@ == layers@[i].name@,
        t.layers@[i].version == layers@[i].version,
        t.layers@[i].features == layers@[i].features.len(),
        t.layers@[i].points == of_kind(layers@[i]@.features, 1),
        t.layers@[i].lines == of_kind(layers@[i]@.features, 2),
        t.layers@[i].polygons == of_kind(layers@[i]@.features, 3),
        crate::text::string_views(t.layers@[i].keys@) == crate::text::string_views(layers@[i].keys@),
{
    assert(summarises(t.layers@[i], layers@[i]@));
    assert(layers@[i]@.features.len() == layers@[i].features.len());
}

}

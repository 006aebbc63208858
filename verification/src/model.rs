//! The drawing as this library reads it: each entity by its reference ID,
//! its type, its layer and its confidence, and the little more the summary
//! and the search act on -- a block reference's block and attribute values,
//! a text's string and which texts stand to its right on its row.
//!
//! Where an entity is drawn is measured by whoever builds this model; what
//! the measuring decided arrives here as plain values (see
//! [`TextPlacement`], [`EntityData::Insert`] and [`DrawingEntity::extent_point`]).

use vstd::prelude::*;
use crate::text::{chars_lt, lemma_chars_lt_order, str_lt, strictly_sorted};

verus! {

/// How far an entity's values can be trusted: `Unknown < Low < High`.
#[derive(Debug, Clone, Copy, PartialEq, Eq, Structural)]
pub enum Confidence {
    Unknown,
    Low,
    High,
}

/// The place of a confidence in the order `Unknown < Low < High`.
pub open spec fn rank(c: Confidence) -> nat {
    match c {
        Confidence::Unknown => 0,
        Confidence::Low => 1,
        Confidence::High => 2,
    }
}

/// The lower of two confidences.
pub open spec fn lower_of(a: Confidence, b: Confidence) -> Confidence {
    if rank(a) <= rank(b) {
        a
    } else {
        b
    }
}

impl Confidence {
    /// The lower of `self` and `other`: a value made from both is trusted
    /// no more than the less trusted one.
    pub fn min(self, other: Confidence) -> (r: Confidence)
        ensures
            r == lower_of(self, other),
            rank(r) <= rank(self),
            rank(r) <= rank(other),
    {
        let a: u8 = match self {
            Confidence::Unknown => 0,
            Confidence::Low => 1,
            Confidence::High => 2,
        };
        let b: u8 = match other {
            Confidence::Unknown => 0,
            Confidence::Low => 1,
            Confidence::High => 2,
        };
        if a <= b {
            self
        } else {
            other
        }
    }
}

/// A reference to a named table entry: resolved to the name, absent, or
/// pointing at nothing the drawing answers to (what the file wrote kept).
#[derive(Debug)]
pub enum Ref {
    Resolved(String),
    Absent,
    Unresolved(String),
}

impl Ref {
    /// A copy of this reference.
    pub fn duplicate(&self) -> (r: Ref)
        ensures
            r == *self,
    {
        match self {
            Ref::Resolved(s) => Ref::Resolved(s.clone()),
            Ref::Absent => Ref::Absent,
            Ref::Unresolved(s) => Ref::Unresolved(s.clone()),
        }
    }

    /// Whether this reference resolved to `name`.
    pub open spec fn resolves_to(&self, name: Seq<char>) -> bool {
        match self {
            Ref::Resolved(s) => s@ == name,
            _ => false,
        }
    }

    /// Whether this reference resolved to `name`.
    pub fn is_resolved_to(&self, name: &str) -> (r: bool)
        ensures
            r == self.resolves_to(name@),
    {
        match self {
            Ref::Resolved(s) => crate::text::str_eq(s.as_str(), name),
            _ => false,
        }
    }
}

/// A text that stands on the same row as another, to its right: where it
/// is in the drawing's own entity list, and how far to the right it is, as
/// a key that orders the distances as `f64::total_cmp` does.
#[derive(Debug, Clone, Copy, PartialEq, Eq, Structural)]
pub struct RowCandidate {
    pub text: usize,
    pub gap: u64,
}

/// Where a loose text is, for pairing texts by position.
#[derive(Debug)]
pub enum TextPlacement {
    /// Written on a plane facing up or down, so where it is drawn in plan
    /// is measured: the texts on its row to its right, nearest or not.
    Placed(Vec<RowCandidate>),
    /// Written on a plane tilted out of the world's: not placed in plan.
    Tilted,
}

/// A point of the drawing, each coordinate as a key that orders the
/// coordinates as `f64::total_cmp` does.
#[derive(Debug, Clone, Copy, PartialEq, Eq, Structural)]
pub struct PointKey {
    pub x: u64,
    pub y: u64,
}

/// What a dimension measures, as the file states it.
#[derive(Debug, Clone, Copy, PartialEq, Eq, Structural)]
pub enum DimensionKind {
    /// A linear dimension, measured along its rotation.
    Rotated,
    /// Aligned with the two extension line origins.
    Aligned,
    /// The angle between two lines.
    Angular2Line,
    Diameter,
    Radius,
    /// The angle through three points.
    Angular3Point,
    /// A single coordinate from the origin.
    Ordinate,
    /// The length along an arc.
    ArcLength,
}

/// The text a dimension shows, as the file states it.
#[derive(Debug)]
pub enum DimensionText {
    /// The measurement.
    Measured,
    /// No text at all.
    Suppressed,
    /// This instead, written with its codes.
    Literal(String),
}

impl DimensionText {
    /// A copy of this text.
    pub fn duplicate(&self) -> (r: DimensionText)
        ensures
            r == *self,
    {
        match self {
            DimensionText::Measured => DimensionText::Measured,
            DimensionText::Suppressed => DimensionText::Suppressed,
            DimensionText::Literal(s) => DimensionText::Literal(s.clone()),
        }
    }
}

/// An attribute value a block reference carries.
#[derive(Debug)]
pub struct Attrib {
    pub id: u64,
    /// The tag the value answers to.
    pub tag: String,
    /// The value as written, its codes included.
    pub text: String,
    pub confidence: Confidence,
}

/// What the summary and the search read of an entity beyond its common
/// fields.
#[derive(Debug)]
pub enum EntityData {
    /// A TEXT: its string and where it is.
    Text { text: String, placement: TextPlacement },
    /// An INSERT: the block it refers to, the attribute values it carries,
    /// and whether its placement is one a 2D map draws exactly (its plane
    /// faces up or down).
    Insert { block_name: Ref, attribs: Vec<Attrib>, placed: bool },
    /// A DIMENSION, as the file states it: what it measures, the
    /// measurement it recorded (as a key of the kind [`PointKey`] uses),
    /// the text it shows, the middle of that text, and its style.
    Dimension {
        kind: Option<DimensionKind>,
        measurement: Option<u64>,
        shown: DimensionText,
        text_midpoint: PointKey,
        style: Ref,
    },
    /// Anything else.
    Other,
}

/// One entity of the drawing.
#[derive(Debug)]
pub struct DrawingEntity {
    /// The reference ID.
    pub id: u64,
    /// The DXF type name the model reports, e.g. `LINE`.
    pub entity_type: String,
    /// The layer the entity is on.
    pub layer: Ref,
    pub confidence: Confidence,
    /// The file marks the entity invisible.
    pub invisible: bool,
    /// Whether the entity gives its space's extent a point.
    pub extent_point: bool,
    /// The finite points among those, in world coordinates.
    pub reach: Vec<PointKey>,
    pub data: EntityData,
}

/// A layer of the layer table.
#[derive(Debug)]
pub struct Layer {
    pub name: String,
    pub color_index: i16,
}

/// A block definition: the space records and every other block.
#[derive(Debug)]
pub struct BlockDef {
    pub name: String,
    pub entities: Vec<DrawingEntity>,
}

/// A drawing: its top-level entities (model and paper space), its layer
/// table and block definitions -- each in name order, each name once (see
/// [`names_in_order`]) -- and the reader's warnings.
#[derive(Debug)]
pub struct Drawing {
    pub entities: Vec<DrawingEntity>,
    pub layers: Vec<Layer>,
    pub blocks: Vec<BlockDef>,
    pub warnings: Vec<String>,
}

/// The names of a list of blocks, in order.
pub open spec fn block_names(blocks: Seq<BlockDef>) -> Seq<Seq<char>> {
    blocks.map_values(|b: BlockDef| b.name@)
}

/// The names of a list of layers, in order.
pub open spec fn layer_names(layers: Seq<Layer>) -> Seq<Seq<char>> {
    layers.map_values(|l: Layer| l.name@)
}

/// The drawing's layers and blocks each come in name order, each name
/// once, as a table keyed by name gives them.
pub open spec fn names_in_order(d: Drawing) -> bool {
    &&& strictly_sorted(layer_names(d.layers@))
    &&& strictly_sorted(block_names(d.blocks@))
}

/// Whether `names` is strictly sorted, from its neighbours.
fn sorted_names(names: &Vec<&str>) -> (r: bool)
    ensures
        r == strictly_sorted(names@.map_values(|s: &str| s@)),
{
    let ghost v = names@.map_values(|s: &str| s@);
    proof {
        lemma_chars_lt_order();
    }
    let mut i: usize = 1;
    while i < names.len()
        invariant
            1 <= i,
            v == names@.map_values(|s: &str| s@),
            forall|a: Seq<char>, b: Seq<char>, c: Seq<char>| chars_lt(a, b) && chars_lt(b, c) ==> chars_lt(a, c),
            forall|k: int, l: int| 0 <= k < l < i && l < v.len() ==> chars_lt(#[trigger] v[k], #[trigger] v[l]),
        decreases names.len() - i,
    {
        if !str_lt(names[i - 1], names[i]) {
            assert(!chars_lt(v[i - 1], v[i as int]));
            return false;
        }
        assert forall|k: int, l: int| 0 <= k < l < i + 1 && l < v.len() implies chars_lt(#[trigger] v[k], #[trigger] v[l]) by {
            if l == i && k < i - 1 {
                assert(chars_lt(v[k], v[i - 1]));
            }
        }
        i = i + 1;
    }
    true
}

/// Whether the drawing's layers and blocks each come in name order, each
/// name once.
pub fn has_names_in_order(d: &Drawing) -> (r: bool)
    ensures
        r == names_in_order(*d),
{
    let mut layers: Vec<&str> = Vec::new();
    let mut i: usize = 0;
    while i < d.layers.len()
        invariant
            i <= d.layers.len(),
            layers@.map_values(|s: &str| s@) == layer_names(d.layers@).subrange(0, i as int),
        decreases d.layers.len() - i,
    {
        let ghost before = layers@;
        let name = d.layers[i].name.as_str();
        layers.push(name);
        assert(layers@.map_values(|s: &str| s@) =~= before.map_values(|s: &str| s@).push(name@));
        assert(layer_names(d.layers@)[i as int] == name@);
        assert(layers@.map_values(|s: &str| s@) =~= layer_names(d.layers@).subrange(0, i + 1));
        i = i + 1;
    }
    assert(layer_names(d.layers@).subrange(0, d.layers.len() as int) =~= layer_names(d.layers@));
    let mut blocks: Vec<&str> = Vec::new();
    let mut i: usize = 0;
    while i < d.blocks.len()
        invariant
            i <= d.blocks.len(),
            blocks@.map_values(|s: &str| s@) == block_names(d.blocks@).subrange(0, i as int),
        decreases d.blocks.len() - i,
    {
        let ghost before = blocks@;
        let name = d.blocks[i].name.as_str();
        blocks.push(name);
        assert(blocks@.map_values(|s: &str| s@) =~= before.map_values(|s: &str| s@).push(name@));
        assert(block_names(d.blocks@)[i as int] == name@);
        assert(blocks@.map_values(|s: &str| s@) =~= block_names(d.blocks@).subrange(0, i + 1));
        i = i + 1;
    }
    assert(block_names(d.blocks@).subrange(0, d.blocks.len() as int) =~= block_names(d.blocks@));
    sorted_names(&layers) && sorted_names(&blocks)
}

} // verus!

//! Where a drawing is: per space, the box around the points its entities
//! are measured by -- a coordinate range to point into -- and which entity
//! types gave it no point. The points themselves are measured by whoever
//! holds the geometry, and arrive as [`DrawingEntity::reach`] and
//! [`DrawingEntity::extent_point`].

use vstd::prelude::*;
use crate::model::{BlockDef, Drawing, DrawingEntity, PointKey};
use crate::text::{eq_ignore_ascii_case, eq_ignore_case, insert_distinct, str_views, strictly_sorted, upper_has_prefix, upper_starts_with};

verus! {

/// A space of the drawing: model space, or any paper-space sheet, by its
/// block's name, the case of ASCII letters aside.
pub open spec fn is_space_record(name: Seq<char>) -> bool {
    eq_ignore_ascii_case(name, "*Model_Space"@) || upper_starts_with(name, "*PAPER_SPACE"@)
}

/// Whether a block record is a space: model space or a paper-space sheet.
pub fn is_space(name: &str) -> (r: bool)
    ensures
        r == is_space_record(name@),
{
    eq_ignore_case(name, "*Model_Space") || upper_has_prefix(name, "*PAPER_SPACE")
}

/// An axis-aligned box: its least and its greatest coordinates.
#[derive(Debug, Clone, Copy, PartialEq, Eq, Structural)]
pub struct Bounds {
    pub min: PointKey,
    pub max: PointKey,
}

/// The extent of one space of the drawing: model space, or one paper-space
/// sheet -- each has coordinates of its own, so they are never mixed.
#[derive(Debug)]
pub struct SpaceExtent {
    /// The space's block: `*Model_Space`, or a `*Paper_Space` sheet.
    pub space: String,
    /// The box around every finite point the space's entities are measured
    /// by; `None` when there is none.
    pub bounds: Option<Bounds>,
    /// Entity types of this space that gave no point, sorted, each once.
    pub not_measured: Vec<String>,
}

/// The points `entities` are measured by, in order.
pub open spec fn reach_of(entities: Seq<DrawingEntity>) -> Seq<PointKey>
    decreases entities.len(),
{
    if entities.len() == 0 {
        Seq::empty()
    } else {
        reach_of(entities.drop_last()) + entities.last().reach@
    }
}

pub open spec fn key_min(a: u64, b: u64) -> u64 {
    if a <= b {
        a
    } else {
        b
    }
}

pub open spec fn key_max(a: u64, b: u64) -> u64 {
    if a <= b {
        b
    } else {
        a
    }
}

/// `b` grown to hold `p`.
pub open spec fn grown(b: Option<Bounds>, p: PointKey) -> Bounds {
    match b {
        None => Bounds { min: p, max: p },
        Some(b) => Bounds {
            min: PointKey { x: key_min(b.min.x, p.x), y: key_min(b.min.y, p.y) },
            max: PointKey { x: key_max(b.max.x, p.x), y: key_max(b.max.y, p.y) },
        },
    }
}

/// The box around `points`, grown point by point; none for no points.
pub open spec fn bounds_of(points: Seq<PointKey>) -> Option<Bounds>
    decreases points.len(),
{
    if points.len() == 0 {
        None
    } else {
        Some(grown(bounds_of(points.drop_last()), points.last()))
    }
}

/// The box around a set of points holds each of them, and each of its
/// sides touches one: it is the least such box. Only no points have none.
pub proof fn lemma_bounds_hold_every_point(points: Seq<PointKey>)
    ensures
        bounds_of(points) is None <==> points.len() == 0,
        bounds_of(points) matches Some(b) ==> {
            &&& forall|i: int| 0 <= i < points.len() ==> {
                &&& b.min.x <= #[trigger] points[i].x <= b.max.x
                &&& b.min.y <= points[i].y <= b.max.y
            }
            &&& exists|i: int| 0 <= i < points.len() && #[trigger] points[i].x == b.min.x
            &&& exists|i: int| 0 <= i < points.len() && #[trigger] points[i].x == b.max.x
            &&& exists|i: int| 0 <= i < points.len() && #[trigger] points[i].y == b.min.y
            &&& exists|i: int| 0 <= i < points.len() && #[trigger] points[i].y == b.max.y
        },
    decreases points.len(),
{
    if points.len() > 0 {
        let rest = points.drop_last();
        let n = points.len() - 1;
        lemma_bounds_hold_every_point(rest);
        let b = bounds_of(points)->0;
        assert forall|i: int| 0 <= i < points.len() implies {
            &&& b.min.x <= #[trigger] points[i].x <= b.max.x
            &&& b.min.y <= points[i].y <= b.max.y
        } by {
            if i < n {
                assert(points[i] == rest[i]);
            }
        }
        match bounds_of(rest) {
            None => {
                assert(points[n].x == b.min.x);
            },
            Some(r) => {
                if b.min.x == points[n].x {
                    assert(points[n].x == b.min.x);
                } else {
                    let i = choose|i: int| 0 <= i < rest.len() && #[trigger] rest[i].x == r.min.x;
                    assert(points[i].x == b.min.x);
                }
                if b.max.x == points[n].x {
                    assert(points[n].x == b.max.x);
                } else {
                    let i = choose|i: int| 0 <= i < rest.len() && #[trigger] rest[i].x == r.max.x;
                    assert(points[i].x == b.max.x);
                }
                if b.min.y == points[n].y {
                    assert(points[n].y == b.min.y);
                } else {
                    let i = choose|i: int| 0 <= i < rest.len() && #[trigger] rest[i].y == r.min.y;
                    assert(points[i].y == b.min.y);
                }
                if b.max.y == points[n].y {
                    assert(points[n].y == b.max.y);
                } else {
                    let i = choose|i: int| 0 <= i < rest.len() && #[trigger] rest[i].y == r.max.y;
                    assert(points[i].y == b.max.y);
                }
            },
        }
    }
}

fn grow(b: Option<Bounds>, p: PointKey) -> (r: Bounds)
    ensures
        r == grown(b, p),
{
    match b {
        None => Bounds { min: p, max: p },
        Some(b) => Bounds {
            min: PointKey {
                x: if b.min.x <= p.x { b.min.x } else { p.x },
                y: if b.min.y <= p.y { b.min.y } else { p.y },
            },
            max: PointKey {
                x: if b.max.x <= p.x { p.x } else { b.max.x },
                y: if b.max.y <= p.y { p.y } else { b.max.y },
            },
        },
    }
}

/// The box around the points `entities` are measured by.
fn bounds_around(entities: &Vec<DrawingEntity>) -> (r: Option<Bounds>)
    ensures
        r == bounds_of(reach_of(entities@)),
{
    let mut r: Option<Bounds> = None;
    let mut i: usize = 0;
    while i < entities.len()
        invariant
            i <= entities.len(),
            r == bounds_of(reach_of(entities@.subrange(0, i as int))),
        decreases entities.len() - i,
    {
        let ghost before = reach_of(entities@.subrange(0, i as int));
        assert(entities@.subrange(0, i + 1).drop_last() =~= entities@.subrange(0, i as int));
        let reach = &entities[i].reach;
        let mut k: usize = 0;
        while k < reach.len()
            invariant
                k <= reach.len(),
                r == bounds_of(before + reach@.subrange(0, k as int)),
            decreases reach.len() - k,
        {
            assert((before + reach@.subrange(0, k + 1)).drop_last() =~= before + reach@.subrange(0, k as int));
            r = Some(grow(r, reach[k]));
            k = k + 1;
        }
        assert(reach@.subrange(0, reach.len() as int) =~= reach@);
        i = i + 1;
    }
    assert(entities@.subrange(0, entities.len() as int) =~= entities@);
    r
}

/// The types of the entities that gave no point, in order, repeats kept.
pub open spec fn unmeasured_types(entities: Seq<DrawingEntity>) -> Seq<Seq<char>>
    decreases entities.len(),
{
    if entities.len() == 0 {
        Seq::empty()
    } else {
        let e = entities.last();
        unmeasured_types(entities.drop_last()) + if e.extent_point {
            Seq::empty()
        } else {
            seq![e.entity_type@]
        }
    }
}

/// The space blocks of `blocks`, in order.
pub open spec fn space_blocks(blocks: Seq<BlockDef>) -> Seq<BlockDef>
    decreases blocks.len(),
{
    if blocks.len() == 0 {
        Seq::empty()
    } else if is_space_record(blocks.last().name@) {
        space_blocks(blocks.drop_last()).push(blocks.last())
    } else {
        space_blocks(blocks.drop_last())
    }
}

/// `c` is the extent of the space block `b`.
pub open spec fn covers(c: SpaceExtent, b: BlockDef) -> bool {
    let names = c.not_measured@.map_values(|s: String| s@);
    &&& c.space@ == b.name@
    &&& c.bounds == bounds_of(reach_of(b.entities@))
    &&& strictly_sorted(names)
    &&& names.to_set() == unmeasured_types(b.entities@).to_set()
}

fn extent_of(b: &BlockDef) -> (c: SpaceExtent)
    ensures
        covers(c, *b),
{
    let mut types: Vec<&str> = Vec::new();
    let mut i: usize = 0;
    while i < b.entities.len()
        invariant
            i <= b.entities.len(),
            strictly_sorted(str_views(types@)),
            str_views(types@).to_set() == unmeasured_types(b.entities@.subrange(0, i as int)).to_set(),
        decreases b.entities.len() - i,
    {
        let e = &b.entities[i];
        let ghost prefix = b.entities@.subrange(0, i as int);
        let ghost next = b.entities@.subrange(0, i + 1);
        assert(next.drop_last() =~= prefix);
        assert(next.last() == *e);
        if !e.extent_point {
            proof {
                unmeasured_types(prefix).lemma_push_to_set_commute(e.entity_type@);
                assert(unmeasured_types(next) =~= unmeasured_types(prefix).push(e.entity_type@));
            }
            insert_distinct(&mut types, e.entity_type.as_str());
        } else {
            assert(unmeasured_types(next) =~= unmeasured_types(prefix));
        }
        i = i + 1;
    }
    assert(b.entities@.subrange(0, b.entities.len() as int) =~= b.entities@);
    let mut names: Vec<String> = Vec::new();
    let mut k: usize = 0;
    while k < types.len()
        invariant
            k <= types.len(),
            names@.map_values(|s: String| s@) == str_views(types@).subrange(0, k as int),
        decreases types.len() - k,
    {
        let ghost old_names = names@;
        let name = String::from_str(types[k]);
        names.push(name);
        assert(names@.map_values(|s: String| s@) =~= old_names.map_values(|s: String| s@).push(name@));
        assert(names@.map_values(|s: String| s@) =~= str_views(types@).subrange(0, k + 1));
        k = k + 1;
    }
    assert(str_views(types@).subrange(0, types.len() as int) =~= str_views(types@));
    SpaceExtent { space: b.name.clone(), bounds: bounds_around(&b.entities), not_measured: names }
}

/// Every space of `d` -- model space and each paper-space sheet, each on
/// its own -- in block-name order, with the box around the points its
/// entities are measured by and the entity types that gave it no point.
pub fn space_extents(d: &Drawing) -> (r: Vec<SpaceExtent>)
    ensures
        r.len() == space_blocks(d.blocks@).len(),
        forall|k: int| 0 <= k < r.len() ==> covers(#[trigger] r[k], space_blocks(d.blocks@)[k]),
{
    let mut r: Vec<SpaceExtent> = Vec::new();
    let mut k: usize = 0;
    while k < d.blocks.len()
        invariant
            k <= d.blocks.len(),
            r.len() == space_blocks(d.blocks@.subrange(0, k as int)).len(),
            forall|j: int| 0 <= j < r.len() ==> covers(
                #[trigger] r[j],
                space_blocks(d.blocks@.subrange(0, k as int))[j],
            ),
        decreases d.blocks.len() - k,
    {
        let ghost prev = space_blocks(d.blocks@.subrange(0, k as int));
        assert(d.blocks@.subrange(0, k + 1).drop_last() =~= d.blocks@.subrange(0, k as int));
        let b = &d.blocks[k];
        if is_space(b.name.as_str()) {
            r.push(extent_of(b));
            assert forall|j: int| 0 <= j < r.len() implies covers(
                #[trigger] r[j],
                space_blocks(d.blocks@.subrange(0, k + 1))[j],
            ) by {
                if j < r.len() - 1 {
                    assert(space_blocks(d.blocks@.subrange(0, k + 1))[j] == prev[j]);
                }
            }
        }
        k = k + 1;
    }
    assert(d.blocks@.subrange(0, d.blocks.len() as int) =~= d.blocks@);
    r
}

} // verus!

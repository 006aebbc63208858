use iron_scout_cad::hit_test::{
    assemble_hits, place_of_dimension, search_steps, EntityAt, NotSearched, NotSearchedReason, Outcome, Owner, Place,
    SearchStep, Visit, BLOCK_REF_BUDGET, MAX_BLOCK_REF_DEPTH,
};
use iron_scout_cad::model::{BlockDef, Confidence, Drawing, DrawingEntity, EntityData, Ref};

fn entity(id: u64, entity_type: &str, data: EntityData) -> DrawingEntity {
    DrawingEntity {
        id,
        entity_type: entity_type.to_string(),
        layer: Ref::Absent,
        confidence: Confidence::High,
        invisible: false,
        extent_point: true,
        reach: vec![],
        data,
    }
}

fn line(id: u64) -> DrawingEntity {
    entity(id, "LINE", EntityData::Other)
}

fn insert(id: u64, block_name: Ref, placed: bool) -> DrawingEntity {
    entity(id, "INSERT", EntityData::Insert { block_name, attribs: vec![], placed })
}

fn to(block: &str) -> Ref {
    Ref::Resolved(block.to_string())
}

fn drawing(entities: Vec<DrawingEntity>, blocks: Vec<BlockDef>) -> Drawing {
    Drawing { entities, layers: vec![], blocks, warnings: vec![] }
}

fn visits(steps: &[SearchStep]) -> Vec<(u64, Vec<u64>, bool)> {
    steps
        .iter()
        .filter_map(|s| match s {
            SearchStep::Visit(v) => Some((v.id, v.via.clone(), v.invisible)),
            _ => None,
        })
        .collect()
}

fn skipped(steps: &[SearchStep]) -> Vec<(u64, Vec<u64>, NotSearchedReason)> {
    steps
        .iter()
        .filter_map(|s| match s {
            SearchStep::NotSearched(n) => Some((n.id, n.via.clone(), n.reason)),
            _ => None,
        })
        .collect()
}

/// Three blocks deep: the drawing's INSERT 1 places A, whose INSERT 2
/// places B, whose INSERT 3 places C, which holds LINE 4.
fn three_deep() -> Drawing {
    drawing(
        vec![insert(1, to("A"), true)],
        vec![
            BlockDef { name: "A".to_string(), entities: vec![insert(2, to("B"), true)] },
            BlockDef { name: "B".to_string(), entities: vec![insert(3, to("C"), true)] },
            BlockDef { name: "C".to_string(), entities: vec![line(4)] },
        ],
    )
}

#[test]
fn a_line_three_blocks_deep_is_hit_where_the_composed_placement_draws_it() {
    let steps = search_steps(&three_deep());
    assert_eq!(
        visits(&steps),
        [
            (1, vec![], false),
            (2, vec![1], false),
            (3, vec![1, 2], false),
            (4, vec![1, 2, 3], false),
        ]
    );
    let SearchStep::Visit(v) = &steps[3] else { panic!("a visit") };
    assert_eq!(v.at, EntityAt { owner: Owner::Block(2), index: 0 });
    assert_eq!(
        v.through,
        [
            EntityAt { owner: Owner::Drawing, index: 0 },
            EntityAt { owner: Owner::Block(0), index: 0 },
            EntityAt { owner: Owner::Block(1), index: 0 },
        ]
    );
    assert!(skipped(&steps).is_empty());
}

#[test]
fn a_reference_to_no_block_is_reported_not_skipped() {
    let d = drawing(
        vec![
            insert(1, Ref::Absent, true),
            insert(2, Ref::Unresolved("2A".to_string()), true),
            insert(3, to("NOWHERE"), true),
            insert(4, to("A"), false),
        ],
        vec![BlockDef { name: "A".to_string(), entities: vec![line(5)] }],
    );
    let steps = search_steps(&d);
    assert_eq!(
        skipped(&steps),
        [
            (1, vec![], NotSearchedReason::BlockReferenceAbsent),
            (2, vec![], NotSearchedReason::BlockReferenceUnresolved),
            (3, vec![], NotSearchedReason::BlockUndefined),
            (4, vec![], NotSearchedReason::NonSimilarPlacement),
        ]
    );
    assert!(steps.iter().all(|s| match s {
        SearchStep::NotSearched(n) => n.entity_type == "INSERT",
        _ => true,
    }));
    assert_eq!(visits(&steps).len(), 4, "the references themselves are visited");
}

#[test]
fn a_block_that_references_itself_ends_with_the_depth_reported() {
    let d = drawing(
        vec![insert(1, to("LOOP"), true)],
        vec![BlockDef { name: "LOOP".to_string(), entities: vec![insert(2, to("LOOP"), true)] }],
    );
    let steps = search_steps(&d);
    let deep = skipped(&steps);
    assert_eq!(deep.len(), 1);
    assert_eq!(deep[0].0, 2);
    assert_eq!(deep[0].1.len(), MAX_BLOCK_REF_DEPTH);
    assert_eq!(deep[0].2, NotSearchedReason::NestingTooDeep);
    assert_eq!(visits(&steps).len(), MAX_BLOCK_REF_DEPTH + 1);
    assert_eq!(BLOCK_REF_BUDGET, 1_000_000);
}

#[test]
fn a_hidden_reference_hides_everything_it_draws() {
    let mut d = three_deep();
    d.blocks[0].entities[0].invisible = true;
    let v = visits(&search_steps(&d));
    assert_eq!(v.iter().map(|x| x.2).collect::<Vec<_>>(), [false, true, true, true]);
}

#[test]
fn every_top_level_entity_is_visited_in_order() {
    let d = drawing(vec![line(7), line(5), line(6)], vec![]);
    let v: Vec<u64> = visits(&search_steps(&d)).into_iter().map(|x| x.0).collect();
    assert_eq!(v, [7, 5, 6]);
}

fn visit(id: u64, entity_type: &str, via: Vec<u64>) -> Visit {
    Visit {
        at: EntityAt { owner: Owner::Drawing, index: 0 },
        through: vec![],
        id,
        entity_type: entity_type.to_string(),
        confidence: Confidence::High,
        invisible: false,
        via,
        space: Some("*Model_Space".to_string()),
    }
}

#[test]
fn two_coincident_lines_are_two_hits_neither_preferred() {
    let outcomes = vec![
        Outcome::Measured(visit(9, "LINE", vec![]), Place::Geometry { inside: false, distance: 5, bound: None }),
        Outcome::Measured(visit(8, "LINE", vec![]), Place::Geometry { inside: false, distance: 5, bound: None }),
    ];
    let t = assemble_hits(&outcomes, 5);
    let ids: Vec<u64> = t.hits.iter().map(|h| h.id).collect();
    assert_eq!(ids, [8, 9], "both lines, by reference ID");
}

#[test]
fn hits_are_nearest_first_then_by_id_then_by_chain() {
    let outcomes = vec![
        Outcome::Measured(visit(3, "LINE", vec![7]), Place::Geometry { inside: false, distance: 10, bound: None }),
        Outcome::Measured(visit(3, "LINE", vec![6]), Place::Geometry { inside: false, distance: 10, bound: None }),
        Outcome::Measured(visit(1, "TEXT", vec![]), Place::Anchor { distance: 20 }),
        Outcome::Measured(visit(2, "LINE", vec![]), Place::Geometry { inside: false, distance: 2, bound: None }),
        Outcome::Measured(visit(4, "LINE", vec![]), Place::Geometry { inside: false, distance: 99, bound: None }),
        Outcome::Measured(visit(5, "TEXT", vec![]), Place::Anchor { distance: 99 }),
    ];
    let t = assemble_hits(&outcomes, 50);
    let hits: Vec<(u64, Vec<u64>, bool)> = t.hits.iter().map(|h| (h.id, h.via.clone(), h.anchored)).collect();
    assert_eq!(hits, [(2, vec![], false), (3, vec![6], false), (3, vec![7], false), (1, vec![], true)]);
    assert!(t.enclosing.is_empty());
}

#[test]
fn a_point_inside_a_hole_is_enclosed_by_it_not_on_it() {
    let outcomes = vec![
        Outcome::Measured(visit(296, "CIRCLE", vec![]), Place::Geometry { inside: true, distance: 40, bound: None }),
        Outcome::Measured(visit(295, "LWPOLYLINE", vec![]), Place::Geometry { inside: true, distance: 80, bound: None }),
        Outcome::Measured(visit(297, "CIRCLE", vec![]), Place::Geometry { inside: true, distance: 0, bound: None }),
    ];
    let t = assemble_hits(&outcomes, 10);
    let enclosing: Vec<u64> = t.enclosing.iter().map(|h| h.id).collect();
    assert_eq!(enclosing, [295, 296]);
    let hits: Vec<u64> = t.hits.iter().map(|h| h.id).collect();
    assert_eq!(hits, [297], "on the edge: a hit, not merely enclosing");
}

#[test]
fn unsupported_types_are_named_once_and_sorted() {
    let outcomes = vec![
        Outcome::Measured(visit(1, "HATCH", vec![]), Place::Unsupported),
        Outcome::Measured(visit(2, "3DSOLID", vec![]), Place::Unsupported),
        Outcome::Measured(visit(3, "HATCH", vec![]), Place::Unsupported),
    ];
    let t = assemble_hits(&outcomes, 0);
    assert_eq!(t.unsupported, ["3DSOLID", "HATCH"]);
    assert!(t.hits.is_empty());
}

#[test]
fn what_was_not_searched_is_listed_by_id_then_chain() {
    let outcomes = vec![
        Outcome::NotSearched(NotSearched {
            id: 5,
            entity_type: "INSERT".to_string(),
            space: None,
            via: vec![],
            reason: NotSearchedReason::BlockUndefined,
        }),
        Outcome::Measured(visit(4, "CIRCLE", vec![9]), Place::NotSearched(NotSearchedReason::NonSimilarPlacement)),
    ];
    let t = assemble_hits(&outcomes, 0);
    let ns: Vec<(u64, NotSearchedReason)> = t.not_searched.iter().map(|n| (n.id, n.reason)).collect();
    assert_eq!(ns, [(4, NotSearchedReason::NonSimilarPlacement), (5, NotSearchedReason::BlockUndefined)]);
    assert_eq!(t.not_searched[0].via, [9]);
    assert_eq!(t.not_searched[0].entity_type, "CIRCLE");
}

#[test]
fn a_hidden_entity_is_still_hit_and_says_it_is_hidden() {
    let mut v = visit(1, "LINE", vec![]);
    v.invisible = true;
    let t = assemble_hits(&vec![Outcome::Measured(v, Place::Geometry { inside: false, distance: 0, bound: None })], 0);
    assert_eq!(t.hits.len(), 1);
    assert!(t.hits[0].invisible);
}

#[test]
fn a_curve_measured_through_chords_says_how_closely() {
    let outcomes = vec![
        Outcome::Measured(visit(1, "ELLIPSE", vec![]), Place::Geometry { inside: false, distance: 3, bound: Some(4) }),
        Outcome::Measured(visit(2, "LINE", vec![]), Place::Geometry { inside: false, distance: 5, bound: None }),
    ];
    let t = assemble_hits(&outcomes, 10);
    let hits: Vec<(u64, Option<u64>)> = t.hits.iter().map(|h| (h.id, h.within)).collect();
    assert_eq!(hits, [(1, Some(4)), (2, None)]);
}

#[test]
fn each_hit_names_the_space_it_is_in() {
    let d = Drawing {
        entities: vec![line(1), line(2), insert(3, to("B"), true), line(4)],
        layers: vec![],
        blocks: vec![
            BlockDef { name: "*Model_Space".to_string(), entities: vec![line(1), insert(3, to("B"), true)] },
            BlockDef { name: "*Paper_Space".to_string(), entities: vec![line(2)] },
            BlockDef { name: "B".to_string(), entities: vec![line(9)] },
        ],
        warnings: vec![],
    };
    let steps = search_steps(&d);
    let spaces: Vec<(u64, Option<String>)> = steps
        .iter()
        .filter_map(|s| match s {
            SearchStep::Visit(v) => Some((v.id, v.space.clone())),
            SearchStep::NotSearched(_) => None,
        })
        .collect();
    let model_space = Some("*Model_Space".to_string());
    assert_eq!(
        spaces,
        [
            (1, model_space.clone()),
            (2, Some("*Paper_Space".to_string())),
            (3, model_space.clone()),
            (9, model_space.clone()),
            (4, None),
        ],
        "what a reference draws is in the reference's space; an entity no space lists is in none"
    );
}

#[test]
fn a_hit_is_within_the_tolerance_and_a_wider_one_loses_none() {
    let outcomes = vec![
        Outcome::Measured(visit(1, "LINE", vec![]), Place::Geometry { inside: false, distance: 10, bound: None }),
        Outcome::Measured(visit(2, "LINE", vec![]), Place::Geometry { inside: false, distance: 11, bound: None }),
        Outcome::Measured(visit(3, "TEXT", vec![]), Place::Anchor { distance: 12 }),
        Outcome::Measured(visit(4, "CIRCLE", vec![]), Place::Geometry { inside: true, distance: 13, bound: None }),
        Outcome::Measured(visit(5, "HATCH", vec![]), Place::Unsupported),
    ];
    let ids = |tol: u64| -> (Vec<u64>, Vec<u64>) {
        let t = assemble_hits(&outcomes, tol);
        (t.hits.iter().map(|h| h.id).collect(), t.enclosing.iter().map(|h| h.id).collect())
    };
    assert_eq!(ids(9), (vec![], vec![4]));
    assert_eq!(ids(10), (vec![1], vec![4]), "a distance equal to the tolerance is within it");
    assert_eq!(ids(12), (vec![1, 2, 3], vec![4]));
    assert_eq!(ids(13), (vec![1, 2, 3, 4], vec![]), "on its boundary: a hit, not merely enclosing");
    assert_eq!(assemble_hits(&outcomes, 0).unsupported, assemble_hits(&outcomes, 99).unsupported);
}

#[test]
fn a_dimension_is_as_near_as_the_middle_of_its_text() {
    // Its text 0 away, its block's line 5: an anchor at 0.
    assert_eq!(place_of_dimension(0, &vec![(5, false)], Some(7)), Place::Anchor { distance: 0 });
    // At equal distance the drawn geometry wins over an anchor.
    assert_eq!(
        place_of_dimension(4, &vec![(6, true), (4, false)], None),
        Place::Geometry { inside: false, distance: 4, bound: None }
    );
    // The point it was built on is an anchor, and only a nearer one counts.
    assert_eq!(place_of_dimension(9, &vec![(8, false)], Some(3)), Place::Anchor { distance: 3 });
    assert_eq!(
        place_of_dimension(9, &vec![(3, false)], Some(3)),
        Place::Geometry { inside: false, distance: 3, bound: None }
    );
}

#[test]
fn repeated_hit_tests_are_byte_identical() {
    let d = three_deep();
    let answer = || {
        let outcomes: Vec<Outcome> = search_steps(&d)
            .into_iter()
            .map(|step| match step {
                SearchStep::Visit(v) => Outcome::Measured(v, Place::Geometry { inside: false, distance: 0, bound: None }),
                SearchStep::NotSearched(n) => Outcome::NotSearched(n),
            })
            .collect();
        format!("{:?}", assemble_hits(&outcomes, 5))
    };
    let first = answer();
    for _ in 1..24 {
        assert_eq!(answer(), first);
    }
}

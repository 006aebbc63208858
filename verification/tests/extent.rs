use iron_scout_cad::extent::{is_space, space_extents, Bounds};
use iron_scout_cad::model::{BlockDef, Confidence, Drawing, DrawingEntity, EntityData, PointKey, Ref};

fn entity(id: u64, entity_type: &str, measured: bool) -> DrawingEntity {
    DrawingEntity {
        id,
        entity_type: entity_type.to_string(),
        layer: Ref::Absent,
        confidence: Confidence::High,
        invisible: false,
        extent_point: measured,
        reach: vec![],
        data: EntityData::Other,
    }
}

#[test]
fn each_space_says_what_it_did_not_measure() {
    let d = Drawing {
        entities: vec![],
        layers: vec![],
        blocks: vec![
            BlockDef {
                name: "*Model_Space".to_string(),
                entities: vec![entity(1, "LINE", true), entity(2, "HATCH", false), entity(3, "3DSOLID", false), entity(4, "HATCH", false)],
            },
            BlockDef { name: "*Paper_Space".to_string(), entities: vec![entity(5, "VIEWPORT", true)] },
            BlockDef { name: "*Paper_Space0".to_string(), entities: vec![] },
            BlockDef { name: "TITLEBLOCK".to_string(), entities: vec![entity(6, "HATCH", false)] },
        ],
        warnings: vec![],
    };
    let c = space_extents(&d);
    let spaces: Vec<&str> = c.iter().map(|s| s.space.as_str()).collect();
    assert_eq!(spaces, ["*Model_Space", "*Paper_Space", "*Paper_Space0"]);
    assert_eq!(c[0].not_measured, ["3DSOLID", "HATCH"]);
    assert!(c[1].not_measured.is_empty());
}

#[test]
fn any_paper_space_sheet_is_a_space() {
    assert!(is_space("*Model_Space"));
    assert!(is_space("*model_space"));
    assert!(is_space("*Paper_Space"));
    assert!(is_space("*paper_space12"));
    assert!(!is_space("*Paper_Spac"));
    assert!(!is_space("TITLEBLOCK"));
}

fn at(id: u64, points: &[(u64, u64)]) -> DrawingEntity {
    let mut e = entity(id, "LINE", true);
    e.reach = points.iter().map(|&(x, y)| PointKey { x, y }).collect();
    e
}

#[test]
fn the_box_is_around_each_spaces_own_points() {
    let d = Drawing {
        entities: vec![],
        layers: vec![],
        blocks: vec![
            BlockDef { name: "*Model_Space".to_string(), entities: vec![at(1, &[(10, 40), (12, 30)]), at(2, &[(7, 50)])] },
            BlockDef { name: "*Paper_Space".to_string(), entities: vec![at(3, &[(1, 2)])] },
            BlockDef { name: "*Paper_Space1".to_string(), entities: vec![entity(4, "HATCH", false)] },
            BlockDef { name: "TITLEBLOCK".to_string(), entities: vec![at(5, &[(0, 0)])] },
        ],
        warnings: vec![],
    };
    let e = space_extents(&d);
    assert_eq!(e.len(), 3);
    assert_eq!(e[0].bounds, Some(Bounds { min: PointKey { x: 7, y: 30 }, max: PointKey { x: 12, y: 50 } }));
    assert_eq!(e[1].bounds, Some(Bounds { min: PointKey { x: 1, y: 2 }, max: PointKey { x: 1, y: 2 } }));
    assert_eq!(e[2].bounds, None, "no point, no box");
    assert_eq!(e[2].not_measured, ["HATCH"]);
}

/// The key a coordinate is ordered by, as `f64::total_cmp` orders them.
fn key(x: f64) -> u64 {
    let bits = x.to_bits();
    if bits >> 63 == 1 {
        !bits
    } else {
        bits | (1 << 63)
    }
}

fn line_at(id: u64, x: f64) -> DrawingEntity {
    let mut e = entity(id, "LINE", true);
    e.reach = vec![PointKey { x: key(x), y: key(0.0) }, PointKey { x: key(x + 1.0), y: key(2.0) }];
    e
}

#[test]
fn each_space_has_its_own_extent_and_says_what_it_did_not_measure() {
    let d = Drawing {
        entities: vec![],
        layers: vec![],
        blocks: vec![
            BlockDef { name: "*Model_Space".to_string(), entities: vec![line_at(1, 1000.0), entity(3, "SPLINE", false)] },
            BlockDef { name: "*Paper_Space".to_string(), entities: vec![line_at(2, 0.0)] },
        ],
        warnings: vec![],
    };
    let extents = space_extents(&d);
    let names: Vec<&str> = extents.iter().map(|e| e.space.as_str()).collect();
    assert_eq!(names, ["*Model_Space", "*Paper_Space"]);
    assert_eq!(
        extents[0].bounds,
        Some(Bounds { min: PointKey { x: key(1000.0), y: key(0.0) }, max: PointKey { x: key(1001.0), y: key(2.0) } })
    );
    assert_eq!(extents[0].not_measured, ["SPLINE"]);
    assert_eq!(
        extents[1].bounds,
        Some(Bounds { min: PointKey { x: key(0.0), y: key(0.0) }, max: PointKey { x: key(1.0), y: key(2.0) } })
    );
    assert!(extents[1].not_measured.is_empty());
}

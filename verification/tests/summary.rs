use iron_scout_cad::model::{
    Attrib, BlockDef, Confidence, DimensionKind, DimensionText, Drawing, DrawingEntity, EntityData,
    Layer, PointKey, Ref, RowCandidate, TextPlacement,
};
use iron_scout_cad::hit_test::{assemble_hits, place_of_dimension, search_steps, Outcome, Place, SearchStep};
use iron_scout_cad::summary::{is_space, lookup, summarize, Lookup, TextRef};

fn entity(id: u64, entity_type: &str, layer: &str, data: EntityData) -> DrawingEntity {
    DrawingEntity {
        id,
        entity_type: entity_type.to_string(),
        layer: Ref::Resolved(layer.to_string()),
        confidence: Confidence::High,
        invisible: false,
        extent_point: true,
        reach: vec![],
        data,
    }
}

fn other(id: u64, entity_type: &str, layer: &str) -> DrawingEntity {
    entity(id, entity_type, layer, EntityData::Other)
}

fn text(id: u64, s: &str, row: Vec<(usize, u64)>) -> DrawingEntity {
    let row = row
        .into_iter()
        .map(|(text, gap)| RowCandidate { text, gap })
        .collect();
    entity(
        id,
        "TEXT",
        "TITLE",
        EntityData::Text { text: s.to_string(), placement: TextPlacement::Placed(row) },
    )
}

fn attrib(id: u64, tag: &str, value: &str) -> Attrib {
    Attrib { id, tag: tag.to_string(), text: value.to_string(), confidence: Confidence::High }
}

fn insert(id: u64, block: &str, attribs: Vec<Attrib>) -> DrawingEntity {
    entity(
        id,
        "INSERT",
        "TITLE",
        EntityData::Insert { block_name: Ref::Resolved(block.to_string()), attribs, placed: true },
    )
}

fn block(name: &str, n: usize) -> BlockDef {
    BlockDef { name: name.to_string(), entities: (0..n).map(|i| other(1000 + i as u64, "LINE", "0")).collect() }
}

fn layer(name: &str, color_index: i16) -> Layer {
    Layer { name: name.to_string(), color_index }
}

/// A general part with a title block (G1): an outline, four holes, one
/// title block reference with three attribute values (listed at the top
/// level too), and four dimensions.
fn g1() -> Drawing {
    let mut entities = vec![
        other(10, "LWPOLYLINE", "OUTLINE"),
        other(11, "CIRCLE", "HOLES"),
        other(12, "CIRCLE", "HOLES"),
        other(13, "CIRCLE", "HOLES"),
        other(14, "CIRCLE", "HOLES"),
        insert(
            20,
            "TITLEBLOCK",
            vec![attrib(23, "MATERIAL", "SS400"), attrib(21, "DWGNO", "BP-1042"), attrib(22, "REV", "B")],
        ),
    ];
    for (id, tag) in [(21, "ATTRIB"), (22, "ATTRIB"), (23, "ATTRIB")] {
        entities.push(other(id, tag, "TITLE"));
    }
    for id in 30..34 {
        entities.push(dimension(id, Some(DimensionKind::Rotated), None, DimensionText::Measured));
    }
    Drawing {
        entities,
        layers: vec![layer("0", 7), layer("DIMS", 3), layer("HOLES", 1), layer("OUTLINE", 7), layer("TITLE", 2)],
        blocks: vec![
            block("*D1", 4),
            block("*D2", 4),
            block("*D3", 4),
            block("*D4", 2),
            block("*Model_Space", 13),
            block("*Paper_Space", 0),
            block("TITLEBLOCK", 4),
        ],
        warnings: vec![],
    }
}

/// The same title block twice, with two drawing numbers (G9).
fn g9() -> Drawing {
    Drawing {
        entities: vec![
            insert(20, "TITLEBLOCK", vec![attrib(21, "DWGNO", "BP-1042")]),
            insert(30, "TITLEBLOCK", vec![attrib(31, "DWGNO", "BP-2077")]),
        ],
        layers: vec![layer("TITLE", 2)],
        blocks: vec![block("TITLEBLOCK", 2)],
        warnings: vec![],
    }
}

/// Loose texts in three rows: label, then value to its right.
fn loose_title_block() -> Drawing {
    // 0 "DWG NO" -> 1 "BP-1042"; 2 "REV" -> 3 "B"; 4 "MATERIAL" -> 5 "SS400"
    Drawing {
        entities: vec![
            text(100, "DWG NO", vec![(1, 40)]),
            text(101, "BP-1042", vec![]),
            text(102, "REV", vec![(3, 40)]),
            text(103, "B", vec![]),
            text(104, "MATERIAL", vec![(5, 40)]),
            text(105, "SS400", vec![]),
        ],
        layers: vec![layer("TITLE", 2)],
        blocks: vec![],
        warnings: vec!["W1".to_string()],
    }
}

#[test]
fn g1_counts_what_the_spec_says_it_contains() {
    let s = summarize(&g1());
    assert_eq!(s.entity_count, 13);
    let by_type: Vec<(&str, usize)> =
        s.by_type.iter().map(|c| (c.entity_type.as_str(), c.count)).collect();
    assert_eq!(
        by_type,
        [("ATTRIB", 3), ("CIRCLE", 4), ("DIMENSION", 4), ("INSERT", 1), ("LWPOLYLINE", 1)]
    );
    let layers: Vec<(&str, i16, usize)> =
        s.layers.iter().map(|l| (l.name.as_str(), l.color_index, l.entity_count)).collect();
    assert_eq!(
        layers,
        [("0", 7, 0), ("DIMS", 3, 4), ("HOLES", 1, 4), ("OUTLINE", 7, 1), ("TITLE", 2, 4)]
    );
    let blocks: Vec<(&str, usize, usize)> =
        s.blocks.iter().map(|b| (b.name.as_str(), b.entity_count, b.insert_count)).collect();
    assert_eq!(
        blocks,
        [("*D1", 4, 0), ("*D2", 4, 0), ("*D3", 4, 0), ("*D4", 2, 0), ("TITLEBLOCK", 4, 1)]
    );
    assert_eq!(s.confidence, Confidence::High);
    assert!(s.warnings.is_empty());
}

#[test]
fn g1_title_block_values_are_read_by_tag() {
    let s = summarize(&g1());
    let values: Vec<(&str, &str)> = s.attributes.iter().map(|a| (a.tag.as_str(), a.value.as_str())).collect();
    assert_eq!(values, [("DWGNO", "BP-1042"), ("REV", "B"), ("MATERIAL", "SS400")]);
    assert!(matches!(&s.attributes[0].block, Ref::Resolved(b) if b == "TITLEBLOCK"));
    assert_eq!(s.attributes[0].insert, 20);
    assert_eq!(s.attribute("DWGNO"), Lookup::Unique("BP-1042"));
    assert_eq!(s.attribute("REV"), Lookup::Unique("B"));
    assert_eq!(s.attribute("SCALE"), Lookup::Absent);
    assert!(s.labelled_texts.is_empty(), "no loose texts in G1");
}

#[test]
fn g9_two_drawing_numbers_are_ambiguous_not_a_pick() {
    let s = summarize(&g9());
    assert_eq!(s.attributes.len(), 2);
    assert_eq!(s.attribute("DWGNO"), Lookup::Ambiguous(vec!["BP-1042", "BP-2077"]));
    let title = s.blocks.iter().find(|b| b.name == "TITLEBLOCK").unwrap();
    assert_eq!(title.insert_count, 2);
}

#[test]
fn g7_loose_texts_pair_up_by_position() {
    let s = summarize(&loose_title_block());
    assert!(s.attributes.is_empty(), "no block attributes in G7");
    let pairs: Vec<(&str, &str)> =
        s.labelled_texts.iter().map(|l| (l.label.text.as_str(), l.value.text.as_str())).collect();
    assert_eq!(pairs, [("DWG NO", "BP-1042"), ("REV", "B"), ("MATERIAL", "SS400")]);
    assert_eq!(s.labelled("DWG NO"), Lookup::Unique("BP-1042"));
    assert_eq!(s.labelled("SS400"), Lookup::Absent, "a value is not a label");
    assert_eq!(s.warnings, ["W1"]);
}

#[test]
fn only_the_nearest_text_to_the_right_is_the_value() {
    let mut d = loose_title_block();
    // "BP-1042" at 40 and "REV" at 90 both stand to the right of "DWG NO".
    d.entities[0] = text(100, "DWG NO", vec![(2, 90), (1, 40)]);
    let s = summarize(&d);
    assert_eq!(s.labelled("DWG NO"), Lookup::Unique("BP-1042"));
}

#[test]
fn two_texts_at_the_same_nearest_distance_are_both_listed_and_the_lookup_is_ambiguous() {
    let mut d = loose_title_block();
    d.entities.push(text(9000, "BP-2077", vec![]));
    d.entities[0] = text(100, "DWG NO", vec![(6, 40), (1, 40)]);
    let s = summarize(&d);
    let dwg_no: Vec<&str> = s
        .labelled_texts
        .iter()
        .filter(|l| l.label.text == "DWG NO")
        .map(|l| l.value.text.as_str())
        .collect();
    assert_eq!(dwg_no, ["BP-1042", "BP-2077"], "listed once per candidate, by ID");
    assert_eq!(s.labelled("DWG NO"), Lookup::Ambiguous(vec!["BP-1042", "BP-2077"]));
    assert_eq!(s.labelled("REV"), Lookup::Unique("B"));
}

#[test]
fn the_same_text_drawn_twice_is_still_one_value() {
    let mut d = loose_title_block();
    d.entities.push(text(9000, "BP-1042", vec![]));
    d.entities[0] = text(100, "DWG NO", vec![(1, 40), (6, 40)]);
    let s = summarize(&d);
    assert_eq!(s.labelled("DWG NO"), Lookup::Unique("BP-1042"));
    assert_eq!(s.labelled_texts.iter().filter(|l| l.label.text == "DWG NO").count(), 2);
}

#[test]
fn a_text_on_a_tilted_plane_is_listed_as_unplaced_not_paired() {
    assert!(summarize(&loose_title_block()).unplaced_texts.is_empty());
    let mut d = loose_title_block();
    d.entities[1].data = EntityData::Text { text: "BP-1042".to_string(), placement: TextPlacement::Tilted };
    let s = summarize(&d);
    let ids: Vec<u64> = s.unplaced_texts.iter().map(|t| t.id).collect();
    assert_eq!(ids, [101]);
    assert_eq!(s.unplaced_texts[0].plain, "BP-1042");
    assert!(s.labelled_texts.iter().all(|l| l.value.text != "BP-1042" && l.label.text != "BP-1042"));
    assert_eq!(s.labelled("DWG NO"), Lookup::Absent);
}

#[test]
fn a_text_is_not_its_own_value() {
    let mut d = loose_title_block();
    d.entities[0] = text(100, "DWG NO", vec![(0, 0)]);
    let s = summarize(&d);
    assert_eq!(s.labelled("DWG NO"), Lookup::Absent);
}

#[test]
fn labels_are_matched_and_values_returned_as_plain_text() {
    let mut d = loose_title_block();
    d.entities[0] = text(100, "%%uDWG NO", vec![(1, 40)]);
    d.entities[1] = text(101, "%%c32", vec![]);
    let s = summarize(&d);
    assert_eq!(s.labelled("DWG NO"), Lookup::Unique("\u{2300}32"));
    assert_eq!(s.labelled("%%uDWG NO"), Lookup::Absent);
    let pair = s.labelled_texts.iter().find(|l| l.label.plain == "DWG NO").expect("the pair");
    assert_eq!(pair.label.text, "%%uDWG NO");
    assert_eq!(pair.value.text, "%%c32");
}

#[test]
fn a_low_confidence_entity_lowers_the_summary_and_its_own_pair_only() {
    let mut d = loose_title_block();
    d.entities[1].confidence = Confidence::Low;
    let s = summarize(&d);
    assert_eq!(s.confidence, Confidence::Low);
    for p in &s.labelled_texts {
        let expected = if p.value.id == 101 { Confidence::Low } else { Confidence::High };
        assert_eq!(p.confidence, expected);
    }
    d.entities[0].confidence = Confidence::Unknown;
    let s = summarize(&d);
    assert_eq!(s.confidence, Confidence::Unknown);
    assert_eq!(s.labelled_texts[0].confidence, Confidence::Unknown);
}

#[test]
fn an_attribute_is_trusted_no_more_than_its_reference() {
    let mut d = g1();
    d.entities[5].confidence = Confidence::Low;
    let s = summarize(&d);
    assert!(s.attributes.iter().all(|a| a.confidence == Confidence::Low));
    assert_eq!(s.confidence, Confidence::Low);
}

#[test]
fn an_empty_drawing_is_high_confidence_and_empty() {
    let s = summarize(&Drawing { entities: vec![], layers: vec![], blocks: vec![], warnings: vec![] });
    assert_eq!(s.entity_count, 0);
    assert!(s.by_type.is_empty());
    assert_eq!(s.confidence, Confidence::High);
}

/// A title block in Korean (G8), and a lone loose text with nothing beside it.
fn g8() -> Drawing {
    let material = "SS400 \u{C77C}\u{BC18}\u{AD6C}\u{C870}\u{C6A9} \u{C555}\u{C5F0}\u{AC15}\u{C7AC}";
    Drawing {
        entities: vec![
            insert(
                20,
                "TITLEBLOCK",
                vec![
                    attrib(21, "DWGNO", "BP-1042"),
                    attrib(22, "MATERIAL", material),
                    attrib(23, "DRAWN", "\u{D64D}\u{AE38}\u{B3D9}"),
                ],
            ),
            text(30, "\u{D45C}\u{C81C}\u{B780}", vec![]),
        ],
        layers: vec![layer("0", 7), layer("\u{C678}\u{D615}\u{C120}", 7), layer("\u{D45C}\u{C81C}\u{B780}", 2)],
        blocks: vec![block("TITLEBLOCK", 3)],
        warnings: vec![],
    }
}

#[test]
fn g8_korean_title_block_values_are_read_by_tag() {
    let s = summarize(&g8());
    assert_eq!(s.attribute("DWGNO"), Lookup::Unique("BP-1042"));
    assert_eq!(
        s.attribute("MATERIAL"),
        Lookup::Unique("SS400 \u{C77C}\u{BC18}\u{AD6C}\u{C870}\u{C6A9} \u{C555}\u{C5F0}\u{AC15}\u{C7AC}")
    );
    assert_eq!(s.attribute("DRAWN"), Lookup::Unique("\u{D64D}\u{AE38}\u{B3D9}"));
    let layers: Vec<&str> = s.layers.iter().map(|l| l.name.as_str()).collect();
    assert!(layers.contains(&"\u{D45C}\u{C81C}\u{B780}"), "{layers:?}");
    assert!(layers.contains(&"\u{C678}\u{D615}\u{C120}"), "{layers:?}");
    assert!(s.labelled_texts.is_empty(), "{:?}", s.labelled_texts);
    assert_eq!(s.confidence, Confidence::High);
}

#[test]
fn the_two_space_records_are_not_blocks() {
    assert!(is_space("*Model_Space"));
    assert!(is_space("*MODEL_SPACE"));
    assert!(is_space("*paper_space"));
    assert!(!is_space("*Paper_Space1"));
    assert!(!is_space("TITLEBLOCK"));
}

#[test]
fn a_lookup_answers_with_every_distinct_value_sorted() {
    assert_eq!(lookup(vec![]), Lookup::Absent);
    assert_eq!(lookup(vec!["B", "B"]), Lookup::Unique("B"));
    assert_eq!(lookup(vec!["C", "A", "C", "B"]), Lookup::Ambiguous(vec!["A", "B", "C"]));
}

#[test]
fn a_text_reference_carries_both_forms() {
    let t = TextRef::of(7, "%%d90");
    assert_eq!(t.id, 7);
    assert_eq!(t.text, "%%d90");
    assert_eq!(t.plain, "\u{b0}90");
}

#[test]
fn repeated_summaries_are_byte_identical() {
    let d = loose_title_block();
    let a = format!("{:?}", summarize(&d));
    for _ in 0..3 {
        assert_eq!(format!("{:?}", summarize(&d)), a);
    }
}

#[test]
fn the_counts_by_type_add_up_to_every_entity() {
    let s = summarize(&g1());
    let total: usize = s.by_type.iter().map(|c| c.count).sum();
    assert_eq!((total, s.entity_count), (13, 13));
    let s = summarize(&loose_title_block());
    let total: usize = s.by_type.iter().map(|c| c.count).sum();
    assert_eq!((total, s.entity_count), (6, 6));
}

fn dimension(id: u64, kind: Option<DimensionKind>, measurement: Option<u64>, shown: DimensionText) -> DrawingEntity {
    entity(
        id,
        "DIMENSION",
        "DIMS",
        EntityData::Dimension {
            kind,
            measurement,
            shown,
            text_midpoint: PointKey { x: id, y: 2 * id },
            style: Ref::Resolved("STANDARD".to_string()),
        },
    )
}

#[test]
fn every_dimension_is_listed_as_the_file_states_it() {
    let mut low = dimension(300, Some(DimensionKind::Rotated), None, DimensionText::Suppressed);
    low.confidence = Confidence::Low;
    let mut undeclared = dimension(302, None, None, DimensionText::Measured);
    if let EntityData::Dimension { style, .. } = &mut undeclared.data {
        *style = Ref::Unresolved("NOT-DECLARED".to_string());
    }
    let d = Drawing {
        entities: vec![
            dimension(303, Some(DimensionKind::Diameter), Some(20), DimensionText::Literal("%%c20".to_string())),
            dimension(301, Some(DimensionKind::Rotated), Some(120), DimensionText::Literal("125".to_string())),
            other(1, "LINE", "0"),
            undeclared,
            low,
        ],
        layers: vec![],
        blocks: vec![],
        warnings: vec![],
    };
    let s = summarize(&d);
    let ids: Vec<u64> = s.dimensions.iter().map(|d| d.id).collect();
    assert_eq!(ids, [300, 301, 302, 303], "by reference ID");
    let at = |id: u64| s.dimensions.iter().find(|d| d.id == id).unwrap();
    // A literal that disagrees with the recorded measurement: both, as written.
    assert_eq!(at(301).measurement, Some(120));
    assert!(matches!(&at(301).text, DimensionText::Literal(t) if t == "125"));
    assert_eq!(at(301).plain.as_deref(), Some("125"));
    assert_eq!(at(303).kind, Some(DimensionKind::Diameter));
    assert_eq!(at(303).plain.as_deref(), Some("\u{2300}20"));
    assert!(matches!(at(300).text, DimensionText::Suppressed));
    assert_eq!(at(300).plain, None);
    assert_eq!(at(300).confidence, Confidence::Low);
    assert_eq!(at(302).measurement, None);
    assert!(matches!(&at(302).style, Ref::Unresolved(n) if n == "NOT-DECLARED"));
    assert_eq!(at(303).text_midpoint, PointKey { x: 303, y: 606 });
}

#[test]
fn a_dimensions_text_midpoint_points_back_at_it() {
    // Pointing where the summary says a dimension's text is measures 0 to
    // that text (the key of +0.0); the search then finds the dimension,
    // whatever else its block draws.
    let zero = 1u64 << 63;
    let tolerance = (1e-9f64).to_bits() | (1u64 << 63);
    let d = g1();
    let dims: Vec<u64> = summarize(&d).dimensions.iter().map(|x| x.id).collect();
    assert_eq!(dims, [30, 31, 32, 33]);
    let outcomes: Vec<Outcome> = search_steps(&d)
        .into_iter()
        .map(|step| match step {
            SearchStep::Visit(v) => {
                let place = if dims.contains(&v.id) {
                    place_of_dimension(zero, &vec![(zero + 7, false)], Some(zero + 3))
                } else {
                    Place::Anchor { distance: zero + 1000 }
                };
                Outcome::Measured(v, place)
            }
            SearchStep::NotSearched(n) => Outcome::NotSearched(n),
        })
        .collect();
    let t = assemble_hits(&outcomes, tolerance);
    for id in dims {
        assert!(t.hits.iter().any(|h| h.id == id && h.via.is_empty() && h.distance == zero), "{id}");
    }
}

#[test]
fn the_input_is_never_modified() {
    let d = g1();
    let before = format!("{:?}", d);
    let _ = summarize(&d);
    let _ = search_steps(&d);
    assert_eq!(format!("{:?}", d), before);
}

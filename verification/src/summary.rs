//! The summary: what a drawing contains, compactly, with nothing guessed.

use vstd::prelude::*;
use crate::order::{lemma_sorted_as_from, arrange, is_stable_order, key_views, lemma_sorted_as_keeps, lemma_sorted_as_unique, sorted_as, stable_order, SortKey};
use crate::extent::{covers, is_space_record, space_blocks, space_extents, Bounds, SpaceExtent};
use crate::model::{block_names, layer_names, names_in_order, rank, lower_of, Attrib, Ref, RowCandidate, TextPlacement, BlockDef, Confidence, DimensionKind, DimensionText, DrawingEntity, Drawing, EntityData, Layer, PointKey};
use crate::text::{lemma_strictly_sorted_unique, str_eq, chars_lt, lemma_chars_lt_order, str_lt, eq_ignore_ascii_case, eq_ignore_case, insert_distinct, plain_text, plain_text_of, str_views, strictly_sorted};

verus! {

/// The answer to "what is the value of X in this drawing".
#[derive(Debug, PartialEq, Eq)]
pub enum Lookup<T> {
    /// Exactly one distinct value.
    Unique(T),
    /// No carrier of that name.
    Absent,
    /// Several carriers with different values, all listed, none chosen.
    Ambiguous(Vec<T>),
}

/// `r` answers a lookup whose carriers hold `values`: none when there are
/// none, the one value when all carriers agree, and otherwise every
/// distinct value, sorted, each once.
pub open spec fn answers(values: Seq<Seq<char>>, r: Lookup<&str>) -> bool {
    match r {
        Lookup::Absent => values.len() == 0,
        Lookup::Unique(v) => values.to_set() == set![v@],
        Lookup::Ambiguous(all) => {
            &&& all.len() >= 2
            &&& strictly_sorted(str_views(all@))
            &&& str_views(all@).to_set() == values.to_set()
        },
    }
}

proof fn lemma_seq_to_set_empty(s: Seq<Seq<char>>)
    ensures
        s.len() == 0 <==> s.to_set() == Set::<Seq<char>>::empty(),
{
    if s.len() > 0 {
        assert(s.to_set().contains(s[0]));
    } else {
        assert(s.to_set() =~= Set::<Seq<char>>::empty());
    }
}

/// Every distinct value among `values`, as a lookup answers with them:
/// none, the one, or all of them sorted.
pub fn lookup<'a>(values: Vec<&'a str>) -> (r: Lookup<&'a str>)
    ensures
        answers(str_views(values@), r),
{
    let mut distinct: Vec<&'a str> = Vec::new();
    let mut i: usize = 0;
    while i < values.len()
        invariant
            i <= values.len(),
            strictly_sorted(str_views(distinct@)),
            str_views(distinct@).to_set() == str_views(values@.subrange(0, i as int)).to_set(),
        decreases values.len() - i,
    {
        proof {
            let before = str_views(values@.subrange(0, i as int));
            let after = str_views(values@.subrange(0, i + 1));
            assert(after =~= before.push(values@[i as int]@));
            before.lemma_push_to_set_commute(values@[i as int]@);
        }
        insert_distinct(&mut distinct, values[i]);
        i = i + 1;
    }
    let ghost vs = str_views(values@);
    let ghost ds = str_views(distinct@);
    assert(values@.subrange(0, values.len() as int) =~= values@);
    proof {
        lemma_seq_to_set_empty(vs);
        lemma_seq_to_set_empty(ds);
    }
    if distinct.len() == 0 {
        Lookup::Absent
    } else if distinct.len() == 1 {
        assert(ds.to_set() =~= set![distinct[0]@]) by {
            assert forall|x: Seq<char>| ds.to_set().contains(x) implies x == distinct[0]@ by {
                let k = choose|k: int| 0 <= k < ds.len() && ds[k] == x;
            }
            assert(ds.to_set().contains(ds[0]));
        }
        Lookup::Unique(distinct[0])
    } else {
        Lookup::Ambiguous(distinct)
    }
}

/// The space records: model space and the first paper space, by name,
/// the case of ASCII letters aside.
pub open spec fn is_space_name(name: Seq<char>) -> bool {
    eq_ignore_ascii_case(name, "*Model_Space"@) || eq_ignore_ascii_case(name, "*Paper_Space"@)
}

/// Whether a block record is one of the two space records, which the
/// summary does not list as block definitions.
pub fn is_space(name: &str) -> (r: bool)
    ensures
        r == is_space_name(name@),
{
    eq_ignore_case(name, "*Model_Space") || eq_ignore_case(name, "*Paper_Space")
}

/// A piece of text by reference.
#[derive(Debug)]
pub struct TextRef {
    pub id: u64,
    /// The text as the model carries it, its codes included.
    pub text: String,
    /// The text as plain text (see [`plain_text`]).
    pub plain: String,
}

/// A [`TextRef`] with its strings as character sequences.
pub struct TextRefView {
    pub id: u64,
    pub text: Seq<char>,
    pub plain: Seq<char>,
}

impl View for TextRef {
    type V = TextRefView;

    open spec fn view(&self) -> TextRefView {
        TextRefView { id: self.id, text: self.text@, plain: self.plain@ }
    }
}

/// The reference to the text `text` of entity `id`.
pub open spec fn text_ref_of(id: u64, text: Seq<char>) -> TextRefView {
    TextRefView { id, text, plain: plain_text_of(text) }
}

impl TextRef {
    /// The reference to the text `text` of entity `id`, with its plain text.
    pub fn of(id: u64, text: &str) -> (r: TextRef)
        ensures
            r@ == text_ref_of(id, text@),
    {
        TextRef { id, text: String::from_str(text), plain: plain_text(text) }
    }

    /// A copy of this reference.
    pub fn duplicate(&self) -> (r: TextRef)
        ensures
            r == *self,
    {
        TextRef { id: self.id, text: self.text.clone(), plain: self.plain.clone() }
    }
}

/// How many of `s` are `x`.
pub open spec fn count_of(s: Seq<Seq<char>>, x: Seq<char>) -> nat
    decreases s.len(),
{
    if s.len() == 0 {
        0
    } else {
        count_of(s.drop_last(), x) + if s.last() == x {
            1nat
        } else {
            0nat
        }
    }
}

pub proof fn lemma_count_of_bound(s: Seq<Seq<char>>, x: Seq<char>)
    ensures
        count_of(s, x) <= s.len(),
        !s.contains(x) ==> count_of(s, x) == 0,
    decreases s.len(),
{
    if s.len() > 0 {
        lemma_count_of_bound(s.drop_last(), x);
        if !s.contains(x) {
            assert forall|i: int| 0 <= i < s.drop_last().len() implies s.drop_last()[i] != x by {
                assert(s[i] == s.drop_last()[i]);
            }
        }
    }
}

/// The type names of `entities`, in order.
pub open spec fn entity_types(entities: Seq<DrawingEntity>) -> Seq<Seq<char>> {
    entities.map_values(|e: DrawingEntity| e.entity_type@)
}

/// How many entities there are of one type.
#[derive(Debug)]
pub struct TypeCount {
    pub entity_type: String,
    pub count: usize,
}

/// `counts` holds each type name of `types` once, sorted, with the number
/// of times it occurs.
pub open spec fn counts_types(counts: Seq<TypeCount>, types: Seq<Seq<char>>) -> bool {
    let names = counts.map_values(|c: TypeCount| c.entity_type@);
    &&& strictly_sorted(names)
    &&& names.to_set() == types.to_set()
    &&& forall|k: int| 0 <= k < counts.len() ==> #[trigger] counts[k].count == count_of(types, names[k])
}

/// The number of entities of each type, by type name.
pub fn count_by_type(entities: &Vec<DrawingEntity>) -> (r: Vec<TypeCount>)
    ensures
        counts_types(r@, entity_types(entities@)),
{
    proof {
        lemma_chars_lt_order();
    }
    let ghost all = entity_types(entities@);
    let mut names: Vec<&str> = Vec::new();
    let mut counts: Vec<usize> = Vec::new();
    let mut i: usize = 0;
    while i < entities.len()
        invariant
            i <= entities.len(),
            all == entity_types(entities@),
            names.len() == counts.len(),
            strictly_sorted(str_views(names@)),
            str_views(names@).to_set() == all.subrange(0, i as int).to_set(),
            forall|k: int| 0 <= k < counts.len() ==> #[trigger] counts[k] == count_of(
                all.subrange(0, i as int),
                names[k]@,
            ),
            forall|k: int| 0 <= k < counts.len() ==> #[trigger] counts[k] <= i,
            forall|a: Seq<char>| !chars_lt(a, a),
            forall|a: Seq<char>, b: Seq<char>, c: Seq<char>|
                chars_lt(a, b) && chars_lt(b, c) ==> chars_lt(a, c),
            forall|a: Seq<char>, b: Seq<char>| a == b || chars_lt(a, b) || chars_lt(b, a),
        decreases entities.len() - i,
    {
        let t: &str = entities[i].entity_type.as_str();
        let ghost prefix = all.subrange(0, i as int);
        let ghost next = all.subrange(0, i + 1);
        assert(next.drop_last() =~= prefix);
        assert(next.last() == t@);
        proof {
            prefix.lemma_push_to_set_commute(t@);
            assert(next =~= prefix.push(t@));
        }
        let ghost old_names = str_views(names@);
        let ghost old_counts = counts@;
        let mut pos: usize = 0;
        while pos < names.len() && str_lt(names[pos], t)
            invariant
                pos <= names.len(),
                old_names == str_views(names@),
                forall|k: int| 0 <= k < pos ==> chars_lt(#[trigger] old_names[k], t@),
            decreases names.len() - pos,
        {
            pos = pos + 1;
        }
        if pos < names.len() && !str_lt(t, names[pos]) {
            assert(old_names[pos as int] == t@);
            let c = counts[pos];
            counts.set(pos, c + 1);
            proof {
                assert(old_names.to_set().contains(t@));
                assert(old_names.to_set().insert(t@) =~= old_names.to_set());
                assert forall|k: int| 0 <= k < counts.len() implies #[trigger] counts[k] == count_of(
                    next,
                    names[k]@,
                ) by {
                    if k != pos {
                        assert(names[k]@ == old_names[k]);
                        assert(old_names[k] != t@);
                    }
                }
            }
        } else {
            names.insert(pos, t);
            counts.insert(pos, 1);
            let ghost new_names = str_views(names@);
            proof {
                assert(new_names =~= old_names.insert(pos as int, t@));
                // t was not there: everything before pos is smaller, everything after larger.
                assert forall|k: int| 0 <= k < old_names.len() implies old_names[k] != t@ by {
                    if k < pos {
                    } else {
                        assert(chars_lt(t@, old_names[pos as int]));
                        if k > pos {
                            assert(chars_lt(old_names[pos as int], old_names[k]));
                        }
                    }
                }
                assert(!prefix.to_set().contains(t@));
                assert(!prefix.contains(t@)) by {
                    if prefix.contains(t@) {
                        let j = choose|j: int| 0 <= j < prefix.len() && prefix[j] == t@;
                        assert(prefix.to_set().contains(prefix[j]));
                    }
                }
                lemma_count_of_bound(prefix, t@);
                assert forall|k: int, l: int| 0 <= k < l < new_names.len() implies chars_lt(
                    #[trigger] new_names[k],
                    #[trigger] new_names[l],
                ) by {
                    if l < pos {
                    } else if k > pos {
                        assert(new_names[k] == old_names[k - 1] && new_names[l] == old_names[l - 1]);
                    } else if k < pos && l > pos {
                        assert(new_names[l] == old_names[l - 1]);
                        if l - 1 > pos {
                            assert(chars_lt(old_names[pos as int], old_names[l - 1]));
                        }
                        assert(chars_lt(t@, old_names[l - 1]));
                    } else if k == pos {
                        assert(new_names[l] == old_names[l - 1]);
                        if l - 1 > pos {
                            assert(chars_lt(old_names[pos as int], old_names[l - 1]));
                        }
                    }
                }
                assert forall|x: Seq<char>| new_names.to_set().contains(x) <==> old_names.to_set().insert(
                    t@,
                ).contains(x) by {
                    if new_names.to_set().contains(x) {
                        let k = choose|k: int| 0 <= k < new_names.len() && new_names[k] == x;
                        if k < pos {
                            assert(old_names[k] == x);
                        } else if k > pos {
                            assert(old_names[k - 1] == x);
                        }
                    }
                    if old_names.to_set().contains(x) && x != t@ {
                        let k = choose|k: int| 0 <= k < old_names.len() && old_names[k] == x;
                        if k < pos {
                            assert(new_names[k] == x);
                        } else {
                            assert(new_names[k + 1] == x);
                        }
                    }
                    if x == t@ {
                        assert(new_names[pos as int] == x);
                    }
                }
                assert(new_names.to_set() =~= old_names.to_set().insert(t@));
                assert forall|k: int| 0 <= k < counts.len() implies #[trigger] counts[k] == count_of(
                    next,
                    names[k]@,
                ) by {
                    if k < pos {
                        assert(counts[k] == old_counts[k]);
                        assert(names[k]@ == old_names[k]);
                    } else if k > pos {
                        assert(counts[k] == old_counts[k - 1]);
                        assert(names[k]@ == old_names[k - 1]);
                    }
                }
            }
        }
        i = i + 1;
    }
    assert(all.subrange(0, entities.len() as int) =~= all);
    let mut r: Vec<TypeCount> = Vec::new();
    let mut k: usize = 0;
    while k < names.len()
        invariant
            k <= names.len(),
            names.len() == counts.len(),
            r.len() == k,
            forall|j: int| 0 <= j < k ==> (#[trigger] r[j]).entity_type@ == names[j]@ && r[j].count == counts[j],
        decreases names.len() - k,
    {
        r.push(TypeCount { entity_type: String::from_str(names[k]), count: counts[k] });
        k = k + 1;
    }
    assert(r@.map_values(|c: TypeCount| c.entity_type@) =~= str_views(names@));
    r
}

/// How many of `entities` are on the layer named `name`.
pub open spec fn count_on_layer(entities: Seq<DrawingEntity>, name: Seq<char>) -> nat
    decreases entities.len(),
{
    if entities.len() == 0 {
        0
    } else {
        count_on_layer(entities.drop_last(), name) + if entities.last().layer.resolves_to(name) {
            1nat
        } else {
            0nat
        }
    }
}

/// How many of `entities` are block references to the block named `name`.
pub open spec fn count_inserts_of(entities: Seq<DrawingEntity>, name: Seq<char>) -> nat
    decreases entities.len(),
{
    if entities.len() == 0 {
        0
    } else {
        count_inserts_of(entities.drop_last(), name) + match entities.last().data {
            EntityData::Insert { block_name, .. } => if block_name.resolves_to(name) {
                1nat
            } else {
                0nat
            },
            _ => 0nat,
        }
    }
}

/// A layer and how much of the drawing is on it.
#[derive(Debug)]
pub struct LayerSummary {
    pub name: String,
    pub color_index: i16,
    /// Top-level entities whose layer resolves to this one.
    pub entity_count: usize,
}

/// A block definition and how often it is referenced.
#[derive(Debug)]
pub struct BlockSummary {
    pub name: String,
    /// Entities in the definition.
    pub entity_count: usize,
    /// Top-level INSERTs that resolve to this block.
    pub insert_count: usize,
}

/// `s` summarizes `layer` over the top-level `entities`.
pub open spec fn layer_summarized(s: LayerSummary, layer: Layer, entities: Seq<DrawingEntity>) -> bool {
    &&& s.name@ == layer.name@
    &&& s.color_index == layer.color_index
    &&& s.entity_count == count_on_layer(entities, layer.name@)
}

/// The block definitions of `blocks` that are not space records, in order.
pub open spec fn listed_blocks(blocks: Seq<BlockDef>) -> Seq<BlockDef>
    decreases blocks.len(),
{
    if blocks.len() == 0 {
        Seq::empty()
    } else if is_space_name(blocks.last().name@) {
        listed_blocks(blocks.drop_last())
    } else {
        listed_blocks(blocks.drop_last()).push(blocks.last())
    }
}

/// `s` summarizes `block` over the top-level `entities`.
pub open spec fn block_summarized(s: BlockSummary, block: BlockDef, entities: Seq<DrawingEntity>) -> bool {
    &&& s.name@ == block.name@
    &&& s.entity_count == block.entities.len()
    &&& s.insert_count == count_inserts_of(entities, block.name@)
}

/// The lowest confidence of `entities`; `High` when there are none.
pub open spec fn lowest_confidence(entities: Seq<DrawingEntity>) -> Confidence
    decreases entities.len(),
{
    if entities.len() == 0 {
        Confidence::High
    } else {
        lower_of(lowest_confidence(entities.drop_last()), entities.last().confidence)
    }
}

fn count_layer(entities: &Vec<DrawingEntity>, name: &str) -> (r: usize)
    ensures
        r == count_on_layer(entities@, name@),
{
    let mut n: usize = 0;
    let mut i: usize = 0;
    while i < entities.len()
        invariant
            i <= entities.len(),
            n == count_on_layer(entities@.subrange(0, i as int), name@),
            n <= i,
        decreases entities.len() - i,
    {
        assert(entities@.subrange(0, i + 1).drop_last() =~= entities@.subrange(0, i as int));
        if entities[i].layer.is_resolved_to(name) {
            n = n + 1;
        }
        i = i + 1;
    }
    assert(entities@.subrange(0, entities.len() as int) =~= entities@);
    n
}

fn count_inserts(entities: &Vec<DrawingEntity>, name: &str) -> (r: usize)
    ensures
        r == count_inserts_of(entities@, name@),
{
    let mut n: usize = 0;
    let mut i: usize = 0;
    while i < entities.len()
        invariant
            i <= entities.len(),
            n == count_inserts_of(entities@.subrange(0, i as int), name@),
            n <= i,
        decreases entities.len() - i,
    {
        assert(entities@.subrange(0, i + 1).drop_last() =~= entities@.subrange(0, i as int));
        match &entities[i].data {
            EntityData::Insert { block_name, .. } => {
                if block_name.is_resolved_to(name) {
                    n = n + 1;
                }
            },
            _ => {},
        }
        i = i + 1;
    }
    assert(entities@.subrange(0, entities.len() as int) =~= entities@);
    n
}

/// Every layer of the layer table, in table order, with how many
/// top-level entities are on it.
pub fn summarize_layers(layers: &Vec<Layer>, entities: &Vec<DrawingEntity>) -> (r: Vec<LayerSummary>)
    ensures
        r.len() == layers.len(),
        forall|k: int| 0 <= k < r.len() ==> layer_summarized(#[trigger] r[k], layers[k], entities@),
{
    let mut r: Vec<LayerSummary> = Vec::new();
    let mut k: usize = 0;
    while k < layers.len()
        invariant
            k <= layers.len(),
            r.len() == k,
            forall|j: int| 0 <= j < k ==> layer_summarized(#[trigger] r[j], layers[j], entities@),
        decreases layers.len() - k,
    {
        let layer = &layers[k];
        let count = count_layer(entities, layer.name.as_str());
        r.push(LayerSummary { name: layer.name.clone(), color_index: layer.color_index, entity_count: count });
        k = k + 1;
    }
    r
}

/// Every block definition except the space records, in table order, with
/// its size and how many top-level block references point at it.
pub fn summarize_blocks(blocks: &Vec<BlockDef>, entities: &Vec<DrawingEntity>) -> (r: Vec<BlockSummary>)
    ensures
        r.len() == listed_blocks(blocks@).len(),
        forall|k: int| 0 <= k < r.len() ==> block_summarized(#[trigger] r[k], listed_blocks(blocks@)[k], entities@),
{
    let mut r: Vec<BlockSummary> = Vec::new();
    let mut k: usize = 0;
    while k < blocks.len()
        invariant
            k <= blocks.len(),
            r.len() == listed_blocks(blocks@.subrange(0, k as int)).len(),
            forall|j: int| 0 <= j < r.len() ==> block_summarized(
                #[trigger] r[j],
                listed_blocks(blocks@.subrange(0, k as int))[j],
                entities@,
            ),
        decreases blocks.len() - k,
    {
        let ghost prev = listed_blocks(blocks@.subrange(0, k as int));
        assert(blocks@.subrange(0, k + 1).drop_last() =~= blocks@.subrange(0, k as int));
        let block = &blocks[k];
        if !is_space(block.name.as_str()) {
            let inserts = count_inserts(entities, block.name.as_str());
            r.push(BlockSummary { name: block.name.clone(), entity_count: block.entities.len(), insert_count: inserts });
            assert forall|j: int| 0 <= j < r.len() implies block_summarized(
                #[trigger] r[j],
                listed_blocks(blocks@.subrange(0, k + 1))[j],
                entities@,
            ) by {
                if j < r.len() - 1 {
                    assert(listed_blocks(blocks@.subrange(0, k + 1))[j] == prev[j]);
                }
            }
        }
        k = k + 1;
    }
    assert(blocks@.subrange(0, blocks.len() as int) =~= blocks@);
    r
}

/// The lowest confidence of any of `entities`; `High` when there are none.
pub fn lowest(entities: &Vec<DrawingEntity>) -> (r: Confidence)
    ensures
        r == lowest_confidence(entities@),
{
    let mut c = Confidence::High;
    let mut i: usize = 0;
    while i < entities.len()
        invariant
            i <= entities.len(),
            c == lowest_confidence(entities@.subrange(0, i as int)),
        decreases entities.len() - i,
    {
        assert(entities@.subrange(0, i + 1).drop_last() =~= entities@.subrange(0, i as int));
        c = c.min(entities[i].confidence);
        i = i + 1;
    }
    assert(entities@.subrange(0, entities.len() as int) =~= entities@);
    c
}

/// One attribute value attached to a block reference: what a title
/// block's fields look like in the model.
#[derive(Debug)]
pub struct AttributeValue {
    /// The INSERT that carries the value.
    pub insert: u64,
    /// The block the INSERT refers to, as the model resolved it.
    pub block: Ref,
    /// The ATTRIB entity itself.
    pub id: u64,
    /// The tag the value answers to.
    pub tag: String,
    /// The value as the model carries it, its codes included.
    pub value: String,
    /// The value as plain text (see [`plain_text`]).
    pub plain: String,
    pub confidence: Confidence,
}

/// An [`AttributeValue`] with its strings as character sequences.
pub struct AttributeView {
    pub insert: u64,
    pub block: Ref,
    pub id: u64,
    pub tag: Seq<char>,
    pub value: Seq<char>,
    pub plain: Seq<char>,
    pub confidence: Confidence,
}

impl View for AttributeValue {
    type V = AttributeView;

    open spec fn view(&self) -> AttributeView {
        AttributeView {
            insert: self.insert,
            block: self.block,
            id: self.id,
            tag: self.tag@,
            value: self.value@,
            plain: self.plain@,
            confidence: self.confidence,
        }
    }
}

impl AttributeValue {
    /// A copy of this value.
    pub fn duplicate(&self) -> (r: AttributeValue)
        ensures
            r == *self,
    {
        AttributeValue {
            insert: self.insert,
            block: self.block.duplicate(),
            id: self.id,
            tag: self.tag.clone(),
            value: self.value.clone(),
            plain: self.plain.clone(),
            confidence: self.confidence,
        }
    }
}

/// The attribute value `a` of the block reference `insert`: its confidence
/// is the lower of the two.
pub open spec fn attribute_of(insert: DrawingEntity, block: Ref, a: Attrib) -> AttributeView {
    AttributeView {
        insert: insert.id,
        block,
        id: a.id,
        tag: a.tag@,
        value: a.text@,
        plain: plain_text_of(a.text@),
        confidence: lower_of(a.confidence, insert.confidence),
    }
}

/// The attribute values `e` carries, in order: none unless it is a block
/// reference.
pub open spec fn attributes_of(e: DrawingEntity) -> Seq<AttributeView> {
    match e.data {
        EntityData::Insert { block_name, attribs, .. } => attribs@.map_values(
            |a: Attrib| attribute_of(e, block_name, a),
        ),
        _ => Seq::empty(),
    }
}

/// Every attribute value of `entities`, entity by entity.
pub open spec fn attribute_rows(entities: Seq<DrawingEntity>) -> Seq<AttributeView>
    decreases entities.len(),
{
    if entities.len() == 0 {
        Seq::empty()
    } else {
        attribute_rows(entities.drop_last()) + attributes_of(entities.last())
    }
}

/// What attribute values are sorted by: the INSERT's reference ID, then
/// the ATTRIB's.
pub open spec fn attribute_keys(rows: Seq<AttributeView>) -> Seq<(u64, u64, Seq<u64>)> {
    rows.map_values(|r: AttributeView| (r.insert, r.id, Seq::<u64>::empty()))
}

/// The views of a list of attribute values.
pub open spec fn attribute_views(values: Seq<AttributeValue>) -> Seq<AttributeView> {
    values.map_values(|v: AttributeValue| v@)
}

/// Every attribute value attached to a top-level block reference, by the
/// INSERT's reference ID, then the ATTRIB's.
pub fn collect_attributes(entities: &Vec<DrawingEntity>) -> (r: Vec<AttributeValue>)
    ensures
        sorted_as(attribute_rows(entities@), attribute_keys(attribute_rows(entities@)), attribute_views(r@)),
{
    let mut rows: Vec<AttributeValue> = Vec::new();
    let mut i: usize = 0;
    while i < entities.len()
        invariant
            i <= entities.len(),
            attribute_views(rows@) == attribute_rows(entities@.subrange(0, i as int)),
        decreases entities.len() - i,
    {
        let e = &entities[i];
        assert(entities@.subrange(0, i + 1).drop_last() =~= entities@.subrange(0, i as int));
        assert(entities@.subrange(0, i + 1).last() == *e);
        let ghost before = attribute_views(rows@);
        match &e.data {
            EntityData::Insert { block_name, attribs, .. } => {
                let mut j: usize = 0;
                while j < attribs.len()
                    invariant
                        j <= attribs.len(),
                        i < entities.len(),
                        e == &entities@[i as int],
                        e.data == (EntityData::Insert { block_name: *block_name, attribs: *attribs, placed: e.data->placed }),
                        attribute_views(rows@) == before + attributes_of(*e).subrange(0, j as int),
                        attributes_of(*e).len() == attribs.len(),
                    decreases attribs.len() - j,
                {
                    let a = &attribs[j];
                    let v = AttributeValue {
                        insert: e.id,
                        block: block_name.duplicate(),
                        id: a.id,
                        tag: a.tag.clone(),
                        value: a.text.clone(),
                        plain: plain_text(a.text.as_str()),
                        confidence: a.confidence.min(e.confidence),
                    };
                    let ghost old_rows = rows@;
                    assert(v@ == attribute_of(*e, *block_name, *a));
                    rows.push(v);
                    assert(attributes_of(*e)[j as int] == attribute_of(*e, *block_name, *a));
                    assert(attribute_views(rows@) =~= attribute_views(old_rows).push(v@));
                    assert(attribute_views(rows@) =~= before + attributes_of(*e).subrange(0, j + 1));
                    j = j + 1;
                }
                assert(attributes_of(*e).subrange(0, attribs.len() as int) =~= attributes_of(*e));
            },
            _ => {
                assert(attributes_of(*e) =~= Seq::<AttributeView>::empty());
                assert(attribute_views(rows@) =~= before + attributes_of(*e));
            },
        }
        i = i + 1;
    }
    assert(entities@.subrange(0, entities.len() as int) =~= entities@);
    let ghost all = attribute_rows(entities@);
    let mut keys: Vec<SortKey> = Vec::new();
    let mut k: usize = 0;
    while k < rows.len()
        invariant
            k <= rows.len(),
            attribute_views(rows@) == all,
            key_views(keys@) == attribute_keys(all).subrange(0, k as int),
        decreases rows.len() - k,
    {
        let ghost old_keys = keys@;
        let key = SortKey { major: rows[k].insert, minor: rows[k].id, chain: Vec::new() };
        assert(all[k as int] == rows@[k as int]@);
        assert(key@ == attribute_keys(all)[k as int]);
        keys.push(key);
        assert(key_views(keys@) =~= key_views(old_keys).push(key@));
        assert(key_views(keys@) =~= attribute_keys(all).subrange(0, k + 1));
        k = k + 1;
    }
    assert(attribute_keys(all).subrange(0, rows.len() as int) =~= attribute_keys(all));
    let order = stable_order(&keys);
    let mut out: Vec<AttributeValue> = Vec::new();
    let mut k: usize = 0;
    while k < order.len()
        invariant
            k <= order.len(),
            attribute_views(rows@) == all,
            is_stable_order(attribute_keys(all), order@),
            attribute_views(out@) == arrange(all, order@).subrange(0, k as int),
        decreases order.len() - k,
    {
        let ghost old_out = out@;
        let at = order[k];
        assert(at < rows.len());
        let v = rows[at].duplicate();
        assert(all[at as int] == rows@[at as int]@);
        assert(v@ == arrange(all, order@)[k as int]);
        out.push(v);
        assert(attribute_views(out@) =~= attribute_views(old_out).push(v@));
        assert(attribute_views(out@) =~= arrange(all, order@).subrange(0, k + 1));
        k = k + 1;
    }
    assert(arrange(all, order@).subrange(0, order.len() as int) =~= arrange(all, order@));
    out
}

/// A dimension as the file states it: what it measures, the measurement
/// it recorded, the text it shows and where that text sits, and its style.
/// Nothing is recomputed, so a text that disagrees with the measurement is
/// listed beside it as written.
#[derive(Debug)]
pub struct DimensionSummary {
    pub id: u64,
    pub kind: Option<DimensionKind>,
    /// The measurement the drawing recorded, as a key (see [`PointKey`]);
    /// `None` when the file does not carry it.
    pub measurement: Option<u64>,
    /// The text it shows, as written.
    pub text: DimensionText,
    /// A literal text as plain text (see [`plain_text`]); `None` when the
    /// dimension shows its measurement or no text.
    pub plain: Option<String>,
    /// The middle of its text.
    pub text_midpoint: PointKey,
    pub style: Ref,
    pub confidence: Confidence,
}

/// A [`DimensionSummary`] with its plain text as a sequence.
pub struct DimensionView {
    pub id: u64,
    pub kind: Option<DimensionKind>,
    pub measurement: Option<u64>,
    pub text: DimensionText,
    pub plain: Option<Seq<char>>,
    pub text_midpoint: PointKey,
    pub style: Ref,
    pub confidence: Confidence,
}

impl View for DimensionSummary {
    type V = DimensionView;

    open spec fn view(&self) -> DimensionView {
        DimensionView {
            id: self.id,
            kind: self.kind,
            measurement: self.measurement,
            text: self.text,
            plain: match self.plain {
                Some(p) => Some(p@),
                None => None,
            },
            text_midpoint: self.text_midpoint,
            style: self.style,
            confidence: self.confidence,
        }
    }
}

impl DimensionSummary {
    /// A copy of this entry.
    pub fn duplicate(&self) -> (r: DimensionSummary)
        ensures
            r@ == self@,
    {
        DimensionSummary {
            id: self.id,
            kind: self.kind,
            measurement: self.measurement,
            text: self.text.duplicate(),
            plain: match &self.plain {
                Some(p) => Some(p.clone()),
                None => None,
            },
            text_midpoint: self.text_midpoint,
            style: self.style.duplicate(),
            confidence: self.confidence,
        }
    }
}

/// The plain text a dimension's text reads as: only a literal has one.
pub open spec fn dimension_plain(text: DimensionText) -> Option<Seq<char>> {
    match text {
        DimensionText::Literal(s) => Some(plain_text_of(s@)),
        _ => None,
    }
}

/// The entry a DIMENSION entity makes (none for any other entity).
pub open spec fn dimension_of(e: DrawingEntity) -> Seq<DimensionView> {
    match e.data {
        EntityData::Dimension { kind, measurement, shown, text_midpoint, style } => seq![
            DimensionView {
                id: e.id,
                kind,
                measurement,
                text: shown,
                plain: dimension_plain(shown),
                text_midpoint,
                style,
                confidence: e.confidence,
            },
        ],
        _ => Seq::empty(),
    }
}

/// The entries of `entities`, in order.
pub open spec fn dimension_rows(entities: Seq<DrawingEntity>) -> Seq<DimensionView>
    decreases entities.len(),
{
    if entities.len() == 0 {
        Seq::empty()
    } else {
        dimension_rows(entities.drop_last()) + dimension_of(entities.last())
    }
}

/// Dimensions are sorted by reference ID.
pub open spec fn dimension_keys(rows: Seq<DimensionView>) -> Seq<(u64, u64, Seq<u64>)> {
    rows.map_values(|r: DimensionView| (r.id, 0u64, Seq::<u64>::empty()))
}

/// The views of a list of dimension entries.
pub open spec fn dimension_views(ds: Seq<DimensionSummary>) -> Seq<DimensionView> {
    ds.map_values(|d: DimensionSummary| d@)
}

fn dimension_entry(e: &DrawingEntity) -> (r: Option<DimensionSummary>)
    ensures
        match r {
            Some(d) => dimension_of(*e) == seq![d@],
            None => dimension_of(*e) == Seq::<DimensionView>::empty(),
        },
{
    match &e.data {
        EntityData::Dimension { kind, measurement, shown, text_midpoint, style } => {
            let plain = match shown {
                DimensionText::Literal(s) => Some(plain_text(s.as_str())),
                _ => None,
            };
            Some(
                DimensionSummary {
                    id: e.id,
                    kind: *kind,
                    measurement: *measurement,
                    text: shown.duplicate(),
                    plain,
                    text_midpoint: *text_midpoint,
                    style: style.duplicate(),
                    confidence: e.confidence,
                },
            )
        },
        _ => None,
    }
}

/// Every top-level dimension, as the file states it, by reference ID.
pub fn collect_dimensions(entities: &Vec<DrawingEntity>) -> (r: Vec<DimensionSummary>)
    ensures
        sorted_as(dimension_rows(entities@), dimension_keys(dimension_rows(entities@)), dimension_views(r@)),
{
    let mut rows: Vec<DimensionSummary> = Vec::new();
    let mut i: usize = 0;
    while i < entities.len()
        invariant
            i <= entities.len(),
            dimension_views(rows@) == dimension_rows(entities@.subrange(0, i as int)),
        decreases entities.len() - i,
    {
        assert(entities@.subrange(0, i + 1).drop_last() =~= entities@.subrange(0, i as int));
        assert(entities@.subrange(0, i + 1).last() == entities@[i as int]);
        let ghost before = dimension_views(rows@);
        match dimension_entry(&entities[i]) {
            Some(d) => {
                let ghost v = d@;
                rows.push(d);
                assert(dimension_views(rows@) =~= before.push(v));
            },
            None => {},
        }
        assert(dimension_views(rows@) =~= dimension_rows(entities@.subrange(0, i + 1)));
        i = i + 1;
    }
    assert(entities@.subrange(0, entities.len() as int) =~= entities@);
    let ghost all = dimension_rows(entities@);
    let mut keys: Vec<SortKey> = Vec::new();
    let mut k: usize = 0;
    while k < rows.len()
        invariant
            k <= rows.len(),
            dimension_views(rows@) == all,
            key_views(keys@) == dimension_keys(all).subrange(0, k as int),
        decreases rows.len() - k,
    {
        let ghost old_keys = keys@;
        let key = SortKey { major: rows[k].id, minor: 0, chain: Vec::new() };
        assert(all[k as int] == rows@[k as int]@);
        assert(key@ == dimension_keys(all)[k as int]);
        keys.push(key);
        assert(key_views(keys@) =~= key_views(old_keys).push(key@));
        assert(key_views(keys@) =~= dimension_keys(all).subrange(0, k + 1));
        k = k + 1;
    }
    assert(dimension_keys(all).subrange(0, rows.len() as int) =~= dimension_keys(all));
    let order = stable_order(&keys);
    let mut out: Vec<DimensionSummary> = Vec::new();
    let mut k: usize = 0;
    while k < order.len()
        invariant
            k <= order.len(),
            dimension_views(rows@) == all,
            is_stable_order(dimension_keys(all), order@),
            dimension_views(out@) == arrange(all, order@).subrange(0, k as int),
        decreases order.len() - k,
    {
        let ghost old_out = out@;
        let at = order[k];
        assert(at < rows.len());
        let v = rows[at].duplicate();
        assert(all[at as int] == rows@[at as int]@);
        assert(v@ == arrange(all, order@)[k as int]);
        out.push(v);
        assert(dimension_views(out@) =~= dimension_views(old_out).push(v@));
        assert(dimension_views(out@) =~= arrange(all, order@).subrange(0, k + 1));
        k = k + 1;
    }
    assert(arrange(all, order@).subrange(0, order.len() as int) =~= arrange(all, order@));
    out
}

/// Two loose TEXT entities that read as a label and its value: on the
/// same row, the value the nearest text to the right of the label. Nothing
/// but position ties them, which is how a title block drawn without a
/// block carries its fields. When several texts are nearest at the same
/// distance, the label is listed once per candidate, and
/// [`Summary::labelled`] then answers with every distinct value rather than
/// picking one.
#[derive(Debug)]
pub struct LabelledText {
    pub label: TextRef,
    pub value: TextRef,
    pub confidence: Confidence,
}

/// A [`LabelledText`] with its strings as character sequences.
pub struct LabelledView {
    pub label: TextRefView,
    pub value: TextRefView,
    pub confidence: Confidence,
}

impl View for LabelledText {
    type V = LabelledView;

    open spec fn view(&self) -> LabelledView {
        LabelledView { label: self.label@, value: self.value@, confidence: self.confidence }
    }
}

impl LabelledText {
    /// A copy of this pair.
    pub fn duplicate(&self) -> (r: LabelledText)
        ensures
            r == *self,
    {
        LabelledText { label: self.label.duplicate(), value: self.value.duplicate(), confidence: self.confidence }
    }
}

/// The string of a TEXT entity (empty for any other).
pub open spec fn text_of(e: DrawingEntity) -> Seq<char> {
    match e.data {
        EntityData::Text { text, .. } => text@,
        _ => Seq::empty(),
    }
}

/// The texts to the right of a placed TEXT entity on its row (none for
/// any other).
pub open spec fn row_of(e: DrawingEntity) -> Seq<RowCandidate> {
    match e.data {
        EntityData::Text { placement: TextPlacement::Placed(row), .. } => row@,
        _ => Seq::empty(),
    }
}

/// Entity `j` of `entities` is a loose TEXT placed in plan.
pub open spec fn placed_text(entities: Seq<DrawingEntity>, j: int) -> bool {
    &&& 0 <= j < entities.len()
    &&& entities[j].data matches EntityData::Text { placement: TextPlacement::Placed(_), .. }
}

/// Candidate `c` can be the value of the label with reference ID `label`:
/// a placed text other than the label itself.
pub open spec fn eligible(entities: Seq<DrawingEntity>, label: u64, c: RowCandidate) -> bool {
    placed_text(entities, c.text as int) && entities[c.text as int].id != label
}

/// The smallest distance among the eligible candidates; none if there are
/// none.
pub open spec fn nearest_gap(entities: Seq<DrawingEntity>, label: u64, row: Seq<RowCandidate>) -> Option<u64>
    decreases row.len(),
{
    if row.len() == 0 {
        None
    } else {
        let rest = nearest_gap(entities, label, row.drop_last());
        let c = row.last();
        if !eligible(entities, label, c) {
            rest
        } else {
            match rest {
                None => Some(c.gap),
                Some(g) => Some(if c.gap < g { c.gap } else { g }),
            }
        }
    }
}

/// The pair of label `l` and value `v`, trusted no more than either.
pub open spec fn pair_of(l: DrawingEntity, v: DrawingEntity) -> LabelledView {
    LabelledView {
        label: text_ref_of(l.id, text_of(l)),
        value: text_ref_of(v.id, text_of(v)),
        confidence: lower_of(l.confidence, v.confidence),
    }
}

/// The pairs of label `l` with each eligible candidate at distance `gap`,
/// in the candidates' order.
pub open spec fn chosen_pairs(
    entities: Seq<DrawingEntity>,
    l: DrawingEntity,
    row: Seq<RowCandidate>,
    gap: u64,
) -> Seq<LabelledView>
    decreases row.len(),
{
    if row.len() == 0 {
        Seq::empty()
    } else {
        let c = row.last();
        chosen_pairs(entities, l, row.drop_last(), gap) + if eligible(entities, l.id, c) && c.gap == gap {
            seq![pair_of(l, entities[c.text as int])]
        } else {
            Seq::empty()
        }
    }
}

/// The pairs entity `i` is the label of: one per nearest text to its
/// right, none when nothing is to its right or it is not a placed text.
pub open spec fn label_pairs(entities: Seq<DrawingEntity>, i: int) -> Seq<LabelledView> {
    if placed_text(entities, i) {
        match nearest_gap(entities, entities[i].id, row_of(entities[i])) {
            None => Seq::empty(),
            Some(g) => chosen_pairs(entities, entities[i], row_of(entities[i]), g),
        }
    } else {
        Seq::empty()
    }
}

/// The pairs of the first `n` entities, label by label.
pub open spec fn pair_rows(entities: Seq<DrawingEntity>, n: int) -> Seq<LabelledView>
    decreases n,
{
    if n <= 0 {
        Seq::empty()
    } else {
        pair_rows(entities, n - 1) + label_pairs(entities, n - 1)
    }
}

/// What pairs are sorted by: the label's reference ID, then the value's.
pub open spec fn pair_keys(rows: Seq<LabelledView>) -> Seq<(u64, u64, Seq<u64>)> {
    rows.map_values(|r: LabelledView| (r.label.id, r.value.id, Seq::<u64>::empty()))
}

/// The views of a list of pairs.
pub open spec fn pair_views(pairs: Seq<LabelledText>) -> Seq<LabelledView> {
    pairs.map_values(|p: LabelledText| p@)
}

fn is_placed_text(entities: &Vec<DrawingEntity>, j: usize) -> (r: bool)
    ensures
        r == placed_text(entities@, j as int),
{
    if j >= entities.len() {
        return false;
    }
    match &entities[j].data {
        EntityData::Text { placement: TextPlacement::Placed(_), .. } => true,
        _ => false,
    }
}

fn nearest(entities: &Vec<DrawingEntity>, label: u64, row: &Vec<RowCandidate>) -> (r: Option<u64>)
    ensures
        r == nearest_gap(entities@, label, row@),
{
    let mut best: Option<u64> = None;
    let mut k: usize = 0;
    while k < row.len()
        invariant
            k <= row.len(),
            best == nearest_gap(entities@, label, row@.subrange(0, k as int)),
        decreases row.len() - k,
    {
        assert(row@.subrange(0, k + 1).drop_last() =~= row@.subrange(0, k as int));
        let c = row[k];
        if is_placed_text(entities, c.text) && entities[c.text].id != label {
            best = match best {
                None => Some(c.gap),
                Some(g) => Some(if c.gap < g { c.gap } else { g }),
            };
        }
        k = k + 1;
    }
    assert(row@.subrange(0, row.len() as int) =~= row@);
    best
}

fn text_string(e: &DrawingEntity) -> (r: &str)
    ensures
        r@ == text_of(*e),
{
    match &e.data {
        EntityData::Text { text, .. } => text.as_str(),
        _ => {
            proof {
                reveal_strlit("");
            }
            assert(""@ =~= Seq::<char>::empty());
            ""
        },
    }
}

/// Loose TEXT entities paired by position: for each placed text, the
/// nearest eligible text to its right on its row is its value. A text with
/// nothing to its right is a label of nothing and is not listed; a text may
/// be the value of one label and the label of the next. Several texts at
/// the same nearest distance are all listed -- a tie is not broken by
/// picking one. Pairs are sorted by the label's reference ID, then the
/// value's.
pub fn pair_texts(entities: &Vec<DrawingEntity>) -> (r: Vec<LabelledText>)
    ensures
        sorted_as(
            pair_rows(entities@, entities.len() as int),
            pair_keys(pair_rows(entities@, entities.len() as int)),
            pair_views(r@),
        ),
{
    let ghost es = entities@;
    let mut rows: Vec<LabelledText> = Vec::new();
    let mut i: usize = 0;
    while i < entities.len()
        invariant
            i <= entities.len(),
            es == entities@,
            pair_views(rows@) == pair_rows(es, i as int),
        decreases entities.len() - i,
    {
        let ghost before = pair_views(rows@);
        let l = &entities[i];
        if is_placed_text(entities, i) {
            match &l.data {
                EntityData::Text { text: label_text, placement: TextPlacement::Placed(row) } => {
                    assert(row_of(*l) == row@);
                    match nearest(entities, l.id, row) {
                        None => {
                            assert(label_pairs(es, i as int) =~= Seq::<LabelledView>::empty());
                        },
                        Some(g) => {
                            let mut k: usize = 0;
                            while k < row.len()
                                invariant
                                    k <= row.len(),
                                    i < entities.len(),
                                    es == entities@,
                                    *l == es[i as int],
                                    row_of(*l) == row@,
                                    text_of(*l) == label_text@,
                                    pair_views(rows@) == before + chosen_pairs(es, *l, row@.subrange(0, k as int), g),
                                decreases row.len() - k,
                            {
                                assert(row@.subrange(0, k + 1).drop_last() =~= row@.subrange(0, k as int));
                                let c = row[k];
                                let ghost old_rows = rows@;
                                if is_placed_text(entities, c.text) && entities[c.text].id != l.id && c.gap == g {
                                    let v = &entities[c.text];
                                    let p = LabelledText {
                                        label: TextRef::of(l.id, label_text.as_str()),
                                        value: TextRef::of(v.id, text_string(v)),
                                        confidence: l.confidence.min(v.confidence),
                                    };
                                    assert(p@ == pair_of(*l, es[c.text as int]));
                                    rows.push(p);
                                    assert(pair_views(rows@) =~= pair_views(old_rows).push(p@));
                                }
                                assert(pair_views(rows@) =~= before + chosen_pairs(es, *l, row@.subrange(0, k + 1), g));
                                k = k + 1;
                            }
                            assert(row@.subrange(0, row.len() as int) =~= row@);
                        },
                    }
                },
                _ => {},
            }
        } else {
            assert(label_pairs(es, i as int) =~= Seq::<LabelledView>::empty());
        }
        assert(pair_views(rows@) =~= pair_rows(es, i + 1));
        i = i + 1;
    }
    let ghost all = pair_rows(es, entities.len() as int);
    let mut keys: Vec<SortKey> = Vec::new();
    let mut k: usize = 0;
    while k < rows.len()
        invariant
            k <= rows.len(),
            pair_views(rows@) == all,
            key_views(keys@) == pair_keys(all).subrange(0, k as int),
        decreases rows.len() - k,
    {
        let ghost old_keys = keys@;
        let key = SortKey { major: rows[k].label.id, minor: rows[k].value.id, chain: Vec::new() };
        assert(all[k as int] == rows@[k as int]@);
        assert(key@ == pair_keys(all)[k as int]);
        keys.push(key);
        assert(key_views(keys@) =~= key_views(old_keys).push(key@));
        assert(key_views(keys@) =~= pair_keys(all).subrange(0, k + 1));
        k = k + 1;
    }
    assert(pair_keys(all).subrange(0, rows.len() as int) =~= pair_keys(all));
    let order = stable_order(&keys);
    let mut out: Vec<LabelledText> = Vec::new();
    let mut k: usize = 0;
    while k < order.len()
        invariant
            k <= order.len(),
            pair_views(rows@) == all,
            is_stable_order(pair_keys(all), order@),
            pair_views(out@) == arrange(all, order@).subrange(0, k as int),
        decreases order.len() - k,
    {
        let ghost old_out = out@;
        let at = order[k];
        assert(at < rows.len());
        let v = rows[at].duplicate();
        assert(all[at as int] == rows@[at as int]@);
        assert(v@ == arrange(all, order@)[k as int]);
        out.push(v);
        assert(pair_views(out@) =~= pair_views(old_out).push(v@));
        assert(pair_views(out@) =~= arrange(all, order@).subrange(0, k + 1));
        k = k + 1;
    }
    assert(arrange(all, order@).subrange(0, order.len() as int) =~= arrange(all, order@));
    out
}

/// The loose TEXTs among `entities` that are written on a tilted plane,
/// in order.
pub open spec fn unplaced_rows(entities: Seq<DrawingEntity>) -> Seq<TextRefView>
    decreases entities.len(),
{
    if entities.len() == 0 {
        Seq::empty()
    } else {
        let e = entities.last();
        unplaced_rows(entities.drop_last()) + match e.data {
            EntityData::Text { text, placement: TextPlacement::Tilted } => seq![text_ref_of(e.id, text@)],
            _ => Seq::empty(),
        }
    }
}

/// What text references are sorted by: their reference ID.
pub open spec fn text_ref_keys(rows: Seq<TextRefView>) -> Seq<(u64, u64, Seq<u64>)> {
    rows.map_values(|r: TextRefView| (r.id, 0u64, Seq::<u64>::empty()))
}

/// The views of a list of text references.
pub open spec fn text_ref_views(refs: Seq<TextRef>) -> Seq<TextRefView> {
    refs.map_values(|t: TextRef| t@)
}

/// The loose TEXTs written on a plane tilted out of the world's, by
/// reference ID: where they are drawn in plan is not measured, so they are
/// neither labels nor values, and are listed so that a missing label is
/// never silently absent.
pub fn unplaced_texts(entities: &Vec<DrawingEntity>) -> (r: Vec<TextRef>)
    ensures
        sorted_as(unplaced_rows(entities@), text_ref_keys(unplaced_rows(entities@)), text_ref_views(r@)),
{
    let mut rows: Vec<TextRef> = Vec::new();
    let mut i: usize = 0;
    while i < entities.len()
        invariant
            i <= entities.len(),
            text_ref_views(rows@) == unplaced_rows(entities@.subrange(0, i as int)),
        decreases entities.len() - i,
    {
        let e = &entities[i];
        assert(entities@.subrange(0, i + 1).drop_last() =~= entities@.subrange(0, i as int));
        assert(entities@.subrange(0, i + 1).last() == *e);
        let ghost old_rows = rows@;
        match &e.data {
            EntityData::Text { text, placement: TextPlacement::Tilted } => {
                let t = TextRef::of(e.id, text.as_str());
                rows.push(t);
                assert(text_ref_views(rows@) =~= text_ref_views(old_rows).push(t@));
            },
            _ => {},
        }
        assert(text_ref_views(rows@) =~= unplaced_rows(entities@.subrange(0, i + 1)));
        i = i + 1;
    }
    assert(entities@.subrange(0, entities.len() as int) =~= entities@);
    let ghost all = unplaced_rows(entities@);
    let mut keys: Vec<SortKey> = Vec::new();
    let mut k: usize = 0;
    while k < rows.len()
        invariant
            k <= rows.len(),
            text_ref_views(rows@) == all,
            key_views(keys@) == text_ref_keys(all).subrange(0, k as int),
        decreases rows.len() - k,
    {
        let ghost old_keys = keys@;
        let key = SortKey { major: rows[k].id, minor: 0, chain: Vec::new() };
        assert(all[k as int] == rows@[k as int]@);
        assert(key@ == text_ref_keys(all)[k as int]);
        keys.push(key);
        assert(key_views(keys@) =~= key_views(old_keys).push(key@));
        assert(key_views(keys@) =~= text_ref_keys(all).subrange(0, k + 1));
        k = k + 1;
    }
    assert(text_ref_keys(all).subrange(0, rows.len() as int) =~= text_ref_keys(all));
    let order = stable_order(&keys);
    let mut out: Vec<TextRef> = Vec::new();
    let mut k: usize = 0;
    while k < order.len()
        invariant
            k <= order.len(),
            text_ref_views(rows@) == all,
            is_stable_order(text_ref_keys(all), order@),
            text_ref_views(out@) == arrange(all, order@).subrange(0, k as int),
        decreases order.len() - k,
    {
        let ghost old_out = out@;
        let at = order[k];
        assert(at < rows.len());
        let v = rows[at].duplicate();
        assert(all[at as int] == rows@[at as int]@);
        assert(v@ == arrange(all, order@)[k as int]);
        out.push(v);
        assert(text_ref_views(out@) =~= text_ref_views(old_out).push(v@));
        assert(text_ref_views(out@) =~= arrange(all, order@).subrange(0, k + 1));
        k = k + 1;
    }
    assert(arrange(all, order@).subrange(0, order.len() as int) =~= arrange(all, order@));
    out
}

fn copy_strings(v: &Vec<String>) -> (r: Vec<String>)
    ensures
        r@ == v@,
{
    let mut r: Vec<String> = Vec::new();
    let mut i: usize = 0;
    while i < v.len()
        invariant
            i <= v.len(),
            r@ == v@.subrange(0, i as int),
        decreases v.len() - i,
    {
        r.push(v[i].clone());
        assert(r@ =~= v@.subrange(0, i + 1));
        i = i + 1;
    }
    assert(v@.subrange(0, v.len() as int) =~= v@);
    r
}

/// What a drawing contains.
#[derive(Debug)]
pub struct Summary {
    /// Top-level entities (model and paper space), as the model lists them.
    pub entity_count: usize,
    /// Count per entity type name, by name.
    pub by_type: Vec<TypeCount>,
    /// Every layer of the layer table, by name.
    pub layers: Vec<LayerSummary>,
    /// Every block definition except the two space records, by name.
    pub blocks: Vec<BlockSummary>,
    /// Every attribute value attached to a block reference, by the INSERT's
    /// reference ID, then the ATTRIB's.
    pub attributes: Vec<AttributeValue>,
    /// Loose TEXT pairs that read as label and value, by the label's
    /// reference ID, then the value's.
    pub labelled_texts: Vec<LabelledText>,
    /// Loose TEXTs left out of that pairing because they are written on a
    /// plane tilted out of the world's, by reference ID.
    pub unplaced_texts: Vec<TextRef>,
    /// Every top-level dimension as the file states it, by reference ID.
    pub dimensions: Vec<DimensionSummary>,
    /// Where each space is: model space and every paper-space sheet, each
    /// on its own, in block-name order.
    pub extents: Vec<SpaceExtent>,
    /// The lowest confidence of any entity summarized; `High` for a drawing
    /// with no entities.
    pub confidence: Confidence,
    /// The drawing's own read diagnostics, passed through unchanged.
    pub warnings: Vec<String>,
}

/// `s` is the summary of `d`.
pub open spec fn summarizes(s: Summary, d: Drawing) -> bool {
    let es = d.entities@;
    &&& s.entity_count == es.len()
    &&& counts_types(s.by_type@, entity_types(es))
    &&& s.layers.len() == d.layers.len()
    &&& forall|k: int| 0 <= k < s.layers.len() ==> layer_summarized(#[trigger] s.layers[k], d.layers[k], es)
    &&& s.blocks.len() == listed_blocks(d.blocks@).len()
    &&& forall|k: int| 0 <= k < s.blocks.len() ==> block_summarized(#[trigger] s.blocks[k], listed_blocks(d.blocks@)[k], es)
    &&& sorted_as(attribute_rows(es), attribute_keys(attribute_rows(es)), attribute_views(s.attributes@))
    &&& sorted_as(pair_rows(es, es.len() as int), pair_keys(pair_rows(es, es.len() as int)), pair_views(s.labelled_texts@))
    &&& sorted_as(unplaced_rows(es), text_ref_keys(unplaced_rows(es)), text_ref_views(s.unplaced_texts@))
    &&& sorted_as(dimension_rows(es), dimension_keys(dimension_rows(es)), dimension_views(s.dimensions@))
    &&& s.extents.len() == space_blocks(d.blocks@).len()
    &&& forall|k: int| 0 <= k < s.extents.len() ==> covers(#[trigger] s.extents[k], space_blocks(d.blocks@)[k])
    &&& s.confidence == lowest_confidence(es)
    &&& s.warnings@ == d.warnings@
}

/// The summary of `d`. The input is never modified; the same drawing gives
/// the same summary, in the same order.
pub fn summarize(d: &Drawing) -> (s: Summary)
    ensures
        summarizes(s, *d),
{
    Summary {
        entity_count: d.entities.len(),
        by_type: count_by_type(&d.entities),
        layers: summarize_layers(&d.layers, &d.entities),
        blocks: summarize_blocks(&d.blocks, &d.entities),
        attributes: collect_attributes(&d.entities),
        labelled_texts: pair_texts(&d.entities),
        unplaced_texts: unplaced_texts(&d.entities),
        dimensions: collect_dimensions(&d.entities),
        extents: space_extents(d),
        confidence: lowest(&d.entities),
        warnings: copy_strings(&d.warnings),
    }
}

/// The plain values of the attributes tagged `tag`, in order.
pub open spec fn tagged_values(attributes: Seq<AttributeValue>, tag: Seq<char>) -> Seq<Seq<char>>
    decreases attributes.len(),
{
    if attributes.len() == 0 {
        Seq::empty()
    } else {
        let a = attributes.last();
        tagged_values(attributes.drop_last(), tag) + if a.tag@ == tag {
            seq![a.plain@]
        } else {
            Seq::empty()
        }
    }
}

/// The plain values of the pairs whose label reads `label` as plain text,
/// in order.
pub open spec fn labelled_values(pairs: Seq<LabelledText>, label: Seq<char>) -> Seq<Seq<char>>
    decreases pairs.len(),
{
    if pairs.len() == 0 {
        Seq::empty()
    } else {
        let p = pairs.last();
        labelled_values(pairs.drop_last(), label) + if p.label.plain@ == label {
            seq![p.value.plain@]
        } else {
            Seq::empty()
        }
    }
}

impl Summary {
    /// The value of the attribute `tag` across the drawing's block
    /// references, as plain text: one distinct value, none, or several (all
    /// listed).
    pub fn attribute(&self, tag: &str) -> (r: Lookup<&str>)
        ensures
            answers(tagged_values(self.attributes@, tag@), r),
    {
        let mut values: Vec<&str> = Vec::new();
        let mut i: usize = 0;
        while i < self.attributes.len()
            invariant
                i <= self.attributes.len(),
                str_views(values@) == tagged_values(self.attributes@.subrange(0, i as int), tag@),
            decreases self.attributes.len() - i,
        {
            let a = &self.attributes[i];
            assert(self.attributes@.subrange(0, i + 1).drop_last() =~= self.attributes@.subrange(0, i as int));
            let ghost old_values = values@;
            if str_eq(a.tag.as_str(), tag) {
                values.push(a.plain.as_str());
                assert(str_views(values@) =~= str_views(old_values).push(a.plain@));
            }
            assert(str_views(values@) =~= tagged_values(self.attributes@.subrange(0, i + 1), tag@));
            i = i + 1;
        }
        assert(self.attributes@.subrange(0, self.attributes.len() as int) =~= self.attributes@);
        lookup(values)
    }

    /// The value next to the loose text that reads `label`, likewise: the
    /// label is matched, and the value returned, as plain text.
    pub fn labelled(&self, label: &str) -> (r: Lookup<&str>)
        ensures
            answers(labelled_values(self.labelled_texts@, label@), r),
    {
        let mut values: Vec<&str> = Vec::new();
        let mut i: usize = 0;
        while i < self.labelled_texts.len()
            invariant
                i <= self.labelled_texts.len(),
                str_views(values@) == labelled_values(self.labelled_texts@.subrange(0, i as int), label@),
            decreases self.labelled_texts.len() - i,
        {
            let p = &self.labelled_texts[i];
            assert(self.labelled_texts@.subrange(0, i + 1).drop_last() =~= self.labelled_texts@.subrange(0, i as int));
            let ghost old_values = values@;
            if str_eq(p.label.plain.as_str(), label) {
                values.push(p.value.plain.as_str());
                assert(str_views(values@) =~= str_views(old_values).push(p.value.plain@));
            }
            assert(str_views(values@) =~= labelled_values(self.labelled_texts@.subrange(0, i + 1), label@));
            i = i + 1;
        }
        assert(self.labelled_texts@.subrange(0, self.labelled_texts.len() as int) =~= self.labelled_texts@);
        lookup(values)
    }
}

/// A [`Summary`] as plain values: what two summaries must agree on to be
/// the same summary.
pub struct SummaryView {
    pub entity_count: usize,
    pub by_type: Seq<(Seq<char>, usize)>,
    pub layers: Seq<(Seq<char>, i16, usize)>,
    pub blocks: Seq<(Seq<char>, usize, usize)>,
    pub attributes: Seq<AttributeView>,
    pub labelled_texts: Seq<LabelledView>,
    pub unplaced_texts: Seq<TextRefView>,
    pub dimensions: Seq<DimensionView>,
    pub extents: Seq<(Seq<char>, Option<Bounds>, Seq<Seq<char>>)>,
    pub confidence: Confidence,
    pub warnings: Seq<String>,
}

impl View for Summary {
    type V = SummaryView;

    open spec fn view(&self) -> SummaryView {
        SummaryView {
            entity_count: self.entity_count,
            by_type: self.by_type@.map_values(|c: TypeCount| (c.entity_type@, c.count)),
            layers: self.layers@.map_values(|l: LayerSummary| (l.name@, l.color_index, l.entity_count)),
            blocks: self.blocks@.map_values(|b: BlockSummary| (b.name@, b.entity_count, b.insert_count)),
            attributes: attribute_views(self.attributes@),
            labelled_texts: pair_views(self.labelled_texts@),
            unplaced_texts: text_ref_views(self.unplaced_texts@),
            dimensions: dimension_views(self.dimensions@),
            extents: self.extents@.map_values(
                |e: SpaceExtent| (e.space@, e.bounds, e.not_measured@.map_values(|n: String| n@)),
            ),
            confidence: self.confidence,
            warnings: self.warnings@,
        }
    }
}

/// The same drawing gives the same summary, in the same order: whatever
/// meets the contract of [`summarize`] for a drawing is one summary.
#[verifier::spinoff_prover]
pub proof fn lemma_summary_is_determined(d: Drawing, s1: Summary, s2: Summary)
    requires
        summarizes(s1, d),
        summarizes(s2, d),
    ensures
        s1@ == s2@,
{
    let es = d.entities@;
    let n1 = s1.by_type@.map_values(|c: TypeCount| c.entity_type@);
    let n2 = s2.by_type@.map_values(|c: TypeCount| c.entity_type@);
    lemma_strictly_sorted_unique(n1, n2);
    assert(n1.len() == s1.by_type.len() && n2.len() == s2.by_type.len());
    assert forall|k: int| 0 <= k < s1.by_type.len() implies s1.by_type[k].count == s2.by_type[k].count by {
        assert(n1[k] == n2[k]);
        assert(n1[k] == s1.by_type@[k].entity_type@);
        assert(n2[k] == s2.by_type@[k].entity_type@);
        assert(s1.by_type@[k].count == count_of(entity_types(es), n1[k]));
        assert(s2.by_type@[k].count == count_of(entity_types(es), n2[k]));
        assert(s1@.by_type[k] == s2@.by_type[k]);
    }
    assert(s1@.by_type =~= s2@.by_type);
    assert(s1@.layers =~= s2@.layers);
    assert(s1@.blocks =~= s2@.blocks);
    lemma_sorted_as_unique(attribute_rows(es), attribute_keys(attribute_rows(es)), s1@.attributes, s2@.attributes);
    lemma_sorted_as_unique(
        pair_rows(es, es.len() as int),
        pair_keys(pair_rows(es, es.len() as int)),
        s1@.labelled_texts,
        s2@.labelled_texts,
    );
    lemma_sorted_as_unique(unplaced_rows(es), text_ref_keys(unplaced_rows(es)), s1@.unplaced_texts, s2@.unplaced_texts);
    lemma_sorted_as_unique(dimension_rows(es), dimension_keys(dimension_rows(es)), s1@.dimensions, s2@.dimensions);
    let spaces = space_blocks(d.blocks@);
    assert forall|k: int| 0 <= k < s1.extents.len() implies s1@.extents[k] == s2@.extents[k] by {
        assert(covers(s1.extents[k], spaces[k]));
        assert(covers(s2.extents[k], spaces[k]));
        lemma_strictly_sorted_unique(
            s1.extents[k].not_measured@.map_values(|n: String| n@),
            s2.extents[k].not_measured@.map_values(|n: String| n@),
        );
    }
    assert(s1@.extents =~= s2@.extents);
}

proof fn lemma_lowest_is_lowest(es: Seq<DrawingEntity>)
    ensures
        forall|i: int| 0 <= i < es.len() ==> rank(lowest_confidence(es)) <= rank(#[trigger] es[i].confidence),
        es.len() == 0 ==> lowest_confidence(es) == Confidence::High,
        es.len() > 0 ==> exists|i: int| 0 <= i < es.len() && lowest_confidence(es) == #[trigger] es[i].confidence,
    decreases es.len(),
{
    if es.len() > 0 {
        let rest = es.drop_last();
        lemma_lowest_is_lowest(rest);
        assert forall|i: int| 0 <= i < es.len() implies rank(lowest_confidence(es)) <= rank(
            #[trigger] es[i].confidence,
        ) by {
            if i < es.len() - 1 {
                assert(es[i] == rest[i]);
            }
        }
        if rest.len() > 0 && lowest_confidence(es) != es.last().confidence {
            let i = choose|i: int| 0 <= i < rest.len() && lowest_confidence(rest) == #[trigger] rest[i].confidence;
            assert(es[i] == rest[i]);
        } else {
            assert(es[es.len() - 1] == es.last());
        }
    }
}

/// A summary never carries a higher confidence than the entities it was
/// made from: its confidence is the lowest of any top-level entity's, and
/// `High` only for a drawing with none or whose entities are all `High`.
pub proof fn lemma_summary_confidence_is_lowest(d: Drawing, s: Summary)
    requires
        summarizes(s, d),
    ensures
        forall|i: int| 0 <= i < d.entities.len() ==> rank(s.confidence) <= rank(#[trigger] d.entities[i].confidence),
        d.entities.len() == 0 ==> s.confidence == Confidence::High,
        d.entities.len() > 0 ==> exists|i: int|
            0 <= i < d.entities.len() && s.confidence == #[trigger] d.entities[i].confidence,
{
    lemma_lowest_is_lowest(d.entities@);
}

proof fn lemma_attribute_rows_carried(es: Seq<DrawingEntity>, j: int)
    requires
        0 <= j < attribute_rows(es).len(),
    ensures
        exists|i: int, m: int|
            0 <= i < es.len() && 0 <= m < attributes_of(es[i]).len() && attribute_rows(es)[j] == #[trigger] attributes_of(
                es[i],
            )[m],
    decreases es.len(),
{
    let rest = es.drop_last();
    let rows = attribute_rows(rest);
    if j < rows.len() {
        lemma_attribute_rows_carried(rest, j);
        let (i, m) = choose|i: int, m: int|
            0 <= i < rest.len() && 0 <= m < attributes_of(rest[i]).len() && rows[j] == #[trigger] attributes_of(
                rest[i],
            )[m];
        assert(es[i] == rest[i]);
        assert(attribute_rows(es)[j] == attributes_of(es[i])[m]);
    } else {
        let i = es.len() - 1;
        let m = j - rows.len();
        assert(es[i] == es.last());
        assert(attribute_rows(es)[j] == attributes_of(es[i])[m]);
    }
}

proof fn lemma_attribute_confidence(e: DrawingEntity, m: int)
    requires
        0 <= m < attributes_of(e).len(),
    ensures
        e.data is Insert,
        attributes_of(e)[m].insert == e.id,
        rank(attributes_of(e)[m].confidence) <= rank(e.confidence),
        rank(attributes_of(e)[m].confidence) <= rank(e.data->attribs@[m].confidence),
        attributes_of(e)[m].id == e.data->attribs@[m].id,
{
}

/// `a` is attribute `m` of top-level entity `i`, a block reference, and is
/// trusted no more than either.
pub open spec fn attribute_carried_at(d: Drawing, a: AttributeValue, i: int, m: int) -> bool {
    &&& 0 <= i < d.entities.len()
    &&& d.entities[i].data is Insert
    &&& 0 <= m < d.entities[i].data->attribs.len()
    &&& a@ == attributes_of(d.entities[i])[m]
    &&& a.insert == d.entities[i].id
    &&& a.id == d.entities[i].data->attribs[m].id
    &&& rank(a.confidence) <= rank(d.entities[i].confidence)
    &&& rank(a.confidence) <= rank(d.entities[i].data->attribs[m].confidence)
}

/// `a` is an attribute value a top-level block reference carries, trusted
/// no more than the reference or the attribute.
pub open spec fn carried_attribute(d: Drawing, a: AttributeValue) -> bool {
    exists|i: int, m: int| attribute_carried_at(d, a, i, m)
}

/// Every attribute value the summary lists is one a top-level block
/// reference carries, and is trusted no more than the reference or the
/// attribute itself.
pub proof fn lemma_attributes_not_raised(d: Drawing, s: Summary)
    requires
        summarizes(s, d),
    ensures
        forall|k: int| 0 <= k < s.attributes.len() ==> carried_attribute(d, #[trigger] s.attributes[k]),
{
    lemma_listed_attributes_carried(d, s.attributes@);
}

/// The attribute values listed in any order that sorts the rows of `d`'s
/// entities are each carried by a top-level block reference.
#[verifier::spinoff_prover]
proof fn lemma_listed_attributes_carried(d: Drawing, listed: Seq<AttributeValue>)
    requires
        sorted_as(attribute_rows(d.entities@), attribute_keys(attribute_rows(d.entities@)), attribute_views(listed)),
    ensures
        forall|k: int| 0 <= k < listed.len() ==> carried_attribute(d, #[trigger] listed[k]),
{
    let es = d.entities@;
    let rows = attribute_rows(es);
    let order = choose|o: Seq<usize>| is_stable_order(attribute_keys(rows), o) && attribute_views(listed) == arrange(rows, o);
    assert(is_stable_order(attribute_keys(rows), order) && attribute_views(listed) == arrange(rows, order));
    assert(order.len() == listed.len());
    assert forall|k: int| 0 <= k < listed.len() implies carried_attribute(d, #[trigger] listed[k]) by {
        assert(attribute_views(listed)[k] == listed[k]@);
        let j = order[k] as int;
        assert(order[k] < attribute_keys(rows).len());
        assert(arrange(rows, order)[k] == rows[j]);
        assert(listed[k]@ == rows[j]);
        lemma_attribute_rows_carried(es, j);
        let (i, m) = choose|i: int, m: int|
            0 <= i < es.len() && 0 <= m < attributes_of(es[i]).len() && rows[j] == #[trigger] attributes_of(es[i])[m];
        lemma_attribute_confidence(es[i], m);
        assert(es[i] == d.entities[i]);
        assert(attributes_of(d.entities[i])[m] == rows[j]);
        assert(listed[k].insert == d.entities[i].id);
        assert(attribute_carried_at(d, listed[k], i, m));
    }
}

proof fn lemma_chosen_pairs_from(
    es: Seq<DrawingEntity>,
    l: DrawingEntity,
    row: Seq<RowCandidate>,
    gap: u64,
    j: int,
)
    requires
        0 <= j < chosen_pairs(es, l, row, gap).len(),
    ensures
        exists|v: int|
            0 <= v < es.len() && placed_text(es, v) && es[v].id != l.id && chosen_pairs(es, l, row, gap)[j]
                == #[trigger] pair_of(l, es[v]),
    decreases row.len(),
{
    let rest = chosen_pairs(es, l, row.drop_last(), gap);
    if j < rest.len() {
        lemma_chosen_pairs_from(es, l, row.drop_last(), gap, j);
    } else {
        let c = row.last();
        assert(chosen_pairs(es, l, row, gap)[j] == pair_of(l, es[c.text as int]));
    }
}

proof fn lemma_pair_rows_from(es: Seq<DrawingEntity>, n: int, j: int)
    requires
        0 <= n <= es.len(),
        0 <= j < pair_rows(es, n).len(),
    ensures
        exists|i: int, v: int|
            0 <= i < es.len() && 0 <= v < es.len() && placed_text(es, i) && placed_text(es, v) && es[i].id
                != es[v].id && pair_rows(es, n)[j] == #[trigger] pair_of(es[i], es[v]),
    decreases n,
{
    let rest = pair_rows(es, n - 1);
    if j < rest.len() {
        lemma_pair_rows_from(es, n - 1, j);
    } else {
        let i = n - 1;
        let pairs = label_pairs(es, i);
        assert(pair_rows(es, n)[j] == pairs[j - rest.len()]);
        assert(placed_text(es, i));
        let g = nearest_gap(es, es[i].id, row_of(es[i]))->0;
        lemma_chosen_pairs_from(es, es[i], row_of(es[i]), g, j - rest.len());
    }
}

/// Every pair the summary lists is two different placed loose texts of the
/// drawing, and a pair is trusted no more than either of its texts: a
/// low-confidence text lowers its own pairs only.
#[verifier::spinoff_prover]
pub proof fn lemma_pairs_not_raised(d: Drawing, s: Summary)
    requires
        summarizes(s, d),
    ensures
        forall|k: int| 0 <= k < s.labelled_texts.len() ==> exists|i: int, v: int| {
            &&& 0 <= i < d.entities.len()
            &&& 0 <= v < d.entities.len()
            &&& placed_text(d.entities@, i)
            &&& placed_text(d.entities@, v)
            &&& d.entities[i].id != d.entities[v].id
            &&& #[trigger] s.labelled_texts[k]@ == pair_of(d.entities[i], d.entities[v])
            &&& rank(s.labelled_texts[k].confidence) <= rank(d.entities[i].confidence)
            &&& rank(s.labelled_texts[k].confidence) <= rank(d.entities[v].confidence)
        },
{
    let es = d.entities@;
    let rows = pair_rows(es, es.len() as int);
    assert(sorted_as(rows, pair_keys(rows), pair_views(s.labelled_texts@)));
    let order = choose|o: Seq<usize>| is_stable_order(pair_keys(rows), o) && pair_views(s.labelled_texts@) == arrange(rows, o);
    assert(is_stable_order(pair_keys(rows), order) && pair_views(s.labelled_texts@) == arrange(rows, order));
    assert(arrange(rows, order).len() == order.len());
    assert(pair_views(s.labelled_texts@).len() == s.labelled_texts.len());
    assert forall|k: int| 0 <= k < s.labelled_texts.len() implies exists|i: int, v: int| {
        &&& 0 <= i < d.entities.len()
        &&& 0 <= v < d.entities.len()
        &&& placed_text(d.entities@, i)
        &&& placed_text(d.entities@, v)
        &&& d.entities[i].id != d.entities[v].id
        &&& #[trigger] s.labelled_texts[k]@ == pair_of(d.entities[i], d.entities[v])
        &&& rank(s.labelled_texts[k].confidence) <= rank(d.entities[i].confidence)
        &&& rank(s.labelled_texts[k].confidence) <= rank(d.entities[v].confidence)
    } by {
        assert(pair_views(s.labelled_texts@)[k] == s.labelled_texts@[k]@);
        let j = order[k] as int;
        assert(order[k] < pair_keys(rows).len());
        assert(arrange(rows, order)[k] == rows[j]);
        assert(s.labelled_texts@[k]@ == rows[j]);
        lemma_pair_rows_from(es, es.len() as int, j);
    }
}

/// A lookup never picks: when the carriers hold two different values, the
/// answer is `Ambiguous` and lists both.
pub proof fn lemma_lookup_never_picks(values: Seq<Seq<char>>, r: Lookup<&str>, a: Seq<char>, b: Seq<char>)
    requires
        answers(values, r),
        values.contains(a),
        values.contains(b),
        a != b,
    ensures
        r is Ambiguous,
        str_views(r->Ambiguous_0@).contains(a),
        str_views(r->Ambiguous_0@).contains(b),
{
    assert(values.to_set().contains(a));
    assert(values.to_set().contains(b));
    match r {
        Lookup::Absent => {
            let i = choose|i: int| 0 <= i < values.len() && values[i] == a;
        },
        Lookup::Unique(v) => {
            assert(set![v@].contains(a));
            assert(set![v@].contains(b));
        },
        Lookup::Ambiguous(all) => {
            assert(str_views(all@).to_set().contains(a));
            assert(str_views(all@).to_set().contains(b));
        },
    }
}

/// A unique answer is the value of every carrier.
pub proof fn lemma_lookup_unique_is_every_value(values: Seq<Seq<char>>, v: &str)
    requires
        answers(values, Lookup::Unique(v)),
    ensures
        values.len() > 0,
        forall|i: int| 0 <= i < values.len() ==> #[trigger] values[i] == v@,
{
    assert(set![v@].contains(v@));
    assert(values.to_set().contains(v@));
    assert forall|i: int| 0 <= i < values.len() implies #[trigger] values[i] == v@ by {
        assert(values.to_set().contains(values[i]));
    }
}

proof fn lemma_unplaced_rows_keep(es: Seq<DrawingEntity>, i: int)
    requires
        0 <= i < es.len(),
        es[i].data matches EntityData::Text { placement: TextPlacement::Tilted, .. },
    ensures
        unplaced_rows(es).contains(text_ref_of(es[i].id, text_of(es[i]))),
    decreases es.len(),
{
    let rest = unplaced_rows(es.drop_last());
    if i < es.len() - 1 {
        lemma_unplaced_rows_keep(es.drop_last(), i);
        assert(es.drop_last()[i] == es[i]);
        let k = choose|k: int| 0 <= k < rest.len() && rest[k] == text_ref_of(es[i].id, text_of(es[i]));
        assert(unplaced_rows(es)[k] == rest[k]);
    } else {
        assert(es.last() == es[i]);
        assert(unplaced_rows(es)[rest.len() as int] == text_ref_of(es[i].id, text_of(es[i])));
    }
}

/// A loose text written on a tilted plane is never silently absent: it is
/// listed among the unplaced texts, as written and as plain text.
pub proof fn lemma_tilted_texts_are_listed(d: Drawing, s: Summary, i: int)
    requires
        summarizes(s, d),
        0 <= i < d.entities.len(),
        d.entities[i].data matches EntityData::Text { placement: TextPlacement::Tilted, .. },
    ensures
        text_ref_views(s.unplaced_texts@).contains(text_ref_of(d.entities[i].id, text_of(d.entities[i]))),
{
    let es = d.entities@;
    lemma_unplaced_rows_keep(es, i);
    let rows = unplaced_rows(es);
    let k = choose|k: int| 0 <= k < rows.len() && rows[k] == text_ref_of(es[i].id, text_of(es[i]));
    lemma_sorted_as_keeps(rows, text_ref_keys(rows), text_ref_views(s.unplaced_texts@), k);
}

proof fn lemma_dimension_rows_keep(es: Seq<DrawingEntity>, i: int)
    requires
        0 <= i < es.len(),
        es[i].data is Dimension,
    ensures
        dimension_rows(es).contains(dimension_of(es[i])[0]),
    decreases es.len(),
{
    let rest = dimension_rows(es.drop_last());
    if i < es.len() - 1 {
        lemma_dimension_rows_keep(es.drop_last(), i);
        assert(es.drop_last()[i] == es[i]);
        let k = choose|k: int| 0 <= k < rest.len() && rest[k] == dimension_of(es[i])[0];
        assert(dimension_rows(es)[k] == rest[k]);
    } else {
        assert(es.last() == es[i]);
        assert(dimension_rows(es)[rest.len() as int] == dimension_of(es[i])[0]);
    }
}

/// Every dimension of the drawing is listed, as the file states it: its
/// kind, measurement, text (a literal also as plain text), the middle of
/// its text, its style, and its own confidence.
pub proof fn lemma_every_dimension_is_listed(d: Drawing, s: Summary, i: int)
    requires
        summarizes(s, d),
        0 <= i < d.entities.len(),
        d.entities[i].data is Dimension,
    ensures
        dimension_views(s.dimensions@).contains(dimension_of(d.entities[i])[0]),
{
    let es = d.entities@;
    lemma_dimension_rows_keep(es, i);
    let rows = dimension_rows(es);
    let k = choose|k: int| 0 <= k < rows.len() && rows[k] == dimension_of(es[i])[0];
    lemma_sorted_as_keeps(rows, dimension_keys(rows), dimension_views(s.dimensions@), k);
}

proof fn lemma_chosen_pairs_keep(es: Seq<DrawingEntity>, l: DrawingEntity, row: Seq<RowCandidate>, gap: u64, m: int)
    requires
        0 <= m < row.len(),
        eligible(es, l.id, row[m]),
        row[m].gap == gap,
    ensures
        chosen_pairs(es, l, row, gap).contains(pair_of(l, es[row[m].text as int])),
    decreases row.len(),
{
    let rest = chosen_pairs(es, l, row.drop_last(), gap);
    if m < row.len() - 1 {
        lemma_chosen_pairs_keep(es, l, row.drop_last(), gap, m);
        assert(row.drop_last()[m] == row[m]);
        let k = choose|k: int| 0 <= k < rest.len() && rest[k] == pair_of(l, es[row[m].text as int]);
        assert(chosen_pairs(es, l, row, gap)[k] == rest[k]);
    } else {
        assert(chosen_pairs(es, l, row, gap)[rest.len() as int] == pair_of(l, es[row[m].text as int]));
    }
}

proof fn lemma_pair_rows_keep(es: Seq<DrawingEntity>, n: int, i: int, p: LabelledView)
    requires
        0 <= i < n <= es.len(),
        label_pairs(es, i).contains(p),
    ensures
        pair_rows(es, n).contains(p),
    decreases n,
{
    let rest = pair_rows(es, n - 1);
    if i < n - 1 {
        lemma_pair_rows_keep(es, n - 1, i, p);
        let k = choose|k: int| 0 <= k < rest.len() && rest[k] == p;
        assert(pair_rows(es, n)[k] == p);
    } else {
        let k = choose|k: int| 0 <= k < label_pairs(es, i).len() && label_pairs(es, i)[k] == p;
        assert(pair_rows(es, n)[rest.len() + k] == p);
    }
}

/// Texts equally near a label are all listed, none picked: every eligible
/// text at the nearest distance to the right of a placed label is paired
/// with it.
pub proof fn lemma_nearest_texts_are_all_paired(d: Drawing, s: Summary, i: int, m: int)
    requires
        summarizes(s, d),
        placed_text(d.entities@, i),
        0 <= m < row_of(d.entities[i]).len(),
        eligible(d.entities@, d.entities[i].id, row_of(d.entities[i])[m]),
        nearest_gap(d.entities@, d.entities[i].id, row_of(d.entities[i])) == Some(row_of(d.entities[i])[m].gap),
    ensures
        pair_views(s.labelled_texts@).contains(
            pair_of(d.entities[i], d.entities[row_of(d.entities[i])[m].text as int]),
        ),
{
    let es = d.entities@;
    let row = row_of(es[i]);
    let p = pair_of(es[i], es[row[m].text as int]);
    lemma_chosen_pairs_keep(es, es[i], row, row[m].gap, m);
    lemma_pair_rows_keep(es, es.len() as int, i, p);
    let rows = pair_rows(es, es.len() as int);
    let k = choose|k: int| 0 <= k < rows.len() && rows[k] == p;
    lemma_sorted_as_keeps(rows, pair_keys(rows), pair_views(s.labelled_texts@), k);
}

/// How many of `types` are in `names`.
pub open spec fn count_in(types: Seq<Seq<char>>, names: Set<Seq<char>>) -> nat
    decreases types.len(),
{
    if types.len() == 0 {
        0
    } else {
        count_in(types.drop_last(), names) + if names.contains(types.last()) {
            1nat
        } else {
            0nat
        }
    }
}

/// The counts of `counts`, added up.
pub open spec fn total_count(counts: Seq<TypeCount>) -> nat
    decreases counts.len(),
{
    if counts.len() == 0 {
        0
    } else {
        total_count(counts.drop_last()) + counts.last().count as nat
    }
}

proof fn lemma_count_in_all(types: Seq<Seq<char>>, names: Set<Seq<char>>)
    requires
        forall|i: int| 0 <= i < types.len() ==> names.contains(#[trigger] types[i]),
    ensures
        count_in(types, names) == types.len(),
    decreases types.len(),
{
    if types.len() > 0 {
        let rest = types.drop_last();
        assert forall|i: int| 0 <= i < rest.len() implies names.contains(#[trigger] rest[i]) by {
            assert(rest[i] == types[i]);
        }
        lemma_count_in_all(rest, names);
        assert(names.contains(types[types.len() - 1]));
    }
}

proof fn lemma_count_in_empty(types: Seq<Seq<char>>)
    ensures
        count_in(types, Set::empty()) == 0,
    decreases types.len(),
{
    if types.len() > 0 {
        lemma_count_in_empty(types.drop_last());
    }
}

proof fn lemma_count_in_insert(types: Seq<Seq<char>>, names: Set<Seq<char>>, x: Seq<char>)
    requires
        !names.contains(x),
    ensures
        count_in(types, names.insert(x)) == count_in(types, names) + count_of(types, x),
    decreases types.len(),
{
    if types.len() > 0 {
        lemma_count_in_insert(types.drop_last(), names, x);
    }
}

proof fn lemma_total_is_count_in(counts: Seq<TypeCount>, types: Seq<Seq<char>>)
    requires
        strictly_sorted(counts.map_values(|c: TypeCount| c.entity_type@)),
        forall|k: int| 0 <= k < counts.len() ==> #[trigger] counts[k].count == count_of(
            types,
            counts[k].entity_type@,
        ),
    ensures
        total_count(counts) == count_in(types, counts.map_values(|c: TypeCount| c.entity_type@).to_set()),
    decreases counts.len(),
{
    let names = counts.map_values(|c: TypeCount| c.entity_type@);
    if counts.len() == 0 {
        assert(names.to_set() =~= Set::<Seq<char>>::empty());
        lemma_count_in_empty(types);
    } else {
        let rest = counts.drop_last();
        let rest_names = rest.map_values(|c: TypeCount| c.entity_type@);
        let last = counts.last();
        assert(rest_names =~= names.drop_last());
        assert forall|k: int, l: int| 0 <= k < l < rest_names.len() implies chars_lt(
            #[trigger] rest_names[k],
            #[trigger] rest_names[l],
        ) by {
            assert(names[k] == rest_names[k] && names[l] == rest_names[l]);
        }
        assert forall|k: int| 0 <= k < rest.len() implies #[trigger] rest[k].count == count_of(
            types,
            rest[k].entity_type@,
        ) by {
            assert(rest[k] == counts[k]);
        }
        lemma_total_is_count_in(rest, types);
        lemma_chars_lt_order();
        if rest_names.to_set().contains(last.entity_type@) {
            let k = choose|k: int| 0 <= k < rest_names.len() && rest_names[k] == last.entity_type@;
            assert(chars_lt(names[k], names[names.len() - 1]));
        }
        assert(names =~= rest_names.push(last.entity_type@));
        rest_names.lemma_push_to_set_commute(last.entity_type@);
        lemma_count_in_insert(types, rest_names.to_set(), last.entity_type@);
        assert(counts[counts.len() - 1].count == count_of(types, last.entity_type@));
    }
}

/// Nothing is silently dropped from the counts by type: they add up to the
/// number of top-level entities.
pub proof fn lemma_type_counts_cover_every_entity(d: Drawing, s: Summary)
    requires
        summarizes(s, d),
    ensures
        total_count(s.by_type@) == s.entity_count,
{
    let types = entity_types(d.entities@);
    let names = s.by_type@.map_values(|c: TypeCount| c.entity_type@);
    assert forall|k: int| 0 <= k < s.by_type.len() implies #[trigger] s.by_type@[k].count == count_of(
        types,
        s.by_type@[k].entity_type@,
    ) by {
        assert(names[k] == s.by_type@[k].entity_type@);
    }
    lemma_total_is_count_in(s.by_type@, types);
    assert forall|i: int| 0 <= i < types.len() implies names.to_set().contains(#[trigger] types[i]) by {
        assert(types.to_set().contains(types[i]));
    }
    lemma_count_in_all(types, names.to_set());
}

proof fn lemma_listed_blocks_in_order(bs: Seq<BlockDef>)
    requires
        strictly_sorted(block_names(bs)),
    ensures
        strictly_sorted(block_names(listed_blocks(bs))),
        forall|i: int| 0 <= i < listed_blocks(bs).len() ==> exists|j: int| 0 <= j < bs.len() && #[trigger] listed_blocks(bs)[i] == bs[j],
    decreases bs.len(),
{
    if bs.len() > 0 {
        let rest = bs.drop_last();
        assert(block_names(rest) =~= block_names(bs).drop_last());
        lemma_listed_blocks_in_order(rest);
        let l = listed_blocks(bs);
        let lr = listed_blocks(rest);
        assert forall|i: int| 0 <= i < l.len() implies exists|j: int| 0 <= j < bs.len() && #[trigger] l[i] == bs[j] by {
            if i < lr.len() {
                let j = choose|j: int| 0 <= j < rest.len() && lr[i] == rest[j];
                assert(l[i] == bs[j]);
            } else {
                assert(l[i] == bs[bs.len() - 1]);
            }
        }
        if !is_space_name(bs.last().name@) {
            assert forall|k: int, m: int| 0 <= k < m < l.len() implies chars_lt(
                #[trigger] block_names(l)[k],
                #[trigger] block_names(l)[m],
            ) by {
                if m < lr.len() {
                    assert(block_names(lr)[k] == block_names(l)[k] && block_names(lr)[m] == block_names(l)[m]);
                } else {
                    let j = choose|j: int| 0 <= j < rest.len() && lr[k] == rest[j];
                    assert(block_names(bs)[j] == block_names(l)[k]);
                    assert(block_names(bs)[bs.len() - 1] == block_names(l)[m]);
                }
            }
        }
    }
}

proof fn lemma_space_blocks_in_order(bs: Seq<BlockDef>)
    requires
        strictly_sorted(block_names(bs)),
    ensures
        strictly_sorted(block_names(space_blocks(bs))),
        forall|i: int| 0 <= i < space_blocks(bs).len() ==> exists|j: int| 0 <= j < bs.len() && #[trigger] space_blocks(bs)[i] == bs[j],
    decreases bs.len(),
{
    if bs.len() > 0 {
        let rest = bs.drop_last();
        assert(block_names(rest) =~= block_names(bs).drop_last());
        lemma_space_blocks_in_order(rest);
        let l = space_blocks(bs);
        let lr = space_blocks(rest);
        assert forall|i: int| 0 <= i < l.len() implies exists|j: int| 0 <= j < bs.len() && #[trigger] l[i] == bs[j] by {
            if i < lr.len() {
                let j = choose|j: int| 0 <= j < rest.len() && lr[i] == rest[j];
                assert(l[i] == bs[j]);
            } else {
                assert(l[i] == bs[bs.len() - 1]);
            }
        }
        if is_space_record(bs.last().name@) {
            assert forall|k: int, m: int| 0 <= k < m < l.len() implies chars_lt(
                #[trigger] block_names(l)[k],
                #[trigger] block_names(l)[m],
            ) by {
                if m < lr.len() {
                    assert(block_names(lr)[k] == block_names(l)[k] && block_names(lr)[m] == block_names(l)[m]);
                } else {
                    let j = choose|j: int| 0 <= j < rest.len() && lr[k] == rest[j];
                    assert(block_names(bs)[j] == block_names(l)[k]);
                    assert(block_names(bs)[bs.len() - 1] == block_names(l)[m]);
                }
            }
        }
    }
}

/// A drawing whose layers and blocks come in name order, each name once,
/// is summarized in name order: its layers, its block definitions and its
/// spaces, each name once.
pub proof fn lemma_summary_in_name_order(d: Drawing, s: Summary)
    requires
        summarizes(s, d),
        names_in_order(d),
    ensures
        strictly_sorted(s.layers@.map_values(|l: LayerSummary| l.name@)),
        strictly_sorted(s.blocks@.map_values(|b: BlockSummary| b.name@)),
        strictly_sorted(s.extents@.map_values(|e: SpaceExtent| e.space@)),
{
    let ln = s.layers@.map_values(|l: LayerSummary| l.name@);
    assert forall|k: int| 0 <= k < ln.len() implies #[trigger] ln[k] == layer_names(d.layers@)[k] by {
        assert(layer_summarized(s.layers[k], d.layers[k], d.entities@));
    }
    assert(ln =~= layer_names(d.layers@));
    lemma_listed_blocks_in_order(d.blocks@);
    let bn = s.blocks@.map_values(|b: BlockSummary| b.name@);
    let listed = listed_blocks(d.blocks@);
    assert forall|k: int| 0 <= k < bn.len() implies #[trigger] bn[k] == block_names(listed)[k] by {
        assert(block_summarized(s.blocks[k], listed[k], d.entities@));
    }
    assert(bn =~= block_names(listed));
    lemma_space_blocks_in_order(d.blocks@);
    let en = s.extents@.map_values(|e: SpaceExtent| e.space@);
    let spaces = space_blocks(d.blocks@);
    assert forall|k: int| 0 <= k < en.len() implies #[trigger] en[k] == block_names(spaces)[k] by {
        assert(covers(s.extents[k], spaces[k]));
    }
    assert(en =~= block_names(spaces));
}

proof fn lemma_nearest_gap_is_least(es: Seq<DrawingEntity>, label: u64, row: Seq<RowCandidate>)
    ensures
        nearest_gap(es, label, row) is None ==> forall|c: int|
            0 <= c < row.len() ==> !(placed_text(es, #[trigger] row[c].text as int) && es[row[c].text as int].id
                != label),
        nearest_gap(es, label, row) matches Some(g) ==> {
            &&& forall|c: int|
                0 <= c < row.len() && placed_text(es, row[c].text as int) && es[row[c].text as int].id != label ==> g
                    <= #[trigger] row[c].gap
            &&& exists|c: int|
                0 <= c < row.len() && placed_text(es, row[c].text as int) && es[row[c].text as int].id != label && g
                    == #[trigger] row[c].gap
        },
    decreases row.len(),
{
    if row.len() > 0 {
        let rest = row.drop_last();
        lemma_nearest_gap_is_least(es, label, rest);
        let n = row.len() - 1;
        if nearest_gap(es, label, row) is None {
            assert forall|c: int| 0 <= c < row.len() implies !(placed_text(es, #[trigger] row[c].text as int)
                && es[row[c].text as int].id != label) by {
                if c < n {
                    assert(rest[c] == row[c]);
                }
            }
        }
        if let Some(g) = nearest_gap(es, label, row) {
            assert forall|c: int|
                0 <= c < row.len() && placed_text(es, row[c].text as int) && es[row[c].text as int].id != label implies g
                    <= #[trigger] row[c].gap by {
                if c < n {
                    assert(rest[c] == row[c]);
                }
            }
            match nearest_gap(es, label, rest) {
                Some(r) => {
                    if g == r {
                        let c = choose|c: int|
                            0 <= c < rest.len() && placed_text(es, rest[c].text as int) && es[rest[c].text as int].id
                                != label && r == #[trigger] rest[c].gap;
                        assert(rest[c] == row[c]);
                    } else {
                        assert(g == row[n].gap);
                    }
                },
                None => {
                    assert(g == row[n].gap);
                },
            }
        }
    }
}

proof fn lemma_chosen_pairs_at(es: Seq<DrawingEntity>, l: DrawingEntity, row: Seq<RowCandidate>, gap: u64, j: int)
    requires
        0 <= j < chosen_pairs(es, l, row, gap).len(),
    ensures
        exists|m: int|
            0 <= m < row.len() && row[m].gap == gap && placed_text(es, row[m].text as int) && es[row[m].text as int].id
                != l.id && chosen_pairs(es, l, row, gap)[j] == pair_of(l, es[#[trigger] row[m].text as int]),
    decreases row.len(),
{
    let rest = chosen_pairs(es, l, row.drop_last(), gap);
    if j < rest.len() {
        lemma_chosen_pairs_at(es, l, row.drop_last(), gap, j);
        let m = choose|m: int|
            0 <= m < row.drop_last().len() && row.drop_last()[m].gap == gap && placed_text(
                es,
                row.drop_last()[m].text as int,
            ) && es[row.drop_last()[m].text as int].id != l.id && rest[j] == pair_of(
                l,
                es[#[trigger] row.drop_last()[m].text as int],
            );
        assert(row.drop_last()[m] == row[m]);
    } else {
        let m = row.len() - 1;
        assert(chosen_pairs(es, l, row, gap)[j] == pair_of(l, es[row[m].text as int]));
    }
}

/// Pair `p` is label `i` with its candidate `m`, at the least distance of
/// any placed loose text other than the label on the label's row.
pub open spec fn paired_at_least_gap(es: Seq<DrawingEntity>, p: LabelledView, i: int, m: int) -> bool {
    let row = row_of(es[i]);
    &&& 0 <= i < es.len()
    &&& placed_text(es, i)
    &&& 0 <= m < row.len()
    &&& placed_text(es, row[m].text as int)
    &&& es[row[m].text as int].id != es[i].id
    &&& p.label.id == es[i].id
    &&& p.value.id == es[row[m].text as int].id
    &&& forall|c: int|
        0 <= c < row.len() && placed_text(es, row[c].text as int) && es[row[c].text as int].id != es[i].id
            ==> row[m].gap <= #[trigger] row[c].gap
}

/// Pair `p` is a label of `es` with its nearest candidate.
pub open spec fn nearest_pair(es: Seq<DrawingEntity>, p: LabelledView) -> bool {
    exists|i: int, m: int| paired_at_least_gap(es, p, i, m)
}

proof fn lemma_pair_rows_nearest(es: Seq<DrawingEntity>, n: int, j: int)
    requires
        0 <= n <= es.len(),
        0 <= j < pair_rows(es, n).len(),
    ensures
        nearest_pair(es, pair_rows(es, n)[j]),
    decreases n,
{
    let rest = pair_rows(es, n - 1);
    if j < rest.len() {
        lemma_pair_rows_nearest(es, n - 1, j);
        assert(pair_rows(es, n)[j] == rest[j]);
    } else {
        let i = n - 1;
        let row = row_of(es[i]);
        assert(pair_rows(es, n)[j] == label_pairs(es, i)[j - rest.len()]);
        assert(placed_text(es, i));
        let g = nearest_gap(es, es[i].id, row)->0;
        lemma_nearest_gap_is_least(es, es[i].id, row);
        lemma_chosen_pairs_at(es, es[i], row, g, j - rest.len());
        let m = choose|m: int|
            0 <= m < row.len() && row[m].gap == g && placed_text(es, row[m].text as int) && es[row[m].text as int].id
                != es[i].id && chosen_pairs(es, es[i], row, g)[j - rest.len()] == pair_of(
                es[i],
                es[#[trigger] row[m].text as int],
            );
        assert(paired_at_least_gap(es, pair_rows(es, n)[j], i, m));
    }
}

/// A label's value is the nearest text to its right: every pair the
/// summary lists is a placed loose text and a candidate on its row whose
/// distance is no greater than that of any other placed loose text on
/// that row.
#[verifier::spinoff_prover]
pub proof fn lemma_pairs_take_the_nearest(d: Drawing, s: Summary)
    requires
        summarizes(s, d),
    ensures
        forall|k: int| 0 <= k < s.labelled_texts.len() ==> nearest_pair(d.entities@, #[trigger] s.labelled_texts[k]@),
{
    let es = d.entities@;
    let rows = pair_rows(es, es.len() as int);
    assert(sorted_as(rows, pair_keys(rows), pair_views(s.labelled_texts@)));
    let order = choose|o: Seq<usize>| is_stable_order(pair_keys(rows), o) && pair_views(s.labelled_texts@) == arrange(rows, o);
    assert(is_stable_order(pair_keys(rows), order) && pair_views(s.labelled_texts@) == arrange(rows, order));
    assert(pair_views(s.labelled_texts@).len() == s.labelled_texts.len());
    assert forall|k: int| 0 <= k < s.labelled_texts.len() implies nearest_pair(es, #[trigger] s.labelled_texts[k]@) by {
        assert(pair_views(s.labelled_texts@)[k] == s.labelled_texts@[k]@);
        let j = order[k] as int;
        assert(order[k] < pair_keys(rows).len());
        assert(arrange(rows, order)[k] == rows[j]);
        lemma_pair_rows_nearest(es, es.len() as int, j);
    }
}

/// Every text the summary lists carries its plain text beside it as
/// written: each attribute value's plain text, and each label's and
/// value's, is what the text-reading function reads the text as.
#[verifier::spinoff_prover]
pub proof fn lemma_listed_text_is_read_as_plain_text(d: Drawing, s: Summary)
    requires
        summarizes(s, d),
    ensures
        forall|k: int| 0 <= k < s.attributes.len() ==> #[trigger] s.attributes[k].plain@ == plain_text_of(
            s.attributes[k].value@,
        ),
        forall|k: int| #![trigger s.labelled_texts[k]] 0 <= k < s.labelled_texts.len() ==> {
            &&& s.labelled_texts[k].label.plain@ == plain_text_of(s.labelled_texts[k].label.text@)
            &&& s.labelled_texts[k].value.plain@ == plain_text_of(s.labelled_texts[k].value.text@)
        },
{
    lemma_listed_attributes_carried(d, s.attributes@);
    assert forall|k: int| 0 <= k < s.attributes.len() implies #[trigger] s.attributes[k].plain@ == plain_text_of(
        s.attributes[k].value@,
    ) by {
        assert(carried_attribute(d, s.attributes[k]));
        let (i, m) = choose|i: int, m: int| attribute_carried_at(d, s.attributes[k], i, m);
        let e = d.entities[i];
        assert(attributes_of(e)[m] == attribute_of(e, e.data->block_name, e.data->attribs@[m]));
    }
    lemma_pairs_not_raised(d, s);
    assert forall|k: int| #![trigger s.labelled_texts[k]] 0 <= k < s.labelled_texts.len() implies {
        &&& s.labelled_texts[k].label.plain@ == plain_text_of(s.labelled_texts[k].label.text@)
        &&& s.labelled_texts[k].value.plain@ == plain_text_of(s.labelled_texts[k].value.text@)
    } by {
        let (i, v) = choose|i: int, v: int| {
            &&& 0 <= i < d.entities.len()
            &&& 0 <= v < d.entities.len()
            &&& placed_text(d.entities@, i)
            &&& placed_text(d.entities@, v)
            &&& d.entities[i].id != d.entities[v].id
            &&& #[trigger] s.labelled_texts[k]@ == pair_of(d.entities[i], d.entities[v])
            &&& rank(s.labelled_texts[k].confidence) <= rank(d.entities[i].confidence)
            &&& rank(s.labelled_texts[k].confidence) <= rank(d.entities[v].confidence)
        };
        assert(s.labelled_texts[k]@ == pair_of(d.entities[i], d.entities[v]));
    }
}

/// The number of entities of `entities` that are block references to the
/// block named `name`, whatever else they carry.
pub open spec fn references_to(entities: Seq<DrawingEntity>, name: Seq<char>) -> nat {
    entities.filter(
        |e: DrawingEntity| e.data matches EntityData::Insert { block_name: Ref::Resolved(n), .. } && n@ == name,
    ).len()
}

proof fn lemma_count_inserts_is_references(entities: Seq<DrawingEntity>, name: Seq<char>)
    ensures
        count_inserts_of(entities, name) == references_to(entities, name),
    decreases entities.len(),
{
    reveal(Seq::filter);
    if entities.len() > 0 {
        lemma_count_inserts_is_references(entities.drop_last(), name);
    }
}

/// A block definition's reference count is the number of the drawing's
/// own block references whose reference resolves to its name -- each one,
/// with or without attribute values.
#[verifier::spinoff_prover]
pub proof fn lemma_insert_count_is_every_reference(d: Drawing, s: Summary)
    requires
        summarizes(s, d),
    ensures
        forall|k: int| 0 <= k < s.blocks.len() ==> #[trigger] s.blocks[k].insert_count == references_to(
            d.entities@,
            s.blocks[k].name@,
        ),
        forall|k: int| 0 <= k < s.layers.len() ==> #[trigger] s.layers[k].entity_count == entities_on(
            d.entities@,
            s.layers[k].name@,
        ),
{
    assert forall|k: int| 0 <= k < s.blocks.len() implies #[trigger] s.blocks[k].insert_count == references_to(
        d.entities@,
        s.blocks[k].name@,
    ) by {
        assert(block_summarized(s.blocks[k], listed_blocks(d.blocks@)[k], d.entities@));
        lemma_count_inserts_is_references(d.entities@, s.blocks[k].name@);
    }
    assert forall|k: int| 0 <= k < s.layers.len() implies #[trigger] s.layers[k].entity_count == entities_on(
        d.entities@,
        s.layers[k].name@,
    ) by {
        assert(layer_summarized(s.layers[k], d.layers[k], d.entities@));
        lemma_count_on_layer_is_filter(d.entities@, s.layers[k].name@);
    }
}

/// The number of entities of `entities` whose layer resolves to `name`.
pub open spec fn entities_on(entities: Seq<DrawingEntity>, name: Seq<char>) -> nat {
    entities.filter(|e: DrawingEntity| e.layer matches Ref::Resolved(n) && n@ == name).len()
}

proof fn lemma_count_on_layer_is_filter(entities: Seq<DrawingEntity>, name: Seq<char>)
    ensures
        count_on_layer(entities, name) == entities_on(entities, name),
    decreases entities.len(),
{
    reveal(Seq::filter);
    if entities.len() > 0 {
        lemma_count_on_layer_is_filter(entities.drop_last(), name);
    }
}

proof fn lemma_unplaced_rows_read(es: Seq<DrawingEntity>)
    ensures
        forall|j: int| 0 <= j < unplaced_rows(es).len() ==> #[trigger] unplaced_rows(es)[j].plain == plain_text_of(
            unplaced_rows(es)[j].text,
        ),
    decreases es.len(),
{
    if es.len() > 0 {
        lemma_unplaced_rows_read(es.drop_last());
        let rest = unplaced_rows(es.drop_last());
        assert forall|j: int| 0 <= j < unplaced_rows(es).len() implies #[trigger] unplaced_rows(es)[j].plain
            == plain_text_of(unplaced_rows(es)[j].text) by {
            if j < rest.len() {
                assert(unplaced_rows(es)[j] == rest[j]);
            }
        }
    }
}

proof fn lemma_dimension_rows_read(es: Seq<DrawingEntity>)
    ensures
        forall|j: int| 0 <= j < dimension_rows(es).len() ==> match #[trigger] dimension_rows(es)[j].text {
            DimensionText::Literal(t) => dimension_rows(es)[j].plain == Some(plain_text_of(t@)),
            _ => dimension_rows(es)[j].plain is None,
        },
    decreases es.len(),
{
    if es.len() > 0 {
        lemma_dimension_rows_read(es.drop_last());
        let rest = dimension_rows(es.drop_last());
        assert forall|j: int| 0 <= j < dimension_rows(es).len() implies match #[trigger] dimension_rows(es)[j].text {
            DimensionText::Literal(t) => dimension_rows(es)[j].plain == Some(plain_text_of(t@)),
            _ => dimension_rows(es)[j].plain is None,
        } by {
            if j < rest.len() {
                assert(dimension_rows(es)[j] == rest[j]);
            }
        }
    }
}

/// The texts left unpaired, and the dimensions' literal texts, carry their
/// plain text too: what the text-reading function reads the text as
/// written as -- and a dimension that shows its measurement or nothing
/// has no plain text.
#[verifier::spinoff_prover]
pub proof fn lemma_other_texts_are_read_as_plain_text(d: Drawing, s: Summary)
    requires
        summarizes(s, d),
    ensures
        forall|k: int| #![trigger s.unplaced_texts[k]]
            0 <= k < s.unplaced_texts.len() ==> s.unplaced_texts[k].plain@ == plain_text_of(s.unplaced_texts[k].text@),
        forall|k: int| #![trigger s.dimensions[k]]
            0 <= k < s.dimensions.len() ==> match s.dimensions[k].text {
                DimensionText::Literal(t) => s.dimensions[k]@.plain == Some(plain_text_of(t@)),
                _ => s.dimensions[k].plain is None,
            },
{
    let es = d.entities@;
    lemma_unplaced_rows_read(es);
    lemma_dimension_rows_read(es);
    let ur = unplaced_rows(es);
    let dr = dimension_rows(es);
    assert forall|k: int| #![trigger s.unplaced_texts[k]]
        0 <= k < s.unplaced_texts.len() implies s.unplaced_texts[k].plain@ == plain_text_of(s.unplaced_texts[k].text@) by {
        assert(text_ref_views(s.unplaced_texts@)[k] == s.unplaced_texts[k]@);
        lemma_sorted_as_from(ur, text_ref_keys(ur), text_ref_views(s.unplaced_texts@), k);
        let j = choose|j: int| 0 <= j < ur.len() && ur[j] == s.unplaced_texts[k]@;
        assert(ur[j].plain == plain_text_of(ur[j].text));
    }
    assert forall|k: int| #![trigger s.dimensions[k]]
        0 <= k < s.dimensions.len() implies match s.dimensions[k].text {
            DimensionText::Literal(t) => s.dimensions[k]@.plain == Some(plain_text_of(t@)),
            _ => s.dimensions[k].plain is None,
        } by {
        assert(dimension_views(s.dimensions@)[k] == s.dimensions[k]@);
        lemma_sorted_as_from(dr, dimension_keys(dr), dimension_views(s.dimensions@), k);
        let j = choose|j: int| 0 <= j < dr.len() && dr[j] == s.dimensions[k]@;
        assert(dr[j].text == s.dimensions[k].text);
    }
}

proof fn lemma_tagged_values_are(attributes: Seq<AttributeValue>, tag: Seq<char>)
    ensures
        forall|v: Seq<char>| #[trigger] tagged_values(attributes, tag).contains(v) <==> exists|k: int|
            0 <= k < attributes.len() && attributes[k].tag@ == tag && #[trigger] attributes[k].plain@ == v,
    decreases attributes.len(),
{
    if attributes.len() > 0 {
        let rest = attributes.drop_last();
        lemma_tagged_values_are(rest, tag);
        let tv = tagged_values(attributes, tag);
        let tr = tagged_values(rest, tag);
        let a = attributes.last();
        assert forall|v: Seq<char>| #[trigger] tv.contains(v) <==> exists|k: int|
            0 <= k < attributes.len() && attributes[k].tag@ == tag && #[trigger] attributes[k].plain@ == v by {
            if tv.contains(v) {
                let i = choose|i: int| 0 <= i < tv.len() && tv[i] == v;
                if i < tr.len() {
                    assert(tr[i] == v);
                    assert(tr.contains(v));
                    let k = choose|k: int| 0 <= k < rest.len() && rest[k].tag@ == tag && #[trigger] rest[k].plain@ == v;
                    assert(attributes[k] == rest[k]);
                } else {
                    assert(attributes[attributes.len() - 1].plain@ == v);
                }
            }
            if exists|k: int| 0 <= k < attributes.len() && attributes[k].tag@ == tag && #[trigger] attributes[k].plain@ == v {
                let k = choose|k: int| 0 <= k < attributes.len() && attributes[k].tag@ == tag && #[trigger] attributes[k].plain@ == v;
                if k < rest.len() {
                    assert(rest[k] == attributes[k]);
                    assert(tr.contains(v));
                    let i = choose|i: int| 0 <= i < tr.len() && tr[i] == v;
                    assert(tv[i] == v);
                } else {
                    assert(tv[tr.len() as int] == v);
                }
            }
        }
    }
}

proof fn lemma_labelled_values_are(pairs: Seq<LabelledText>, label: Seq<char>)
    ensures
        forall|v: Seq<char>| #[trigger] labelled_values(pairs, label).contains(v) <==> exists|k: int|
            0 <= k < pairs.len() && pairs[k].label.plain@ == label && #[trigger] pairs[k].value.plain@ == v,
    decreases pairs.len(),
{
    if pairs.len() > 0 {
        let rest = pairs.drop_last();
        lemma_labelled_values_are(rest, label);
        let tv = labelled_values(pairs, label);
        let tr = labelled_values(rest, label);
        assert forall|v: Seq<char>| #[trigger] tv.contains(v) <==> exists|k: int|
            0 <= k < pairs.len() && pairs[k].label.plain@ == label && #[trigger] pairs[k].value.plain@ == v by {
            if tv.contains(v) {
                let i = choose|i: int| 0 <= i < tv.len() && tv[i] == v;
                if i < tr.len() {
                    assert(tr[i] == v);
                    assert(tr.contains(v));
                    let k = choose|k: int| 0 <= k < rest.len() && rest[k].label.plain@ == label && #[trigger] rest[k].value.plain@ == v;
                    assert(pairs[k] == rest[k]);
                } else {
                    assert(pairs[pairs.len() - 1].value.plain@ == v);
                }
            }
            if exists|k: int| 0 <= k < pairs.len() && pairs[k].label.plain@ == label && #[trigger] pairs[k].value.plain@ == v {
                let k = choose|k: int| 0 <= k < pairs.len() && pairs[k].label.plain@ == label && #[trigger] pairs[k].value.plain@ == v;
                if k < rest.len() {
                    assert(rest[k] == pairs[k]);
                    assert(tr.contains(v));
                    let i = choose|i: int| 0 <= i < tr.len() && tr[i] == v;
                    assert(tv[i] == v);
                } else {
                    assert(tv[tr.len() as int] == v);
                }
            }
        }
    }
}

/// What the answer to "what is the value of the attribute `tag`" holds: no
/// value exactly when no attribute value has that tag; otherwise exactly
/// the plain texts of the attribute values with that tag -- one when they
/// all agree, every one of them when they differ.
pub proof fn lemma_attribute_answers_by_tag(attributes: Seq<AttributeValue>, tag: Seq<char>, r: Lookup<&str>)
    requires
        answers(tagged_values(attributes, tag), r),
    ensures
        r is Absent <==> !exists|k: int| 0 <= k < attributes.len() && #[trigger] attributes[k].tag@ == tag,
        r matches Lookup::Unique(v) ==> forall|k: int|
            0 <= k < attributes.len() && #[trigger] attributes[k].tag@ == tag ==> attributes[k].plain@ == v@,
        r matches Lookup::Ambiguous(all) ==> forall|v: Seq<char>| #[trigger] str_views(all@).contains(v) <==> exists|k: int|
            0 <= k < attributes.len() && attributes[k].tag@ == tag && #[trigger] attributes[k].plain@ == v,
{
    let vs = tagged_values(attributes, tag);
    lemma_tagged_values_are(attributes, tag);
    lemma_seq_to_set_empty(vs);
    if exists|k: int| 0 <= k < attributes.len() && #[trigger] attributes[k].tag@ == tag {
        let k = choose|k: int| 0 <= k < attributes.len() && #[trigger] attributes[k].tag@ == tag;
        assert(vs.contains(attributes[k].plain@));
    }
    if vs.len() > 0 {
        assert(vs.contains(vs[0]));
        let k = choose|k: int| 0 <= k < attributes.len() && attributes[k].tag@ == tag && #[trigger] attributes[k].plain@ == vs[0];
        assert(attributes[k].tag@ == tag);
    }
    match r {
        Lookup::Unique(v) => {
            assert(set![v@].contains(v@));
            assert(vs.to_set().contains(v@));
            assert forall|k: int| 0 <= k < attributes.len() && #[trigger] attributes[k].tag@ == tag implies attributes[k].plain@
                == v@ by {
                assert(vs.contains(attributes[k].plain@));
                assert(vs.to_set().contains(attributes[k].plain@));
            }
        },
        Lookup::Ambiguous(all) => {
            assert(str_views(all@).to_set().contains(str_views(all@)[0]));
            assert(vs.to_set().contains(str_views(all@)[0]));
            assert forall|v: Seq<char>| #[trigger] str_views(all@).contains(v) <==> vs.contains(v) by {
                assert(str_views(all@).contains(v) <==> str_views(all@).to_set().contains(v));
                assert(vs.contains(v) <==> vs.to_set().contains(v));
            }
        },
        Lookup::Absent => {},
    }
}

/// Likewise for "what is the value next to the label `label`": no value
/// exactly when no listed pair's label reads `label`; otherwise exactly the
/// plain texts of those pairs' values.
pub proof fn lemma_labelled_answers_by_label(pairs: Seq<LabelledText>, label: Seq<char>, r: Lookup<&str>)
    requires
        answers(labelled_values(pairs, label), r),
    ensures
        r is Absent <==> !exists|k: int| 0 <= k < pairs.len() && #[trigger] pairs[k].label.plain@ == label,
        r matches Lookup::Unique(v) ==> forall|k: int|
            0 <= k < pairs.len() && #[trigger] pairs[k].label.plain@ == label ==> pairs[k].value.plain@ == v@,
        r matches Lookup::Ambiguous(all) ==> forall|v: Seq<char>| #[trigger] str_views(all@).contains(v) <==> exists|k: int|
            0 <= k < pairs.len() && pairs[k].label.plain@ == label && #[trigger] pairs[k].value.plain@ == v,
{
    let vs = labelled_values(pairs, label);
    lemma_labelled_values_are(pairs, label);
    lemma_seq_to_set_empty(vs);
    if exists|k: int| 0 <= k < pairs.len() && #[trigger] pairs[k].label.plain@ == label {
        let k = choose|k: int| 0 <= k < pairs.len() && #[trigger] pairs[k].label.plain@ == label;
        assert(vs.contains(pairs[k].value.plain@));
    }
    if vs.len() > 0 {
        assert(vs.contains(vs[0]));
        let k = choose|k: int| 0 <= k < pairs.len() && pairs[k].label.plain@ == label && #[trigger] pairs[k].value.plain@ == vs[0];
        assert(pairs[k].label.plain@ == label);
    }
    match r {
        Lookup::Unique(v) => {
            assert(set![v@].contains(v@));
            assert(vs.to_set().contains(v@));
            assert forall|k: int| 0 <= k < pairs.len() && #[trigger] pairs[k].label.plain@ == label implies pairs[k].value.plain@
                == v@ by {
                assert(vs.contains(pairs[k].value.plain@));
                assert(vs.to_set().contains(pairs[k].value.plain@));
            }
        },
        Lookup::Ambiguous(all) => {
            assert(str_views(all@).to_set().contains(str_views(all@)[0]));
            assert(vs.to_set().contains(str_views(all@)[0]));
            assert forall|v: Seq<char>| #[trigger] str_views(all@).contains(v) <==> vs.contains(v) by {
                assert(str_views(all@).contains(v) <==> str_views(all@).to_set().contains(v));
                assert(vs.contains(v) <==> vs.to_set().contains(v));
            }
        },
        Lookup::Absent => {},
    }
}

} // verus!

# iron_scout_cad

Deterministic eyes for a 2D CAD drawing of the `uncad-model` entity model:
a compact summary of what a drawing contains, and the search that turns a
point into the entity references at that spot. Nothing here infers; what
cannot be established is reported as such.

## Layout

- `src/` -- the library, verified with Verus.
  - `model.rs`: the drawing as the library reads it (IDs, names, references,
    confidences, and what measuring decided, as plain values).
  - `summary.rs`: `summarize`, the lookups `Summary::attribute` and
    `Summary::labelled`, and the laws the summary keeps.
  - `hit_test.rs`: the search through block references (`search_steps`),
    the assembly of its outcomes into an answer (`assemble_hits`), and
    their laws.
  - `extent.rs`: each space's box and the entity types that gave it no
    point.
  - `text.rs`: plain text of a TEXT or ATTRIB, through `uncad-model`'s
    tokenizer, and the string orders the lists are sorted by.
  - `order.rs`: the stable sort every sorted list goes through.
- `app/` -- the same verbs on an `uncad_model::CadDatabase`: reading it into
  the library's model, measuring distances and extents in floating point,
  and serializable copies of the answers.
- `tests/` -- the library's tests, on hand-built drawings.

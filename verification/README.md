# ink_core

The core of the inkpot prose format: a parser from `.ink` text to a heading
tree, and the views rendered from that tree (manuscript as Markdown and HTML,
outline, edit, codex as text and HTML), with every function verified by Verus
against a mathematical model of what it computes.

## Layout

- `src/lib.rs` — the tree types (`Node`, `Block`, `Inline`, `Span`,
  `Visibility`) and their models.
- `src/parse.rs`, `src/inline.rs` — the line state machine and the inline
  scanner; `parse` and `try_parse`.
- `src/interp.rs` — `{{…}}` interpolation and its integer arithmetic.
- `src/render.rs` — the views, resolved titles and word counts.
- `src/codex.rs` — the codex index: entities, scopes, reference resolution,
  backlinks, and its HTML.
- `src/outline.rs` — the outline tree and the project bundle.
- `src/shunn.rs` — the Shunn manuscript model, its title-page helpers and its
  page flow.
- `src/shape.rs`, `src/omission.rs` — laws on the parsed tree (level nesting,
  span tiling, heading spans) and on what excluded sections leave unchanged.
- `src/references.rs` — laws on name resolution and backlinks.
- `src/order.rs` — laws on document order: heading lines become nodes in
  order, levels follow the heading markers, subtree spans run to the next
  heading at their level or above, and resolved titles cover exactly the
  headings.
- `src/counting.rs`, `src/roundtrip.rs` — the word count as the manuscript's
  word count, and paragraphs written back as written by the edit view.
- `src/text.rs`, `src/meta.rs` — char-level helpers and the reserved `id` key.
- `app/` — the `ink` command line, the PDF emitter (genpdf) and the serde
  copies of the IPC types.

# yarra_editor

The coordination logic of the Yarra world editor as a Verus library: every
function in `src/` is verified against a contract stated over mathematical
models (sequences, sets, maps and views of each type), and the properties that
relate several operations are stated and proved as `law_*` proof functions.

The editor's rendering, windowing, database access, worker threads and timers
are not part of the library. They call in with plain values (identifiers,
revisions, records, flags) and act on what comes back; where the library needs
an outside computation (the BLAKE3 digest of a dependency stamp, Unicode case
folding of text) it goes through a small trusted wrapper whose
contract says what the outside function returns.

## Layout

- `src/world.rs`, `assoc.rs`, `ranked.rs`, `text.rs`: identifiers, association
  lists read as maps, stable rank ordering, decimal text.
- Working sets of edited sources, each keeping the database checkpoint, the
  local value and the runtime baseline apart, with saves, conflicts and
  recovery snapshots: `objects.rs`, `atmosphere.rs`, `catalog.rs`,
  `regions.rs`, `coverage.rs` (painted environment coverage),
  `definitions.rs` (environment definitions and the shared preset library),
  `dense_domains.rs` (the domains saved in one transaction).
- Editing: `commands.rs` and `history.rs` (bounded undo/redo of commands),
  `paint_stroke.rs`, `paint_input.rs`, `brush.rs`, `layers.rs`,
  `selection.rs`, `presets.rs`, `layer_browser.rs`.
- Previews: `paint_preview.rs` (stamped preview products, staged swaps),
  `live_preview.rs` (the live terrain preview's revisions and resident cells),
  `stamps.rs`, `preview_modes.rs`, `ground_cover_pages.rs`.
- Derived work and the project: `jobs.rs`, `scheduler.rs`, `artifacts.rs`,
  `derived_inputs.rs`, `overview.rs`, `navigation.rs`, `project_store.rs`,
  `publication.rs`, `journal.rs`.
- `tests/`: executable tests of the library, one file per area.

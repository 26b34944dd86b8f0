# tachylyte

Verified, render-neutral models for a local-first Markdown vault editor:
the Markdown parser and editor history, the vault index with its search,
links, backlinks and graph, the file explorer and navigation panes, the
settings and shell state, canvas and bases helpers, media leaves, and the
routing of explorer intents and surface events to shell actions.

Everything under `src/` is checked by [Verus](https://github.com/verus-lang/verus):
each public function carries a `requires`/`ensures` contract over
mathematical models (`Seq`, `Map`, `Set`, spec functions and views), and
the library's laws are public proof functions (`lemma_*`) next to the code
they speak of.

## Layout

- `src/markdown/` — block and inline parsing, source spans, the editable
  document with undo and redo.
- `src/knowledge/` — the vault index: queries, search, snippets, links,
  backlinks, unlinked mentions, graph, outline, quick switcher.
- `src/explorer_model.rs`, `src/explorer_intents.rs`, `src/navigation.rs` —
  the file tree, its filter and sort orders, selection and keyboard movement.
- `src/editor_state.rs`, `src/editor_intents.rs`, `src/render_surface.rs`,
  `src/search_bar.rs`, `src/tab.rs` — editor surfaces.
- `src/shell.rs`, `src/routing.rs`, `src/settings.rs`, `src/launcher.rs` —
  shell settings, commands and the answers to surface events.
- `src/vault.rs`, `src/services/` — vault paths, entry kinds and ordering,
  trash destinations, path safety, recovery and sync queues.
- `src/canvas.rs`, `src/bases_*.rs`, `src/media/`, `src/account.rs`,
  `src/graph_view.rs` — structured documents, media leaves and panels.
- `src/text.rs`, `src/textmap.rs` — text primitives and ordered text maps.
- `app/` — the filesystem, JSON persistence and serde forms around the
  library; it makes no decision that the library can make.
- `tests/` — executable tests of the library.

Calls into std and the `url` crate that are not proved are kept in small
wrappers marked `#[verifier::external_body]`, each with a doc comment that
says what its contract assumes.

## Checking

Run Verus on `src/lib.rs` to verify the library; `cargo test` runs the tests.

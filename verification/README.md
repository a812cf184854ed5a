# quire

The verified core of Quire, a local Notion-like document workspace: the page
tree behind the sidebar, the device-to-device sync (wire rows, three-way
merge, the sync engine's decisions and its HTTP exchange), and the text rules
the editor and the search share. Every function under `src/` is proved
against its contract with Verus.

Layout:

- `src/workspace.rs` — the page tree (create, move, duplicate, delete,
  favorites, recents, search, persisted rows); `src/workspace_laws.rs` — what
  its operations keep.
- `src/doc.rs` — the document's rows (pages, blocks, marks, attachments,
  databases) and the stored spellings of their kinds.
- `src/sync/` — `model` (wire rows and their conversions), `merge` (the
  three-way merge), `merge_laws` and `merge_keep` (what the merge promises),
  `order` (parents before children), `http` (request and answer text) and
  `http_laws` (both ends read what the other wrote),
  `engine` (who may push, pairing, periodic rounds and the
  pull-merge-push cycle as a state machine).
- `src/text.rs`, `src/shortcuts.rs` — trimming, case-folded search,
  snippets, markdown shortcuts; `src/shell.rs` — the page-switch cursor and
  the title of an imported page.
- `src/launch.rs`, `src/cli.rs`, `src/picker.rs` — start-up arguments and the
  file-dialog seam.
- `app/` — the shell around the library: sockets, threads, JSON, the file
  dialog.
- `tests/` — the tests, run against the compiled library.

The page tree keeps its pages in a `Vec` arena with pairwise different ids
rather than in a `HashMap`: several operations hand pages out in a fixed
order (the template library, the persisted rows, the visible count over
them), and the order in which a `HashMap` is walked is neither fixed nor
specified, so no contract could state what those operations return.

# hunk_split

Sub-hunk splitting for a Git client: a natural diff hunk can be carved into
sub-hunks by row ranges, each sub-hunk gets its own synthesized header and
diff body, can be assigned to its own stack, and the split survives edits of
the worktree by being migrated onto the hunks that take its place.
Overrides anchored in a commit are kept apart from the worktree ones; moving
them onto a rewritten commit is not part of this crate.

The library under `src/` is written in Verus; every function there carries a
contract that the verifier proves.

- `hunks` – hunk headers and line ranges (`contains`, `intersects`, ...).
- `lines`, `rows`, `body` – the rows of a hunk body, context trimming, range
  validation and the diff body of a sub-range.
- `headers`, `text` – synthesized `@@ -a,b +c,d @@` headers and their text.
- `partition` – residual ranges around a selection, and refining an existing
  partition by new selections.
- `model`, `overrides`, `apply` – assignments, overrides, and materializing
  overrides into assignments.
- `remap`, `migrate`, `sorting` – moving an override onto the hunks of a
  changed diff by row content.
- `store` – the in-memory override store keyed by repository, location and
  anchor.
- `persist` – the database row shape of an override, hydration bookkeeping
  and the disk writes that keep the database in step with the store.
- `api` – the pure core of the split and sub-hunk encoding requests.
- `image` – applying selected hunks of a new file image onto the old image.
- `external` – the calls into `gix` and `uuid`, with their assumed contracts.

`app/` holds what the verifier does not see: the SQLite table (rusqlite), the
JSON encodings of the stored columns (serde), and the process-wide store.

# ags

Review feedback for agent-written documents, and the readers and grids behind
the Mermaid diagrams those documents draw, written in Verus: each function
states what it computes in `requires` / `ensures`, and the verifier proves it.

## Layout

- `src/feedback/` — the review session.
  - `model.rs`: feedback items, their kinds, statuses, targets and anchors.
  - `form.rs`: reading a URL-encoded feedback post.
  - `store.rs`: the append-only session log and its replay into settled
    threads (edits in place, deletes, end markers, serve/shutdown events).
  - `poll.rs`: the long-poll's decision after each read.
  - `wire.rs`: the rows a poll answers with, and the check on posted items.
- `src/mermaid/` — diagram readers and the integer parts of their layouts.
  - `architecture/`: `architecture-beta` reader, grid placement of things
    joined at named sides, nesting of groups, and side bookkeeping for routes.
  - `block/`: `block-beta` reader.
  - `c4/`: C4 reader (elements, boundaries, relationships, layout hints),
    relationship numbering, box tags, nesting depth and the stylesheet.
  - `class/`: class-diagram reader (classes, members, relationships).
  - `color.rs`: hex colours and dark-background detection.
  - `api.rs`: render options and the error a render reports.
- `src/text.rs` — strings as sequences of `char`: trimming, line splitting,
  searching, case folding and decimal numbers, each with its specification.
- `app/` — what the verifier does not see: the JSON-lines log on disk, JSON
  and TOON encoding through `serde_json` and `toon-rs`, the blocking poll, and
  the floating-point side of the diagrams: points and rectangles, C4 gutters
  and lane bookkeeping, architecture tracks and routes, class multiplicity
  positions, and colour arithmetic with the chart series palette.
- `tests/` — tests run against the compiled library.

The laws the library keeps are public proof functions next to the functions
they speak of; their doc comments state them in words.

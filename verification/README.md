# grapht

Generative routines for test graphs in the style of the Stanford GraphBase,
over an arena-backed graph backend, written in Verus: every routine carries a
contract that the verifier proves.

Layout of `src/`:

- `backend.rs`, `backend/`: the graph (vertices in index order, arcs that
  name their tip by index), vertex and arc names, arc insertion, and the two
  cursors over the vertices.
- `fields.rs`: typed buckets of auxiliary fields on vertices.
- `board.rs`, `board/`: the `board` generator — component sizes, vertices
  named by a coordinate counter, the graph's name, the enumeration of
  motions and its completeness (`board/enumeration.rs`), the moves of a piece
  (`board/moves.rs`), where those moves land (`board/landing.rs`), which
  gives the arcs of a board as a law, and how many arcs join two vertices
  (`board/count.rs`).
- `bounds.rs`: the expansion of a field-count bound into one bound per field.
- `primitives.rs`: which of a list of items are the arc, vertex and graph
  types.
- `reserve.rs`: room for a vector's growth, reported as an error where it
  cannot be had.
- `decimal.rs`: decimal renderings of integers.
- `num.rs`: nonzero machine integers.

`app/` holds the error types as `std::error::Error`s with their messages, and
a `board` entry that checks the bounds of the library's `board` before calling
it.

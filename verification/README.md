# text_document

A structured text document, verified with Verus: a root frame holding blocks
of plain text, kept by an element manager that files each element by id, by
sort order and by parent.

- `src/options.rs` — document layout options (tabs, direction, wrapping).
- `src/element.rs` — frames, blocks, elements, queued changes, and the
  mathematical model of the manager (`DocModel`).
- `src/model.rs` — the model's operations as spec functions: document order,
  positions, line splitting, and what each edit does.
- `src/orders.rs` — sort orders: the ids filed in a range, renumbering, and
  placing ids right after another.
- `src/element_manager.rs` — the element manager and its verified operations.
- `src/text_document.rs` — the document built on the manager, with its
  invariant kept as a type invariant.
- `src/equality.rs` — equality of managers and of documents.
- `src/lines.rs`, `src/lemmas.rs` — text helpers and the lemmas the proofs use.
- `src/laws.rs` — properties of the library as a whole (typing text lands at
  the cursor, splitting, removal, plain text round trip).
- `app/` — printing the outline and calling change listeners.

Blocks follow each other in increasing sort order. A document position counts
characters block after block, with one position for the separator after each
block; a block holds the positions from its start up to its end, the position
after its last character. Positions count characters, not UTF-8 bytes.
Inserting a block or a frame files it right after the block it is placed at
and gives the sort orders anew as 1, 2, ... Every element is filed under a
sort order: a new element asked for under a sort order that is taken is filed
right after the element that holds it, so no element ever drops out of the
document order, and the block count is the number of all blocks.
A copy of a document is held apart from the original.

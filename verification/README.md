# writ

The editing core of writ, a markdown editor that renders inline while you
type, written in Verus: the functions of the library are verified by Verus
against their contracts. The exceptions are named: the wrappers around
ropey, imara-diff, pulldown-cmark and a few std functions, whose contracts
are trusted; and the methods of `GitHubValidationCache`, whose shared table
Verus cannot follow, so they state nothing of what a lookup finds (the
table's own logic, `ValidationTable`, is fully stated).

## Layout

- `src/rope.rs`, `src/text.rs`: the text storage (a `ropey::Rope`) and the
  string helpers, stated over the chars and UTF-8 bytes they hold.
- `src/buffer.rs`: the buffer, its lines and markers, and a linear undo/redo
  history with a save point; the laws of undo, redo and the dirty flag.
- `src/syntax.rs`, `src/marker.rs`, `src/lines.rs`, `src/inline.rs`: the parse
  of a document as a list of nodes, the markers each line carries, and the
  inline styles (emphasis, code, links, images).
- `src/tree_walk.rs`: the markers of a line found the other way, walking up
  the parse from the node at a byte of the line.
- `src/cursor.rs`, `src/editor.rs`, `src/cycle.rs`, `src/keys.rs`: cursor
  movement, editing actions (typing, smart enter, backspace over markers,
  Tab/Shift+Tab nesting cycles, checkbox toggling) and the key bindings.
- `src/renumber.rs`: renumbering of ordered lists.
- `src/session.rs`: an editing session with its input-blocked and streaming
  flags, appending streamed text, and the cursor and selection queries.
- `src/display.rs`: what a line shows: markers replaced by their
  substitution, heading markers and inline delimiters hidden unless the cursor
  is on them, and the runs of fonts and colours (by role) it is drawn in.
- `src/paste.rs`, `src/document.rs`, `src/diff.rs`, `src/status_bar.rs`,
  `src/line.rs`, `src/github.rs`, `src/git.rs`, `src/writd.rs`, `src/acp.rs`:
  paste handling, rich-text documents, line diffs, the status bar, rendered
  line positions, GitHub references and contexts, and agent file reads.
- `app/`: the command-line program around the library (files, arguments).
- `tests/`: tests of the library, run against the compiled crate.

The markdown parser is not part of the library: a parse is handed to a
buffer as the list of its syntax nodes (`Buffer::set_syntax`), and an edit
drops the parse it made stale. Handing in the parse of the text after an
edit (`Buffer::reparse`) ends the edit: the ordered lists of that parse
are renumbered, and undo takes the renumbering back together with the
edit. What is proved of the renumbering, over the parse handed in: each
item with an ordered marker, counted in order, either reads its place
already or is corrected to it (`law_corrections_number_items`), and the
renumbered text is the old one with each corrected marker replaced by its
number and delimiter (`law_renumbering_replaces_markers`, for corrections
that lie one after another). That a parse of the renumbered text sees the
lists counting 1, 2, 3 rests on the parser and is not stated.

# vedit

The core of a small modal (vim-like) text editor, written in Verus: each
function states what it does in `requires`/`ensures` over mathematical
models (`Seq<char>` texts, cursor indices, rows and columns), and Verus
proves the code against those statements.

## Layout

- `src/` — the verified library
  - `text`, `digits`, `span` — rows and columns of a text, decimal numbers,
    positions and spans
  - `gap` — a gap buffer
  - `buffer/` — the editor's buffer: moving to a position, the motions
    (`h j k l w b e x`, end of line), scans, text objects, deleting and
    inserting spans, undo and redo
  - `history` — the change history
  - `simple_buffer`, `movement`, `cmdbuf`, `object` — the first buffer with
    its own row and column bookkeeping, word steps within a line, the first
    command buffer and text objects
  - `cmd/` — the typed-keys buffer, the command grammar (`4w`, `d3j`,
    `diw`), what a movement covers, and the command handlers
  - `pattern`, `textobject`, `wordclass` — command patterns and matching,
    text objects and their spans, character classes
  - `highlight` — grammars per file type, tree-sitter parsing and queries,
    capture classes, colours, and the segments that cover the code
  - `layout` — highlighted text laid out in screen lines, tabs expanded
  - `app` — the editor state machine: keys and events in, requests out
  - laws are public proof functions named `law_*`
- `tests/` — tests on concrete values
- `app/` — the program: arguments, logging, terminal, reading and writing
  the file, drawing

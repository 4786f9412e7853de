# fastmm

The core of a block-based Markdown editor, written in Verus and verified.

- `src/` is the verified library:
  - `text`: UTF-16 offsets, UTF-8 byte indices and character positions, and
    the conversions between them.
  - `ast`: the messages exchanged with the editor front end and their
    mathematical models.
  - `inline_format`: bold, italic, code, link, heading and list formatting of
    a block's Markdown source.
  - `block_type`: the block type a block's Markdown denotes.
  - `markdown`: Markdown to inline decoration trees (pulldown-cmark produces
    the events; a verified stack machine builds the tree).
  - `document`: splitting a document into blocks at blank lines.
  - `editor_state`: the editor's blocks, order, sequence numbers and bounded
    undo/redo history, and the laws they keep.
  - `history`, `version_files`: labels, names, pruning and ordering of saved
    versions.
  - `commands`: the greeting and the Typst compilation reply.
- `app/` is the desktop application around it: Tauri commands, file I/O,
  the Typst world, and serializable copies of the message types.
- `tests/` runs the library on concrete inputs.

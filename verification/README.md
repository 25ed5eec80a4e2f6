# crabmd

The document model of CrabMD, a markdown writer: the file is its bytes,
and the blocks, the display text and the offset maps the editor works
with are computed from them and proved against their specification, as
are the decisions of key capture and of clicks. Drawing the window,
reading keys and the mouse, and the Helix / Vim motions stay outside.

- `document`: top-level blocks and paint ranges of a GFM file, links,
  task boxes, and the small edits the editor makes to the bytes.
- `display`, `blocks`, `inline`, `table`, `html`, `restore`, `emit`:
  the visible text of a file and the map between its offsets and the
  file's offsets.
- `md`: the GFM event stream of pulldown-cmark, as plain values.
- `frontmatter`: the leading `---` block as key/value rows and back.
- `editor`, `coords`: window titles, search matches, table selections,
  heading jumps and backspace joins.
- `capture`, `click`: where a key press goes, and where a click leaves
  the caret, the selection and the mode.
- `images`, `notion`, `projection`, `text`, `search`: file names, media
  tags and byte-level text helpers.
- `config`, `daemon`, `desktop`, `assets`: settings, the single-instance
  socket protocol, launcher entries and scripts, icon names.

`app/` holds the file system, socket and process work around the library.

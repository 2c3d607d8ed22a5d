# Ledge core

The verified core of Ledge, a desktop shelf for files and folders with a clipboard
history. The library (`src/`) holds the application's rules, each with a contract
checked by Verus:

- `shelf`, `favorites`: the shelf and favourite-folder tables (ids, sort orders,
  listing order, locking, clearing), over what the file system said of each path.
- `history`: the clipboard history (de-duplication by content hash, pins, search by
  text, file paths and tag names, tags and their attachments, the automatic clean-up);
  `retention` proves how many entries the clean-up leaves.
- `clipboard`, `paste`: content hashes, the guard against re-recording the
  application's own clipboard writes, and preparing entries for pasting.
- `dib`: clipboard bitmaps (`CF_DIB`) to RGBA and PNG.
- `settings`, `layout`, `drag`, `visibility`: settings merging, the shelf window's
  frame, the edge zone, the drag-start state machine, and when the window is shown or
  hidden.
- `archive`: ZIP entry names and archive building.
- `text`, `sort`, `search`: strings, orderings and the search match used by the above.

`app/` is a thin command-line program around the library: SQLite storage, file-system
probing, the settings file, the system clipboard and ZIP files on disk.

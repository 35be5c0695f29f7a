# torg

An Org-mode–flavoured terminal text editor for Org and Markdown files, whose editing logic is
a library verified with Verus.

## Layout

- `src/` — the verified library. Every function carries a `requires`/`ensures` contract over
  mathematical models (`Seq<char>` for texts, spec functions for outlines, headlines and
  timestamps), and Verus proves each body against it.
  - `document`, `text`, `rewrite` — the text model and the facts about rebuilding a text
    line by line.
  - `headline`, `structure`, `provider`, `edits`, `list` — headings, outlines and the
    structural edits (promote/demote, move, insert, TODO, priorities, tags, planning).
  - `timestamp`, `canonical` — timestamps as data, their canonical text, and the proof
    that the canonical text parses back.
  - `view`, `display`, `search`, `highlight` — caret movement, screen columns, search and
    line markup.
  - `keymap`, `commands`, `editor`, `session`, `status`, `completion`, `paths`, `cli` — the
    key map, the command table and help menu, prompts, the multi-buffer session with every
    key transition, the status line, path completion and the command line.
  - `laws` — properties that span several operations (edits that undo each other, tags
    read back as written).
  - `ffi` — the flat surface for other frontends.
- `tests/` — unit and scenario tests run against the compiled library.
- `app/` — the terminal program: argument handling, files, the terminal loop and drawing.
  It performs the effects that the session's transitions ask for and hands back their
  results.

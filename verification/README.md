# rustdown_viewer

The core of a Markdown viewer and editor, written in Verus: the logic in
`src/` is stated in contracts, and Verus proves the code meets them.

## Layout

- `src/` — the verified library.
  - `utf8_text`, `text_utils`: UTF-8 offsets, character boundaries, lines.
  - `buffer`, `io`: documents, line endings, encodings; decoding file bytes
    and encoding them for saving.
  - `format`, `enter`, `edits`, `tables`: editing commands (inline
    delimiters, headings, quotes, lists, tasks, links, images, tables,
    smart Enter), each an exact function of text and selection.
  - `round_trips`: laws about pressing a command twice.
  - `find`: find and replace.
  - `md`, `md_events`, `md_parse`, `md_doc`, `html`: the Markdown document
    model, built from the events of `pulldown-cmark`, with headings'
    anchors, footnotes and inline HTML.
  - `highlight`: the editor's Markdown syntax colouring tokens.
  - `workbench`, `session`, `dialogs`: the editor's state (tabs, selection,
    find bar, dialogs) and what each command, shortcut and dialog answer
    does to it, with the outside work it asks for.
  - `editor`: how the editor's text is styled (token colours, find-match
    highlights) and the caret's line and column.
  - `theme`, `config`, `preview`, `app_text`: palettes, recent files, media
    links, CJK detection.
- `tests/` — tests run against the compiled library.
- `app/` — a command-line front end: reading and writing files, settings,
  recovery copies, and a loop that feeds commands to the workbench and
  carries out the effects it hands back.

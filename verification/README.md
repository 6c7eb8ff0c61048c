# photomem

Fast visual note capture: a note is a Markdown file with a small frontmatter
block, kept in a vault that is a directory (and, if you like, a git
repository). This crate is the note format and the rules around it, written in
Verus and proved against their contracts; `app/` is the program around it.

## Layout

- `src/text.rs` — text as character sequences: trimming, lines, words,
  searching, and the Unicode character classes taken from `std`.
- `src/frontmatter.rs` — the `---` block: parsing and rendering, with the
  law that splitting a rendered block gives back its fields and the body.
- `src/note.rs` — notes: normalizing editor text, titles, content,
  filenames, and reading a note back from the file it is written as.
- `src/links.rs`, `src/tags.rs`, `src/slug.rs` — `[[links]]`,
  `supersedes:` declarations, `#tags`, and filename slugs.
- `src/stamp.rs` — moments and calendar days, with chrono behind each call.
- `src/query.rs` — search input: full-text terms, `#tag` filters and
  `since:` / `before:` dates.
- `src/index.rs` — what the search index records, and how a walk of the notes
  directory decides what was added, changed or removed.
- `src/store.rs` — the vault's layout, safe file names, attachment names.
- `src/sync.rs` — commit messages, and which git command sync runs next.
- `src/view.rs` — what the window shows: note views, list rows, wall tiles.
- `src/images.rs`, `src/ocr.rs` — attachment naming, pixel checks and
  scaling (never upscaled), and what is kept of recognised text.
- `src/config.rs`, `src/cli.rs`, `src/number.rs` — configuration defaults and
  template, the command line and tray status, decimal numbers.
- `app/` — files, SQLite, git, image decoding and WebP encoding, and `main`.
- `tests/` — the behaviour, on concrete values.

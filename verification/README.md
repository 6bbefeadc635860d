# zednotes_links

The note-linking core of a Markdown notes application, written in Verus:
each public function states in its contract what it returns, and Verus
proves the code against it.

- `wiki_links`: `[[target|alias]]` links and headings of a note (Markdown
  parsed by `pulldown-cmark`), heading slugs, the link under the cursor,
  the heading a fragment names, and the target being typed for completion.
- `note_links`: resolving a wiki-link target to a note path inside one
  notes folder (current folder, then root, then a unique path suffix;
  ambiguity is an error), path normalization.
- `backlinks`: the cache of parsed notes (one per path, in path order), the
  links of other notes that lead to a note, with row and line excerpt, and
  the decisions of the backlinks panel.
- `external_changes`: what to ask when a note changes on disk under an open
  editor, and what each answer does.
- `completions`: which notes a wiki-link completion offers, under which
  target text, and which bytes it replaces.
- `markdown_links`: inline `[text](destination)` links: the link under the
  cursor, its destination, and resolving a relative destination
  (percent-decoded by `percent-encoding`).
- `notes`, `daily_notes`, `recent_notes`, `pdf`: note statistics, front
  matter timestamps, note file names, daily-note settings and templates
  (dates formatted by `chrono`), the recent-notes history, PDF detection.
- `settings_documents`: the JSON model of a settings document, laying one
  document over another, and telling the former settings schema from the
  native one.
- `notes_settings`: the notes application's settings read from a settings
  document (the former schema and the native `zednotes` section), and the
  migration of a document in the former schema into the native one.
- `paths`, `text`: the path and text models the contracts are written in.

Laws that span functions are public proof functions whose names start with
`law_`.

`app/` is a small command-line front end that reads a notes folder from
disk and prints links, statistics, resolutions and backlinks, and merges
settings files (migrating files in the former schema first).

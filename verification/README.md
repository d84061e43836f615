# zolit

Exports Zotero annotations into companion Markdown files: it reads the Zotero
database, finds each PDF's Markdown notes by file name, places every
annotation after the line its text matches (exact, fuzzy, OCR-aware and
page-scoped matching) as a triple-dash HTML comment, and remembers what was
imported in `.zolit-sync.json`.

- `src/` is the library, verified with Verus: text model (`text`), matching
  (`matching`), the comment format (`dsl`), the sync manifest (`manifest`),
  one-entry import (`pipeline`), HTML notes to Markdown (`html`), companion
  lookup (`companion`), the language-model prompt and reply (`llm_fallback`),
  database-side records (`zotero`), errors and the command enum.
- `app/` is the command-line program around it: argument parsing, logging,
  SQLite queries, file and directory access, JSON files and HTTP.
- `tests/` exercises the library.

# mdbook_ref_resolver

The logic of a book preprocessor that expands short references in markdown
links, `[text](prefix:value)`, to full paths or URLs, with its behaviour stated
in contracts and proved.

- `src/links.rs` finds the links `](prefix:value)` in a chapter's text.
- `src/reference.rs` splits a reference into its prefix and value.
- `src/forge.rs` and `src/resolver.rs` resolve `gh:` and `gl:` references to
  GitHub and GitLab URLs, look `uuid:` references up in a UUID index
  (`src/uuid_index.rs`), and look other prefixes up among the configured glob
  patterns (`src/config.rs`), giving the one matching file relative to the
  chapter (`src/paths.rs` reads paths as Unix does).
- `src/remote.rs` reads the GitHub repository from a git remote URL.
- `src/preprocessor.rs` rewrites a chapter, last reference first.
- `app/` holds the plugin around it: reading `book.toml`, the git remote and
  the UUID index, walking the book, and reporting errors.

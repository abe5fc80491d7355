# inherit

Git-native project templating: `@VAR@` placeholders in file contents and
paths, a template manifest (`Inherit.toml`), an ignore file
(`.inherignore`), cached template downloads, and the `cargo inherit`
command line.

## Layout

- `src/` is the library, written in Verus: every function carries a
  contract and is verified, except the small wrappers that call outside
  code (`String::push`, the `ignore` crate's gitignore builder and
  matcher, `sha2` and `hex`). Their contracts are trusted, not proved;
  each is marked `#[verifier::external_body]` and its doc comment says
  what it claims.
  - `valid`, `vars`, `replace`, `scan`: variable names, the variable map,
    placeholder rendering (`KissReplace`) and placeholder discovery, with
    the laws that tie rendering and discovery together.
  - `text`, `lines`, `order`: character-level helpers, line splitting,
    trimming, joining and TOML string escaping, and the text order.
  - `manifest`, `ignore_rules`, `pipeline`: the template manifest, the
    `.inherignore` filter, and the decisions of project generation.
  - `lazyget`: artifact identifiers and the cache-filling protocol.
  - `cli`, `resolve`, `config`, `prompt`, `commands`, `error`: the command
    line's parsing, template resolution, configuration edits, questions
    and configuration changes.
- `tests/` exercises the library.
- `app/` is the `cargo-inherit` program: file-system and terminal work,
  serde and error-trait forms of the library's types.

# sandpack_cdn

The decision logic of a CDN for npm packages, in verified Rust, and a server around it.

Given a set of packages, the CDN answers which packages a project in the browser has to load
(`/dep_tree`), and for each of them which files are needed, in a form that runs there (`/package`).

## Layout

- `src/` is the library. Each function states in `requires` and `ensures` what it does, and Verus
  proves it.
  - `text`, `str_map`, `json`: strings, maps with string keys, JSON documents.
  - `npm_specifier`: what the string in an `import` names.
  - `package_json`: what a `package.json` says, and the entries of a package.
  - `semver`, `document`, `collect_dep_tree`: versions, registry entries, the dependency tree.
  - `syntax_tree`, `transform`: the syntax tree of a file's code, and its transformation.
  - `file_queue`, `process`: which files of a package are needed, what is served of it.
  - `disk_cache`, `database`: what is kept on disk and in memory.
  - `local_state`: how what is kept in memory and what the database holds go together.
  - `request`, `reply`, `app_error`, `config`: requests, answers, failures, settings.
- `tests/` runs the library on concrete values.
- `app/` is the server: HTTP, SQLite, the registry and the file system. It performs what the
  library decides.

Proof functions whose names start with `law_` state what holds of the library as a whole.

What is taken from other crates without proof stands next to the code that uses it, marked
`external_body` or `assume_specification`, with a comment that says what is claimed of it.

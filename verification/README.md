# route_resolver

Resolves Symfony route names to the PHP controller declarations that define
them, and finds quoted route names inside editor documents.

- `src/` — the verified library:
  - `text_search`: line starts and line lookup, quote bounding, and the
    route searcher built on a leftmost-longest Aho-Corasick automaton;
  - `route_index`: the route-name → location map;
  - `php_finder` / `php_outline`: PSR-4 paths of `App\` classes and the lookup
    of a class (and method) declaration in the outline of a parsed PHP file;
  - `json` / `router`: selection of the routes to index from the JSON output of
    `symfony console debug:router`;
  - `sidecar`: what each request does to the index and what it is answered;
  - `protocol`: the request and response types.
- `app/` — the process: stdin/stdout, running the Symfony binary, reading
  files, and the serde forms of the protocol types.
- `tests/` — tests of the library.

`Cargo.toml` names, beside `mago-syntax` and `mago-database`, the other
members of the mago family (`mago-syntax-core`, `mago-span`,
`mago-php-version`, `mago-reporting`, `mago-text-edit`) at the same exact
version. No file uses them directly: the members depend on each other by
caret requirements, and naming them keeps the whole family on the 1.19
release that the PHP outline is written against (later releases change the
API and need a newer compiler).

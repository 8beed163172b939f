# swc_plugin_webpack_chunk_names

An SWC plugin that injects `/* webpackChunkName */` and
`/* webpackMode: "lazy-once" */` comments into dynamic `import()` calls,
with chunk names of the form `camelCasePrefix.leaf` derived from the import
path.

Layout:

- `src/` — the verified library (Verus):
  - `text.rs`: splitting, joining and searching character sequences;
  - `naming.rs`: camelCase, extension stripping, relative-path resolution,
    package discovery and the chunk name of an import specifier;
  - `template.rs`: flattening template-literal specifiers;
  - `comments.rs`: rewriting an import's leading magic comments;
  - `plugin.rs`: per-call decisions, configuration and filename handling;
  - `laws.rs`: properties that hold for every input.
- `app/` — the SWC plugin itself: configuration parsing, AST traversal and
  the conversions between swc values and the library's types.
- `tests/` — the library's tests.

# braze-sync

GitOps for Braze configuration: catalog schemas, content blocks, email
templates, custom attributes and tags are kept as files in Git, compared with a
Braze workspace, and applied to it.

The crate is split in two.

- `src/` is the library. It holds what the commands decide, as functions from
  plain values to plain values, written in Verus: what is compared, what is
  written and in which order, when a run stops, and what is reported. What a
  function promises stands in its `ensures` clause and is proved; what the
  library promises as a whole stands in public proof functions.
- `app/` is the program around it: arguments, files, HTTP, YAML and JSON. It
  carries out what the library decides.

## The library

| Module | What it holds |
|:---|:---|
| `text`, `order`, `pattern`, `time`, `endpoint` | Texts, orders, regular expressions, points in time, URLs |
| `resource` | What is synchronised |
| `diff` | What differs, which parts of it count, digests, plan files, the order of content blocks |
| `braze` | What requests are made and what the answers mean: retries, pagination, refusals |
| `config` | The configuration file and how it becomes the settings of a run |
| `fs` | File layouts: frontmatter, directories, names |
| `format` | Tables for people and JSON for programs |
| `cli` | What the commands decide: `export`, `diff`, `apply`, `validate`, `init`, `templatize` |

Calls into other crates (`regex-lite`, `url`, `blake3`, `similar`, `chrono`,
`fastrand`, `humantime`, `serde_json`, `reqwest`'s status codes) stand in small
functions marked `external_body`. Their contracts are believed, not proved; the
comment above each says what is claimed.

## Tests

`tests/` runs the compiled library with those crates linked.

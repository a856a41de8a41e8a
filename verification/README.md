# cyfs_gateway

A verified library for the gateway's request-processing language.

- `process_chain::block` — blocks of command lines: the parsed form
  (`block`), the parser (`parser`), the runner (`exec`), the context
  commands act on (`context`), the store of host labels (`storage`) and
  the command interface (`cmd`).
- `process_chain::chain` — chains of blocks and their registry (`chain`),
  requests with their responses (`req`), and path-based editing of JSON,
  TOML and XML documents (`body`).
- `warp` — the gateway's own block parser (no assignments), its command
  set with argument text or argument words, and environments of named
  values at global, chain and block level.
- `text`, `registry` — text handling and name registries shared by the
  above.

The functions in `src/` are verified with Verus against their contracts,
except the small wrappers marked `#[verifier::external_body]`, which call
`http_types`, `regex` or std and whose contracts are trusted.
`app/` holds the conversions between the library's documents and the
`serde_json`, `toml` and `xmltree` values, and logging.

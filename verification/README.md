# graphql_cache

A caching proxy for GraphQL: it parses the documents it receives, answers from its cache what it
can, forwards the rest to the GraphQL server, and caches the values of the responses as their
cache-control hints say (public values for everyone, private ones for the user who asked).

The library under `src/` is verified with Verus:

- `text` — character classes and small string helpers.
- `graphql::parser` — the tokenizers, the parser (`grammar` states the grammar over tokens),
  serialization (`printer`), the token sequences of printed parts and the grammar reading them
  back (`readback`), fragment expansion, operation filtering and field merging (`transform`,
  `merge`).
- `graphql::json` — JSON values with objects kept in key order; merging, extracting and removing
  along a path.
- `graphql_deserializer` — responses with cache hints, and their compression into the values to
  cache.
- `graphql::cache` — matching queries against the cache, planning the answer to a document and
  completing it with a response; `memory_cache` is the store with expiry times and its clean-up.
- `graphql_parser` — the earlier parser, over owned tokens.
- `auth`, `request` — who a request comes from, and which document it asks to run.

`app/` is the server around it: warp, reqwest, Redis, the clean-up thread, and the serde copies of
the library's types.

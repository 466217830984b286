# rag_service

A retrieval service: an agent files texts under tags (uuids) and asks which tags
have texts near a query. Texts are cut into chunks, each chunk is embedded, the
vectors go into a quantised index, and a query is answered with the tags whose
chunks score best.

## Layout

- `src/` is the library, verified with Verus: cutting texts into chunks, the
  vector index and the store with its two files, what a request to the writer or
  to the model does step by step, scores and the ranking of tags, the cache of
  query vectors, the configuration, and the requests and answers themselves.
  `store_laws.rs` and `writer_laws.rs` hold what is proved of the store and of the
  writer as a whole; the other modules state such laws beside their functions.
- `app/` is the program around it: reading and writing files, the embedding
  thread, the writer's task and the HTTP interface.
- `tests/` runs the library.

Numbers of single precision are bit patterns (`u32`) in the library, and tags are
`u128`. The library calls `turbovec`, `bincode`, `uuid` and `lru`; the functions
that make these calls state what is relied on.

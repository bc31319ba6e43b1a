# Rekha

The core of a vector database: collections of embeddings with metadata and
documents, kept in a write-ahead log, searched by distance and filtered by
metadata. The library is written in Verus: its functions carry contracts over
mathematical values, and Verus proves the contracts.

## Layout

- `src/` is the library. It neither opens files nor sends anything: it works on
  bytes and plain values and says what is to be done.
  - Storage: `wal` (the log), `segment` (vector files), `storage` (object keys),
    `bytes`.
  - Records: `collection` and its modules (writing, replay, flushing,
    checkpoints, search), `index` (labels of the graph), `postings` and `filter`
    (metadata), `bitmap`, `idmap`.
  - The node: `catalog`, `engine`, `config`, `error`, `types`, `op`, `ids`.
  - The cluster: `ring`, `chord`, `membership`, `peer_state`, `cluster`, `tags`,
    `state_machine`, `log_store`, `network`, `replication`, `raft_types`.
  - Interfaces: `api`, `chroma`, `client`, `rpc`, `transfer`, `cli`, and the
    interactive client in `repl`, `command`, `sql`, `display`, `readings`.
  - Ground work: `json`, `json_text`, `text`, `chars`, `num`, `sort`, `table`,
    `hashing`.
- `app/` is the program around it: files, HTTP, consensus, the graph index,
  distance kernels and the terminal.
- `tests/` runs the library.

## Reading the contracts

Types have a view, written `@`, and contracts speak of views. Properties that
span functions stand as public proof functions; a few to begin with:

- `collection::batch::added_records_are_read_back`: a read gives back a write.
- `wal::written_log_is_read_back`, `wal::torn_tail_is_dropped`: recovery.
- `collection::checkpoint::checkpoint_and_tail_give_the_log`: a checkpoint and
  the rest of the log stand for the whole log.
- `collection::checkpoint::damaged_segments_lose_nothing`: records come back
  with their vectors whatever became of the segment file.
- `collection::query::small_searches_are_exact`,
  `collection::query::filtered_results_match`: search.
- `postings::evaluation_agrees_with_matching`: the metadata index finds what the
  filter matches.

Floating-point numbers are carried by their bit patterns. Computing distances,
and reading or printing such numbers, is left to the program.

Calls into other crates stand behind small functions marked
`#[verifier::external_body]`; the comment above each says what is believed of
the call.

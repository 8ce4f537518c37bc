# skaidb_engine

The query and storage engine of a document database, as a Verus library: what a
statement means for the catalog, which way a query takes to its rows, what rows
come out, and what a crash or a lagging replica leaves to be done. Every item
under `src/` is verified but for what it takes on trust from std and serde_json:
`String::push` (`text.rs`), `quoted` with the name `debug_quoted` (`error.rs`),
`string_from_utf8` (`journal.rs`), and `json_of` and `json_parsed` with the names
`watermark_json` and `watermark_parse` and the error type `ExJsonError`
(`watermarks.rs`). How values are evaluated, compared
and encoded, and where rows are stored, is handed in.

- `src/namespace.rs`, `gidx.rs`, `bytes.rs`, `text.rs`, `hlc.rs`, `sorted_map.rs`:
  names, keys, stamps and ordered maps.
- `src/catalog.rs`, `database.rs`, `ddl_*.rs`, `alter.rs`, `rename.rs`, `auth.rs`,
  `schema_sync.rs`, `schema_laws.rs`, `replay.rs`, `replay_laws.rs`,
  `settled_laws.rs`: the schema, its statements, and the laws that let replicas
  converge.
- `src/statement.rs`, `ast.rs`, `dispatch.rs`, `select_plan.rs`, `search_plan.rs`,
  `explain.rs`: statements and the way they take.
- `src/constraints.rs`, `plan.rs`, `point_keys.rs`, `entry_range.rs`, `access.rs`,
  `gather.rs`, `gather_laws.rs`, `store_laws.rs`, `local.rs`, `order.rs`,
  `paging.rs`, `counting.rs`, `geo.rs`, `search.rs`, `highlight.rs`, `hits.rs`:
  filters, indexes, walks, order and search.
- `src/cluster.rs`, `executor.rs`, `search_exec.rs`, `search_reads.rs`,
  `vector_exec.rs`, `read_laws.rs`: statements carried out against a cluster. What a deployment's
  cluster has to answer is the contract of the traits `Cluster`, `SearchCluster`
  and `VectorCluster`.
- `src/value.rs`, `model.rs`, `execute.rs`, `writes.rs`, `results.rs`,
  `grouping.rs`, `aggregate.rs`, `join.rs`, `projection.rs`: documents and the
  rows of a statement.
- `src/txn.rs`, `journal.rs`, `maintenance.rs`, `recovery.rs`, `backfill.rs`,
  `embed_queue.rs`, `watermarks.rs`: transactions, index maintenance and recovery.
- `src/show.rs`, `describe.rs`, `stats.rs`, `lookup.rs`, `timeseries.rs`: what is
  reported and looked up.

Public proof functions without `lemma_` in their names are the laws of the
library. `tests/` runs the library on concrete values; `app/` holds files,
floating point and the loops over a row store.

# p_memory

An embedded memory for agents: memories, a knowledge graph of entities, relations and events, and
notes, with text and vector search over all of them.

`src/` is the verified library. Every rule lives there as a function on plain values whose contract
Verus proves: how records are checked, merged, fingerprinted and read back, how notes are cut into
chunks, how the graph is contracted and walked, how vectors are kept up to date, how a search is
planned, fused, folded and reranked, how a preset is filled within its budgets, and how older
databases are imported. What the library has from other crates (SHA-256, regular expressions, graph
algorithms, dates, JSON escapes) stands behind small wrappers whose doc comments say what is
believed of them. The public proof functions state what holds across several functions.

`app/` is the shell around it: SQLite, the text index, files, threads and floating point. It asks the
library what to do and does it.

`tests/` runs the library on concrete values.

| Modules | What they hold |
| --- | --- |
| `chars` `decimal` `ordering` `text` `bits` `ids` `ranking` | texts, numbers, orders |
| `error` `json` `rendering` `tally` `types` | values that everything shares |
| `storage` `records` `query` `cache` `schema` `events` | records, filters, the shape of a database |
| `notes` `memory` `graph` `network` `graph_search` `contexts` | notes, memories, the graph |
| `embeddings` `filling` `vectors` | vectors |
| `index` `search` `hits` `pipeline` `preset` `protocol` | search and the line protocol |
| `legacy` `drafts` `graph_drafts` `extraction` `attaching` `importing` | importing |

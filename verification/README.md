# codesearch

The decisions of a code search engine, as a verified library. An index holds
chunks of code, the references between symbols, channel endpoints and what was
learned from earlier sessions; this crate says what is done with them. The
functions carry contracts, and Verus proves that the code meets them.

## What is in the library

- **Search**: `patterns`, `fusion`, `rrf`, `search`, `graph_expansion` and
  `snippet_lookup` fuse ranked lists, rank test files behind the rest, and
  follow the call graph out of what was found.
- **Call graph**: `call_graph`, `call_graph_traversal`, `impact_analysis`,
  `symbol_context`, `explain` and `markdown` walk callers and callees level by
  level and tell how a symbol is reached.
- **Maps**: `file_relationship`, `namespace_graph`, `symbol_index`,
  `cluster_detection`, `symbol_cluster_detection`, `module_overview`,
  `split_analysis`, `execution_features`, `community_naming` and
  `repository_overview` weigh, group, name and describe files and symbols.
- **Channels**: `channels`, `channel_routes`, `channel_link` and
  `resolve_channels` match producers and consumers across services.
- **Memory**: `claims` and `memory` with their ingestion, recall, dream and
  browse modules.
- **Indexing**: `index_changes`, `index_plan`, `index_batch`,
  `index_pipeline`, `index_write`, `index_run` and `git_remote`.
- **Editor**: `zed_rules` and `slash_commands`.

Laws that span several functions stand as public proof functions, next to what
they speak of or in `walk_laws`, `pattern_laws` and `git_remote_laws`.

Scores, weights, confidences and cohesion are integers: parts of a fixed unit
that each module names. Work that waits on a store, a model or the disk is told
apart from the decision about it: the library takes what came back as an
argument, or offers a state that is asked for its next step.

## Around it

`app/` is ordinary Rust: the ports to stores and models, the file system, and
the loops that perform the steps. `tests/` runs the library on concrete values.

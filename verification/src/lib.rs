//! The decisions of a code search engine: what is compared, ranked, grouped,
//! matched and rewritten between the stores that hold the data.

pub mod call_graph;
pub mod call_graph_traversal;
pub mod channel_laws;
pub mod channel_link;
pub mod channel_routes;
pub mod channels;
pub mod claim_dream;
pub mod claim_dream_prompt;
pub mod claim_ingestion;
pub mod claim_ingestion_prompt;
pub mod claim_recall;
pub mod claims;
pub mod cluster_detection;
pub mod cluster_laws;
pub mod clustering;
pub mod collections;
pub mod community_naming;
pub mod domain;
pub mod dream_laws;
pub mod execution_features;
pub mod execution_features_naming;
pub mod explain;
pub mod feature_laws;
pub mod file_graph_laws;
pub mod file_relationship;
pub mod flow_laws;
pub mod fusion;
pub mod git_remote;
pub mod git_remote_laws;
pub mod graph_expansion;
pub mod ids;
pub mod impact_analysis;
pub mod import_session;
pub mod index_batch;
pub mod index_changes;
pub mod index_laws;
pub mod index_pipeline;
pub mod index_plan;
pub mod index_run;
pub mod index_write;
pub mod json;
pub mod markdown;
pub mod memory;
pub mod memory_browse;
pub mod memory_dream;
pub mod memory_dream_prompt;
pub mod memory_extraction;
pub mod memory_laws;
pub mod model_reply;
pub mod module_overview;
pub mod name_laws;
pub mod namespace_graph;
pub mod node_laws;
pub mod object_laws;
pub mod order;
pub mod overview_laws;
pub mod pair_weights;
pub mod paths;
pub mod pattern_laws;
pub mod patterns;
pub mod picks;
pub mod prompt_laws;
pub mod repository_overview;
pub mod resolve_channels;
pub mod resolve_laws;
pub mod rrf;
pub mod search;
pub mod search_laws;
pub mod slash_commands;
pub mod snippet_lookup;
pub mod split_analysis;
pub mod split_laws;
pub mod symbol_cluster_detection;
pub mod symbol_context;
pub mod symbol_index;
pub mod text;
pub mod text_laws;
pub mod unicode;
pub mod union_find;
pub mod walk_laws;
pub mod zed_rules;

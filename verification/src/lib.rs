//! Memory subsystem of a companion agent: text rules, stores and decisions.

pub mod answer_laws;
pub mod assoc;
pub mod bm25;
pub mod conflict;
pub mod consolidation;
pub mod fusion_laws;
pub mod json;
pub mod keeping_laws;
pub mod manager;
pub mod memory_md;
pub mod memory_router;
pub mod note_laws;
pub mod notes;
pub mod ollama_service;
pub mod ordered;
pub mod pattern;
pub mod pipeline;
pub mod pipeline_laws;
pub mod precision_filter;
pub mod prompts;
pub mod qdrant;
pub mod rank;
pub mod ranking_laws;
pub mod recording;
pub mod recycle_bin;
pub mod redact;
pub mod refiner;
pub mod reindex;
pub mod relational_recall;
pub mod relaxation;
pub mod reranker;
pub mod retention;
pub mod retention_laws;
pub mod retrieval_laws;
pub mod retriever;
pub mod search;
pub mod search_laws;
pub mod seed;
pub mod select;
pub mod session_compressor;
pub mod stages;
pub mod step_health;
pub mod store;
pub mod store_laws;
pub mod strategy;
pub mod strategy_laws;
pub mod takes_fence;
pub mod task_laws;
pub mod text;
pub mod text_laws;
pub mod telling_laws;
pub mod tidying_laws;
pub mod time_anchor;
pub mod time_stamped;
pub mod tokenize;
pub mod tokens;
pub mod topic_merger;
pub mod types;
pub mod writing;
pub mod writing_laws;

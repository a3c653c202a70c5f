//! An embedded memory for assistants: records, a knowledge graph, notes and retrieval.
//!
//! The library holds the rules of the store. Reading files, running SQL, keeping the full
//! text index and calling models belong to the program around it.

pub mod chars;
pub mod decimal;
pub mod ordering;
pub mod text;
pub mod bits;
pub mod ids;
pub mod ranking;

pub mod error;
pub mod json;
pub mod rendering;
pub mod tally;
pub mod types;

pub mod storage;
pub mod records;
pub mod query;
pub mod cache;
pub mod schema;
pub mod events;

pub mod notes;
pub mod memory;
pub mod graph;
pub mod network;
pub mod graph_search;
pub mod contexts;

pub mod embeddings;
pub mod filling;
pub mod vectors;

pub mod index;
pub mod search;
pub mod hits;
pub mod pipeline;
pub mod preset;
pub mod protocol;

pub mod legacy;
pub mod drafts;
pub mod graph_drafts;
pub mod extraction;
pub mod attaching;
pub mod importing;

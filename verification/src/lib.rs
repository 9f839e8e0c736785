pub mod answer;
pub mod api;
pub mod audit;
pub mod chunking;
pub mod concepts;
pub mod context;
pub mod correction;
pub mod digest;
pub mod facts;
pub mod fusion;
pub mod hierarchy;
pub mod indexing;
pub mod json;
pub mod listing;
pub mod pattern;
pub mod profile;
pub mod prompts;
pub mod ranking;
pub mod records;
pub mod search;
pub mod settings;
pub mod stream;
pub mod tally;
pub mod tasks;
pub mod terms;
pub mod text;
pub mod vectors;

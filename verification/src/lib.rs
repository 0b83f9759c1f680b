//! A minimal single-node relational engine: a restricted `SELECT` query is
//! tokenized, parsed and planned, the plan runs against an in-memory table
//! store, and the store persists as a whole-file binary snapshot.
pub mod chars;
pub mod codec;
pub mod executor;
pub mod lexer;
pub mod parser;
pub mod query;
pub mod schema;
pub mod storage_engine;

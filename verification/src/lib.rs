//! Local code intelligence: verified building blocks for indexing, filtering,
//! searching and evaluating source repositories.

pub mod app;
pub mod chunk;
pub mod config;
pub mod evaluate;
pub mod filter;
pub mod float;
pub mod json;
pub mod language;
pub mod lexical;
pub mod lsp;
pub mod manifest;
pub mod margins;
pub mod models;
pub mod openapi;
pub mod order;
pub mod paths;
pub mod server;
pub mod spans;
pub mod store;
pub mod syntax;
pub mod table;
pub mod text;
pub mod unicode;
pub mod workspace;

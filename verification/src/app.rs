//! What the application decides: indexing, search, navigation and readiness.

pub mod fusion;
pub mod indexing;
pub mod matching;
pub mod navigation;
pub mod readiness;
pub mod search;

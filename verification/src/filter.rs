//! Source-role classification and retrieval filters.

pub mod request;
pub mod source_role;

pub use request::{
    EffectiveFilter, EffectiveFilterReport, FilterError, FilterRequest, GlobPattern,
};
pub use source_role::{classify_source_role, SourceRole, SourceRoleError};

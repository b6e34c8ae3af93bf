//! Evaluation definitions, their execution and its metrics.
//!
//! Ranking stays in the service: this module only records bounded evidence and computes
//! metrics from it. Ranks are one-based. Path patterns are repository-relative globs.

pub mod definition;
pub mod metrics;
pub mod runner;
pub mod types;

pub use definition::{validate_definition, DefinitionError, PatternList};
pub use metrics::{
    aggregate, metrics_given, pattern_matches, query_metrics, validate_pattern, Matched,
};
pub use runner::{
    build_evidence, check_mappings, has_failures, parse_workspace_mapping,
    parse_workspace_mappings, plan_query, searched_report, MappingError, QueryPlan, SearchOutcome,
    WorkspaceMapping,
};
pub use types::{
    bounded_snippet, AggregateReport, EvalQuery, EvalTimings, EvalWorkspace, EvaluationFile,
    IndexLifecycleAction, Mean, QueryMetrics, QueryReport, Ratio, RerankerState, ResultEvidence,
    SNIPPET_BUDGET,
};

//! The shapes of evaluation files, evidence and reports.
//!
//! Rates and means are exact: they are given as fractions. Times are whole nanoseconds,
//! and scores are single-precision numbers by their bits.

use crate::evaluate::metrics;
use crate::filter::{EffectiveFilterReport, FilterRequest};
use crate::table::Table;
use crate::{paths, text};
use vstd::prelude::*;

verus! {

/// The workspaces that an evaluation refers to, and the queries to run against them.
#[derive(Debug)]
pub struct EvaluationFile {
    pub workspaces: Vec<EvalWorkspace>,
    pub queries: Vec<EvalQuery>,
}

/// A workspace of an evaluation file.
#[derive(Debug, PartialEq, Eq)]
pub struct EvalWorkspace {
    /// What queries call it.
    pub key: String,
    /// The queries of a missing workspace fail where it is required, and are skipped where
    /// it is not.
    pub required: bool,
}

/// One query of an evaluation file.
#[derive(Debug)]
pub struct EvalQuery {
    pub query: String,
    /// The key of the workspace that the query runs against.
    pub workspace: String,
    /// How many results are wanted; `None` is the default of the service.
    pub top_k: Option<usize>,
    pub filters: Option<FilterRequest>,
    /// Patterns of paths that count as a hit.
    pub expected_paths: Vec<String>,
    /// Patterns of paths that should appear.
    pub preferred_paths: Vec<String>,
    /// Patterns of paths that should not appear before the first hit.
    pub disfavored_paths: Vec<String>,
    /// Names of the roles that the first hit may have; none allows all.
    pub expected_roles: Vec<String>,
    /// A text that must appear in the snippet of a result.
    pub required_snippet: Option<String>,
}

/// What an [`EvalQuery`] expects.
pub struct Expectations {
    pub expected_paths: Seq<Seq<char>>,
    pub preferred_paths: Seq<Seq<char>>,
    pub disfavored_paths: Seq<Seq<char>>,
    pub expected_roles: Seq<Seq<char>>,
    pub required_snippet: Option<Seq<char>>,
}

impl View for EvalQuery {
    type V = Expectations;

    open spec fn view(&self) -> Expectations {
        Expectations {
            expected_paths: text::views(self.expected_paths@),
            preferred_paths: text::views(self.preferred_paths@),
            disfavored_paths: text::views(self.disfavored_paths@),
            expected_roles: text::views(self.expected_roles@),
            required_snippet: paths::opt_view(self.required_snippet),
        }
    }
}

// ---------------------------------------------------------------------------
// Evidence
// ---------------------------------------------------------------------------

/// How many bytes of a chunk are kept as evidence.
pub const SNIPPET_BUDGET: usize = 400;

/// What is kept of a result: enough to evaluate a query, without the whole chunk.
#[derive(Debug)]
pub struct ResultEvidence {
    pub rank: usize,
    pub relative_file_path: String,
    pub language: String,
    pub source_role: String,
    pub start_line: u32,
    pub end_line: u32,
    pub snippet: String,
    pub reranker_score: Option<u32>,
}

/// What a [`ResultEvidence`] says.
pub struct EvidenceView {
    pub rank: usize,
    pub relative_file_path: Seq<char>,
    pub language: Seq<char>,
    pub source_role: Seq<char>,
    pub start_line: u32,
    pub end_line: u32,
    pub snippet: Seq<char>,
    pub reranker_score: Option<u32>,
}

impl View for ResultEvidence {
    type V = EvidenceView;

    open spec fn view(&self) -> EvidenceView {
        EvidenceView {
            rank: self.rank,
            relative_file_path: self.relative_file_path@,
            language: self.language@,
            source_role: self.source_role@,
            start_line: self.start_line,
            end_line: self.end_line,
            snippet: self.snippet@,
            reranker_score: self.reranker_score,
        }
    }
}

/// What a list of evidence says.
pub open spec fn evidence_views(list: Seq<ResultEvidence>) -> Seq<EvidenceView> {
    list.map_values(|row: ResultEvidence| row@)
}

/// How many bytes a character has in UTF-8.
pub open spec fn width(c: char) -> nat {
    if (c as u32) < 0x80 {
        1
    } else if (c as u32) < 0x800 {
        2
    } else if (c as u32) < 0x1_0000 {
        3
    } else {
        4
    }
}

/// How many bytes a text has in UTF-8.
pub open spec fn byte_length(s: Seq<char>) -> nat
    decreases s.len(),
{
    if s.len() == 0 {
        0
    } else {
        byte_length(s.drop_last()) + width(s.last())
    }
}

/// The longest beginning of a text that has at most `budget` bytes.
pub open spec fn fitting(s: Seq<char>, budget: nat) -> Seq<char>
    decreases s.len(),
{
    if s.len() == 0 || byte_length(s) <= budget {
        s
    } else {
        fitting(s.drop_last(), budget)
    }
}

/// The snippet of a code: the code itself where it is within the budget, and otherwise its
/// longest beginning that is, with an ellipsis behind it.
pub open spec fn snippet_of(code: Seq<char>) -> Seq<char> {
    if byte_length(code) <= SNIPPET_BUDGET {
        code
    } else {
        fitting(code, SNIPPET_BUDGET as nat).push('\u{2026}')
    }
}

fn char_width(c: char) -> (r: usize)
    ensures
        r == width(c),
{
    let code: u32 = c as u32;
    if code < 0x80 {
        1
    } else if code < 0x800 {
        2
    } else if code < 0x1_0000 {
        3
    } else {
        4
    }
}

proof fn lemma_length_grows(s: Seq<char>, n: int)
    requires
        0 <= n <= s.len(),
    ensures
        byte_length(s.take(n)) <= byte_length(s),
    decreases s.len(),
{
    if n < s.len() {
        assert(s.drop_last().take(n) =~= s.take(n));
        lemma_length_grows(s.drop_last(), n);
    } else {
        assert(s.take(n) =~= s);
    }
}

proof fn lemma_fitting(s: Seq<char>, n: int, budget: nat)
    requires
        0 <= n < s.len(),
        byte_length(s.take(n)) <= budget,
        byte_length(s.take(n + 1)) > budget,
    ensures
        fitting(s, budget) == s.take(n),
    decreases s.len(),
{
    lemma_length_grows(s, n + 1);
    let front = s.drop_last();
    assert(front.take(n) =~= s.take(n));
    if n + 1 < s.len() {
        assert(front.take(n + 1) =~= s.take(n + 1));
        lemma_fitting(front, n, budget);
    } else {
        assert(front =~= s.take(n));
        assert(fitting(front, budget) == front);
    }
}

/// Cut code to the snippet budget. Short code is returned unchanged.
pub fn bounded_snippet(code: &str) -> (r: String)
    ensures
        r@ == snippet_of(code@),
{
    let chars = text::chars_of(code);
    let mut size: usize = 0;
    let mut i: usize = 0;
    while i < chars.len()
        invariant
            i <= chars@.len(),
            chars@ == code@,
            size == byte_length(code@.take(i as int)),
            size <= SNIPPET_BUDGET,
        decreases chars@.len() - i,
    {
        let next: usize = size + char_width(chars[i]);
        proof {
            assert(code@.take(i + 1).drop_last() =~= code@.take(i as int));
            assert(code@.take(i + 1).last() == chars@[i as int]);
        }
        if next > SNIPPET_BUDGET {
            let mut out = text::string_of(&chars, 0, i);
            proof {
                assert(out@ =~= code@.take(i as int));
                lemma_fitting(code@, i as int, SNIPPET_BUDGET as nat);
                lemma_length_grows(code@, i + 1);
            }
            out.push('\u{2026}');
            return out;
        }
        size = next;
        i = i + 1;
    }
    assert(code@.take(i as int) =~= code@);
    code.to_owned()
}

/// A snippet has at most one character more than its budget has bytes.
pub proof fn law_snippets_are_bounded(code: Seq<char>)
    ensures
        snippet_of(code).len() <= SNIPPET_BUDGET + 1,
        byte_length(code) <= SNIPPET_BUDGET ==> snippet_of(code) == code,
        snippet_of(code).len() > 0 ==> snippet_of(code).drop_last().is_prefix_of(code),
{
    lemma_fitting_is_a_beginning(code, SNIPPET_BUDGET as nat);
    lemma_chars_are_bytes(code);
    lemma_chars_are_bytes(fitting(code, SNIPPET_BUDGET as nat));
    let cut = fitting(code, SNIPPET_BUDGET as nat);
    assert(cut.push('\u{2026}').drop_last() =~= cut);
    if code.len() > 0 {
        assert(code.drop_last().is_prefix_of(code));
    }
}

proof fn lemma_chars_are_bytes(s: Seq<char>)
    ensures
        s.len() <= byte_length(s),
    decreases s.len(),
{
    if s.len() > 0 {
        lemma_chars_are_bytes(s.drop_last());
    }
}

proof fn lemma_fitting_is_a_beginning(s: Seq<char>, budget: nat)
    ensures
        fitting(s, budget).is_prefix_of(s),
        byte_length(fitting(s, budget)) <= budget,
    decreases s.len(),
{
    if s.len() > 0 && byte_length(s) > budget {
        lemma_fitting_is_a_beginning(s.drop_last(), budget);
        assert(s.drop_last().is_prefix_of(s));
    }
}

// ---------------------------------------------------------------------------
// What the service reported
// ---------------------------------------------------------------------------

/// What is seen of the reranker in the results of a query.
#[derive(Debug, Clone, Copy, PartialEq, Eq, Structural)]
pub enum RerankerState {
    /// There are no results.
    NoResults,
    /// The report was not reranked.
    NotReranked,
    /// The report was reranked, and every result has a score.
    Reranked,
    /// The report was reranked, and some results have no score.
    PartiallyScored,
}

/// How long the stages of a search took, in nanoseconds.
#[derive(Debug, Clone, Copy, PartialEq, Eq, Structural)]
pub struct EvalTimings {
    pub query_embedding_ns: u64,
    pub lancedb_search_ns: u64,
    pub lexical_search_ns: u64,
    pub lsp_search_ns: u64,
    pub fusion_ns: u64,
    pub reranking_ns: u64,
    pub total_ns: u64,
}

/// What was done about the index before a search.
#[derive(Debug, Clone, Copy, PartialEq, Eq, Structural)]
pub enum IndexLifecycleAction {
    Reused,
    Created,
    WaitedForExistingJob,
    RefreshedIncrementally,
}

// ---------------------------------------------------------------------------
// Metrics and reports
// ---------------------------------------------------------------------------

/// A fraction.
#[derive(Debug, Clone, Copy, PartialEq, Eq, Structural)]
pub struct Ratio {
    pub numerator: u128,
    pub denominator: u128,
}

/// The mean of fractions: their sum, divided by their number.
#[derive(Debug, PartialEq, Eq)]
pub struct Mean {
    pub terms: Vec<Ratio>,
}

/// The metrics of one query.
#[derive(Debug)]
pub struct QueryMetrics {
    /// A result matches an expected path.
    pub hit: bool,
    /// There is a hit, and the other expectations are met.
    pub success: bool,
    /// Why the query succeeded or failed.
    pub reason: String,
    /// The first result is a hit.
    pub hit_at_1: bool,
    /// One of the first three results is a hit.
    pub hit_at_3: bool,
    /// One of the first eight results is a hit.
    pub hit_at_8_or_window: bool,
    /// The number of results, at most eight.
    pub window: usize,
    /// The rank of the first hit.
    pub first_expected_rank: Option<usize>,
    /// One divided by the rank of the first hit; zero where there is none.
    pub reciprocal_rank: Ratio,
    /// How many results match a preferred path.
    pub preferred_count: usize,
    /// How many results before the first hit match a disfavored path; all results count
    /// where there is none.
    pub disfavored_before_first_expected: usize,
    /// How many results each role has.
    pub role_distribution: Table<usize>,
    pub reranker: RerankerState,
    /// The role of the first hit is an expected one; `None` where there is no hit.
    pub expected_roles_satisfied: Option<bool>,
    /// A result holds the required snippet; `None` where none is required.
    pub required_snippet_found: Option<bool>,
}

/// What a [`QueryMetrics`] says.
pub struct MetricsView {
    pub hit: bool,
    pub success: bool,
    pub reason: Seq<char>,
    pub hit_at_1: bool,
    pub hit_at_3: bool,
    pub hit_at_8_or_window: bool,
    pub window: usize,
    pub first_expected_rank: Option<usize>,
    pub reciprocal_rank: Ratio,
    pub preferred_count: usize,
    pub disfavored_before_first_expected: usize,
    pub role_distribution: Map<Seq<char>, usize>,
    pub reranker: RerankerState,
    pub expected_roles_satisfied: Option<bool>,
    pub required_snippet_found: Option<bool>,
}

impl View for QueryMetrics {
    type V = MetricsView;

    open spec fn view(&self) -> MetricsView {
        MetricsView {
            hit: self.hit,
            success: self.success,
            reason: self.reason@,
            hit_at_1: self.hit_at_1,
            hit_at_3: self.hit_at_3,
            hit_at_8_or_window: self.hit_at_8_or_window,
            window: self.window,
            first_expected_rank: self.first_expected_rank,
            reciprocal_rank: self.reciprocal_rank,
            preferred_count: self.preferred_count,
            disfavored_before_first_expected: self.disfavored_before_first_expected,
            role_distribution: self.role_distribution@,
            reranker: self.reranker,
            expected_roles_satisfied: self.expected_roles_satisfied,
            required_snippet_found: self.required_snippet_found,
        }
    }
}

/// The metrics of a query that was not run.
pub open spec fn no_metrics(reason: Seq<char>) -> MetricsView {
    MetricsView {
        hit: false,
        success: false,
        reason,
        hit_at_1: false,
        hit_at_3: false,
        hit_at_8_or_window: false,
        window: 0,
        first_expected_rank: None,
        reciprocal_rank: Ratio { numerator: 0, denominator: 1 },
        preferred_count: 0,
        disfavored_before_first_expected: 0,
        role_distribution: Map::empty(),
        reranker: RerankerState::NoResults,
        expected_roles_satisfied: None,
        required_snippet_found: None,
    }
}

/// The report of one query.
#[derive(Debug)]
pub struct QueryReport {
    pub query: EvalQuery,
    /// The query was not run: its optional workspace was missing. Skipped queries are left
    /// out of all rates.
    pub skipped: bool,
    /// `success`, `failure` or `skipped`.
    pub outcome: String,
    pub reason: String,
    pub evidence: Vec<ResultEvidence>,
    pub reranked: bool,
    pub warning: Option<String>,
    pub filters: Option<EffectiveFilterReport>,
    pub timings: Option<EvalTimings>,
    pub index_action: Option<IndexLifecycleAction>,
    pub index_wait_ns: Option<u64>,
    pub metrics: QueryMetrics,
}

/// A report of a query that was not run.
pub open spec fn is_unrun(
    report: QueryReport,
    query: EvalQuery,
    skipped: bool,
    outcome: Seq<char>,
    reason: Seq<char>,
    metrics_reason: Seq<char>,
) -> bool {
    &&& report.query == query
    &&& report.skipped == skipped
    &&& report.outcome@ == outcome
    &&& report.reason@ == reason
    &&& report.evidence@.len() == 0
    &&& !report.reranked
    &&& report.warning is None
    &&& report.filters is None
    &&& report.timings is None
    &&& report.index_action is None
    &&& report.index_wait_ns is None
    &&& report.metrics@ == no_metrics(metrics_reason)
}

fn unrun(query: EvalQuery, skipped: bool, outcome: &str, reason: &str, metrics_reason: &str) -> (r:
    QueryReport)
    ensures
        is_unrun(r, query, skipped, outcome@, reason@, metrics_reason@),
{
    QueryReport {
        query,
        skipped,
        outcome: outcome.to_owned(),
        reason: reason.to_owned(),
        evidence: Vec::new(),
        reranked: false,
        warning: None,
        filters: None,
        timings: None,
        index_action: None,
        index_wait_ns: None,
        metrics: QueryMetrics {
            hit: false,
            success: false,
            reason: metrics_reason.to_owned(),
            hit_at_1: false,
            hit_at_3: false,
            hit_at_8_or_window: false,
            window: 0,
            first_expected_rank: None,
            reciprocal_rank: Ratio { numerator: 0, denominator: 1 },
            preferred_count: 0,
            disfavored_before_first_expected: 0,
            role_distribution: Table::new(),
            reranker: RerankerState::NoResults,
            expected_roles_satisfied: None,
            required_snippet_found: None,
        },
    }
}

impl QueryReport {
    /// The report of a query with its evidence and what the service reported.
    pub fn new(
        query: EvalQuery,
        evidence: Vec<ResultEvidence>,
        reranked: bool,
        warning: Option<String>,
        filters: Option<EffectiveFilterReport>,
        timings: Option<EvalTimings>,
        index_action: Option<IndexLifecycleAction>,
        index_wait_ns: Option<u64>,
    ) -> (r: Self)
        ensures
            r.query == query,
            !r.skipped,
            r.outcome@ == (if r.metrics.success {
                "success"@
            } else {
                "failure"@
            }),
            r.reason@ == r.metrics.reason@,
            r.evidence == evidence,
            r.reranked == reranked,
            r.warning == warning,
            r.filters == filters,
            r.timings == timings,
            r.index_action == index_action,
            r.index_wait_ns == index_wait_ns,
            r.metrics@ == metrics::metrics_of(query@, evidence_views(evidence@), reranked),
    {
        let metrics = metrics::query_metrics(&query, &evidence, reranked);
        let outcome = if metrics.success {
            "success".to_owned()
        } else {
            "failure".to_owned()
        };
        let reason = metrics.reason.clone();
        QueryReport {
            query,
            skipped: false,
            outcome,
            reason,
            evidence,
            reranked,
            warning,
            filters,
            timings,
            index_action,
            index_wait_ns,
            metrics,
        }
    }

    /// The report of a query that was skipped because its optional workspace was missing.
    pub fn skipped(query: EvalQuery, reason: String) -> (r: Self)
        ensures
            is_unrun(r, query, true, "skipped"@, reason@, "skipped"@),
    {
        unrun(query, true, "skipped", reason.as_str(), "skipped")
    }

    /// The report of a query that could not be run.
    pub fn failed(query: EvalQuery, reason: String) -> (r: Self)
        ensures
            is_unrun(r, query, false, "failure"@, reason@, reason@),
    {
        unrun(query, false, "failure", reason.as_str(), reason.as_str())
    }
}

/// The metrics of all queries.
#[derive(Debug)]
pub struct AggregateReport {
    pub query_count: usize,
    /// The queries that were not skipped.
    pub executed_count: usize,
    pub skipped_count: usize,
    pub success_count: usize,
    pub failure_count: usize,
    pub hit_queries: usize,
    /// Rates are over the executed queries; `None` where there are none.
    pub hit_rate: Option<Ratio>,
    pub hit_at_1_rate: Option<Ratio>,
    pub hit_at_3_rate: Option<Ratio>,
    pub hit_at_8_or_window_rate: Option<Ratio>,
    /// The mean reciprocal rank.
    pub mrr: Option<Mean>,
    /// The median of the total times, in nanoseconds.
    pub median_latency_ns: Option<Ratio>,
    /// The 95th percentile of the total times, by nearest rank, in nanoseconds.
    pub p95_latency_ns: Option<u64>,
    /// The queries with a warning.
    pub fallback_queries: usize,
    pub fallback_rate: Option<Ratio>,
    pub index_created: usize,
    pub index_reused: usize,
    pub index_waited: usize,
    /// How many results each role has.
    pub role_distribution: Table<usize>,
    pub queries: Vec<QueryReport>,
}

/// A snippet is the whole code where that has at most 400 bytes, and else the longest
/// beginning of the code that has, with an ellipsis behind it.
pub proof fn law_snippets_are_the_longest_beginnings(code: Seq<char>)
    ensures
        byte_length(code) <= 400 ==> snippet_of(code) == code,
        byte_length(code) > 400 ==> exists|n: int|
            {
                &&& 0 <= n < code.len()
                &&& snippet_of(code) == (#[trigger] code.take(n)).push('\u{2026}')
                &&& byte_length(code.take(n)) <= 400
                &&& byte_length(code.take(n + 1)) > 400
            },
{
    if byte_length(code) > 400 {
        lemma_fitting_is_longest(code, 400);
        let cut = fitting(code, 400);
        assert(code.take(cut.len() as int) =~= cut);
    }
}

proof fn lemma_fitting_is_longest(s: Seq<char>, budget: nat)
    requires
        byte_length(s) > budget,
    ensures
        fitting(s, budget).len() < s.len(),
        fitting(s, budget) == s.take(fitting(s, budget).len() as int),
        byte_length(fitting(s, budget)) <= budget,
        byte_length(s.take((fitting(s, budget).len() + 1) as int)) > budget,
    decreases s.len(),
{
    let rest = s.drop_last();
    let n = fitting(s, budget).len() as int;
    if byte_length(rest) > budget {
        lemma_fitting_is_longest(rest, budget);
        assert(rest.take(n) =~= s.take(n));
        assert(rest.take(n + 1) =~= s.take(n + 1));
    } else {
        assert(fitting(rest, budget) == rest);
        assert(s.take(n) =~= rest);
        assert(s.take(n + 1) =~= s);
    }
}

/// The bytes of a text are those of its UTF-8 form.
pub proof fn law_bytes_are_those_of_utf8(s: Seq<char>)
    ensures
        byte_length(s) == vstd::utf8::encode_utf8(s).len(),
    decreases s.len(),
{
    lemma_bytes_from_the_front(s);
    if s.len() > 0 {
        vstd::utf8::encode_utf8_first_scalar(s);
        law_bytes_are_those_of_utf8(s.drop_first());
    }
}

proof fn lemma_bytes_from_the_front(s: Seq<char>)
    ensures
        s.len() > 0 ==> byte_length(s) == width(s[0]) + byte_length(s.drop_first()),
    decreases s.len(),
{
    if s.len() > 1 {
        lemma_bytes_from_the_front(s.drop_last());
        assert(s.drop_last().drop_first() =~= s.drop_first().drop_last());
    } else if s.len() == 1 {
        assert(s.drop_first() =~= seq![]);
        assert(s.drop_last() =~= seq![]);
    }
}

/// A query that was not run has found nothing: no evidence, no hit, no rank and no success,
/// and it was neither reranked nor timed.
pub proof fn law_queries_that_were_not_run_found_nothing(
    report: QueryReport,
    query: EvalQuery,
    skipped: bool,
    outcome: Seq<char>,
    reason: Seq<char>,
    metrics_reason: Seq<char>,
)
    requires
        is_unrun(report, query, skipped, outcome, reason, metrics_reason),
    ensures
        report.query == query,
        report.skipped == skipped,
        report.outcome@ == outcome,
        report.reason@ == reason,
        report.metrics.reason@ == metrics_reason,
        report.evidence@.len() == 0,
        !report.reranked,
        report.warning is None && report.filters is None && report.timings is None,
        report.index_action is None && report.index_wait_ns is None,
        !report.metrics.success && !report.metrics.hit,
        !report.metrics.hit_at_1 && !report.metrics.hit_at_3 && !report.metrics.hit_at_8_or_window,
        report.metrics.first_expected_rank is None,
        report.metrics.reciprocal_rank.numerator == 0,
        report.metrics.window == 0,
        report.metrics.preferred_count == 0,
        report.metrics.disfavored_before_first_expected == 0,
        report.metrics.reranker == RerankerState::NoResults,
        report.metrics.expected_roles_satisfied is None,
        report.metrics.required_snippet_found is None,
{
    let shown = report.metrics@;
    assert(shown == no_metrics(metrics_reason));
    assert(shown.hit == report.metrics.hit);
}

} // verus!

//! Search: what is asked for, what the channels bring, and what is returned.

use crate::app::indexing::IndexAction;
use crate::app::{fusion, matching};
use crate::filter::request::{self, FilterView};
use crate::filter::{EffectiveFilter, EffectiveFilterReport};
use crate::lexical::{self, LexicalMatch};
use crate::lsp::Location;
use crate::store::{self, Hit, HitView};
use crate::workspace::Workspace;
use crate::{order, text};
use vstd::prelude::*;

verus! {

// ---------------------------------------------------------------------------
// Reranking
// ---------------------------------------------------------------------------

/// The text of a hit that is reranked.
pub open spec fn rerank_text(hit: HitView) -> Seq<char> {
    hit.chunk.relative_file_path + "\n"@ + hit.chunk.code
}

/// The texts that are reranked.
pub fn rerank_documents(hits: &[Hit]) -> (r: Vec<String>)
    ensures
        r@.len() == hits@.len(),
        forall|i: int| 0 <= i < r@.len() ==> (#[trigger] r@[i])@ == rerank_text(hits@[i]@),
{
    let mut out: Vec<String> = Vec::new();
    let mut i: usize = 0;
    while i < hits.len()
        invariant
            i <= hits@.len(),
            out@.len() == i,
            forall|k: int| 0 <= k < i ==> (#[trigger] out@[k])@ == rerank_text(hits@[k]@),
        decreases hits@.len() - i,
    {
        out.push(
            text::concat3(
                hits[i].chunk.relative_file_path.as_str(),
                "\n",
                hits[i].chunk.code.as_str(),
            ),
        );
        i = i + 1;
    }
    out
}

/// Every rank names a hit.
pub open spec fn ranks_fit(ranks: Seq<(usize, u32)>, count: nat) -> bool {
    forall|i: int| 0 <= i < ranks.len() ==> (#[trigger] ranks[i]).0 < count
}

/// The first `k` ranked hits, with their reranker scores.
pub open spec fn reranked(
    hits: Seq<HitView>,
    ranks: Seq<(usize, u32)>,
    k: usize,
) -> Seq<HitView> {
    let kept = matching::first_of(ranks, k);
    Seq::new(
        kept.len(),
        |i: int| HitView { reranker_score: Some(kept[i].1), ..hits[kept[i].0 as int] },
    )
}

/// Take the first `k` ranked hits, with their reranker scores.
pub fn apply_ranks(hits: &[Hit], ranks: &[(usize, u32)], k: usize) -> (r: Vec<Hit>)
    requires
        ranks_fit(ranks@, hits@.len()),
    ensures
        store::hit_views(r@) == reranked(store::hit_views(hits@), ranks@, k),
{
    let ghost all = store::hit_views(hits@);
    let ghost kept = matching::first_of(ranks@, k);
    let mut out: Vec<Hit> = Vec::new();
    let mut i: usize = 0;
    while i < ranks.len() && i < k
        invariant
            i <= ranks@.len(),
            i <= k,
            all == store::hit_views(hits@),
            kept == matching::first_of(ranks@, k),
            ranks_fit(ranks@, hits@.len()),
            out@.len() == i,
            forall|m: int| 0 <= m < i ==> (#[trigger] out@[m])@ == reranked(all, ranks@, k)[m],
        decreases ranks@.len() - i,
    {
        let (index, score) = ranks[i];
        assert(ranks@[i as int].0 < hits@.len());
        let mut hit = hits[index].clone();
        hit.reranker_score = Some(score);
        proof {
            assert(kept[i as int] == ranks@[i as int]);
            assert(all[index as int] == hits@[index as int]@);
            assert(hit@ == reranked(all, ranks@, k)[i as int]);
        }
        out.push(hit);
        i = i + 1;
    }
    assert(store::hit_views(out@) =~= reranked(all, ranks@, k));
    out
}

/// What the reranker answered.
#[derive(Debug)]
pub enum RerankOutcome {
    /// The shortlist's places, the best first, each with its score.
    Ranks(Vec<(usize, u32)>),
    /// The text of the error.
    Failed(String),
}

/// The results of a search.
#[derive(Debug)]
pub struct RerankedResults {
    pub results: Vec<Hit>,
    pub reranked: bool,
    pub warning: Option<String>,
}

/// The warning of a search whose reranker failed.
pub open spec fn reranker_warning(error: Seq<char>) -> Seq<char> {
    "Reranker unavailable or invalid response; semantic results returned: "@ + error
}

/// The results of a search: reranked, or the best of the shortlist where reranking
/// failed. Everything passes the filter.
pub open spec fn final_results(
    filter: FilterView,
    hits: Seq<HitView>,
    outcome: RerankOutcome,
    k: usize,
) -> Seq<HitView> {
    match outcome {
        RerankOutcome::Ranks(ranks) => store::passing(filter, reranked(hits, ranks@, k)),
        RerankOutcome::Failed(_) => store::passing(filter, matching::first_of(hits, k)),
    }
}

/// Finish a search with what the reranker answered. Reranking fails open: the best of
/// the shortlist is returned with a warning, which replaces earlier ones.
pub fn rerank_into_report(
    filter: &EffectiveFilter,
    hits: Vec<Hit>,
    outcome: RerankOutcome,
    k: usize,
    warning: Option<String>,
) -> (r: RerankedResults)
    requires
        outcome is Ranks ==> ranks_fit(outcome->Ranks_0@, hits@.len()),
    ensures
        store::hit_views(r.results@) == final_results(
            filter@,
            store::hit_views(hits@),
            outcome,
            k,
        ),
        r.reranked == (outcome is Ranks),
        match outcome {
            RerankOutcome::Ranks(_) => r.warning == warning,
            RerankOutcome::Failed(error) => r.warning is Some && r.warning->0@ == reranker_warning(
                error@,
            ),
        },
{
    match outcome {
        RerankOutcome::Ranks(ranks) => {
            let ranked = apply_ranks(&hits, &ranks, k);
            RerankedResults {
                results: store::retain_matching(filter, &ranked),
                reranked: true,
                warning,
            }
        },
        RerankOutcome::Failed(error) => {
            let text = text::concat2(
                "Reranker unavailable or invalid response; semantic results returned: ",
                error.as_str(),
            );
            let best = fusion::first_hits(hits, k);
            RerankedResults {
                results: store::retain_matching(filter, &best),
                reranked: false,
                warning: Some(text),
            }
        },
    }
}

/// No result bypasses the filter, whatever the reranker answers.
pub proof fn law_no_result_bypasses_the_filter(
    filter: FilterView,
    hits: Seq<HitView>,
    outcome: RerankOutcome,
    k: usize,
    i: int,
)
    requires
        0 <= i < final_results(filter, hits, outcome, k).len(),
    ensures
        store::hit_passes(filter, final_results(filter, hits, outcome, k)[i]),
{
    match outcome {
        RerankOutcome::Ranks(ranks) => {
            store::lemma_passing(filter, reranked(hits, ranks@, k));
        },
        RerankOutcome::Failed(_) => {
            store::lemma_passing(filter, matching::first_of(hits, k));
        },
    }
}

// ---------------------------------------------------------------------------
// Requests and reports
// ---------------------------------------------------------------------------

/// Why a search is refused or fails.
#[derive(Debug)]
pub enum SearchError {
    EmptyQuery,
    QueryTooLong,
    TopKOutOfRange,
    Filter(crate::filter::FilterError),
    NotIndexed,
    NoCandidates,
}

impl SearchError {
    /// The text of the error.
    pub open spec fn text(self) -> Seq<char> {
        match self {
            SearchError::EmptyQuery => "query must not be empty"@,
            SearchError::QueryTooLong => "query exceeds 16000 bytes"@,
            SearchError::TopKOutOfRange => "top_k must be 1..=40"@,
            SearchError::Filter(error) => error@.text(),
            SearchError::NotIndexed => "workspace is not indexed; call index_workspace first"@,
            SearchError::NoCandidates => "semantic, lexical, and LSP retrieval all failed or returned no candidates"@,
        }
    }

    /// The text of the error.
    pub fn message(&self) -> (r: String)
        ensures
            r@ == self.text(),
    {
        match self {
            SearchError::EmptyQuery => "query must not be empty".to_owned(),
            SearchError::QueryTooLong => "query exceeds 16000 bytes".to_owned(),
            SearchError::TopKOutOfRange => "top_k must be 1..=40".to_owned(),
            SearchError::Filter(error) => error.to_string(),
            SearchError::NotIndexed => {
                "workspace is not indexed; call index_workspace first".to_owned()
            },
            SearchError::NoCandidates => {
                "semantic, lexical, and LSP retrieval all failed or returned no candidates".to_owned()
            },
        }
    }
}

/// A search request that can be carried out.
#[derive(Debug)]
pub struct SearchPlan {
    pub top_k: usize,
    /// Some filter was asked for, even an empty one.
    pub filtering_requested: bool,
    pub filters: EffectiveFilter,
}

/// The longest query, in bytes.
pub const MAX_QUERY_BYTES: usize = 16000;

/// How many results are wanted.
pub open spec fn wanted_results(top_k: Option<usize>, default_top_k: usize) -> usize {
    match top_k {
        Some(k) => k,
        None => default_top_k,
    }
}

pub open spec fn asks_for_filtering(request: request::RequestView) -> bool {
    request.languages is Some || request.include_paths is Some || request.exclude_paths is Some
        || request.source_roles is Some
}

/// Test a search request: its query, its number of results, and its filters, in this
/// order.
pub fn plan_search(
    query: &str,
    top_k: Option<usize>,
    default_top_k: usize,
    filter_request: &crate::filter::FilterRequest,
) -> (r: Result<SearchPlan, SearchError>)
    ensures
        ({
            let k = wanted_results(top_k, default_top_k);
            let size = vstd::utf8::encode_utf8(query@).len();
            match r {
                Ok(plan) => {
                    &&& !text::blank(query@)
                    &&& size <= MAX_QUERY_BYTES
                    &&& 1 <= k <= 40
                    &&& request::request_refusal(filter_request@) is None
                    &&& plan.top_k == k
                    &&& plan.filtering_requested == asks_for_filtering(filter_request@)
                    &&& plan.filters@ == request::effective(filter_request@)
                },
                Err(SearchError::EmptyQuery) => text::blank(query@),
                Err(SearchError::QueryTooLong) => !text::blank(query@) && size > MAX_QUERY_BYTES,
                Err(SearchError::TopKOutOfRange) => {
                    &&& !text::blank(query@)
                    &&& size <= MAX_QUERY_BYTES
                    &&& !(1 <= k <= 40)
                },
                Err(SearchError::Filter(error)) => {
                    &&& !text::blank(query@)
                    &&& size <= MAX_QUERY_BYTES
                    &&& 1 <= k <= 40
                    &&& request::request_refusal(filter_request@) == Some(error@)
                },
                Err(_) => false,
            }
        }),
{
    if text::is_blank(query) {
        return Err(SearchError::EmptyQuery);
    }
    if query.as_bytes().len() > MAX_QUERY_BYTES {
        return Err(SearchError::QueryTooLong);
    }
    let k: usize = match top_k {
        Some(k) => k,
        None => default_top_k,
    };
    if k < 1 || k > 40 {
        return Err(SearchError::TopKOutOfRange);
    }
    let filtering_requested = filter_request.languages.is_some()
        || filter_request.include_paths.is_some() || filter_request.exclude_paths.is_some()
        || filter_request.source_roles.is_some();
    match EffectiveFilter::from_request(filter_request) {
        Ok(filters) => Ok(SearchPlan { top_k: k, filtering_requested, filters }),
        Err(error) => Err(SearchError::Filter(error)),
    }
}

/// The warnings of a search so far, and one more.
pub open spec fn added_warning(warning: Option<Seq<char>>, message: Seq<char>) -> Seq<char> {
    match warning {
        Some(earlier) => earlier + "; "@ + message,
        None => message,
    }
}

/// Add a warning to those of a search so far.
pub fn add_warning(warning: Option<String>, message: &str) -> (r: Option<String>)
    ensures
        r is Some,
        r->0@ == added_warning(crate::paths::opt_view(warning), message@),
{
    match warning {
        Some(earlier) => Some(text::concat3(earlier.as_str(), "; ", message)),
        None => Some(message.to_owned()),
    }
}

/// What a channel found, or the text of its error.
#[derive(Debug)]
pub enum ChannelOutcome<T> {
    Found(T),
    Failed(String),
}

/// Why the semantic channel has no hits.
#[derive(Debug)]
pub enum SemanticFailure {
    /// The query could not be embedded.
    Embedding(String),
    /// The store could not be searched.
    Retrieval(String),
}

/// What the three channels brought.
#[derive(Debug)]
pub struct Retrieved {
    pub semantic: Result<Vec<Hit>, SemanticFailure>,
    pub lexical: ChannelOutcome<Vec<LexicalMatch>>,
    pub lsp_locations: Vec<Location>,
    /// What language servers failed with, each with the provider's name.
    pub lsp_failures: Vec<String>,
}

/// What a search goes on with.
#[derive(Debug)]
pub enum Candidates {
    /// Fused hits, to be scored.
    Fused(Vec<Hit>),
    /// Nothing was found, and a filter was asked for.
    Nothing,
    /// Nothing was found.
    Failed(SearchError),
}

pub open spec fn semantic_found(retrieved: Retrieved) -> Seq<HitView> {
    match retrieved.semantic {
        Ok(hits) => store::hit_views(hits@),
        Err(_) => seq![],
    }
}

pub open spec fn lexical_found(
    retrieved: Retrieved,
    chunks: Seq<HitView>,
    limit: usize,
) -> Seq<HitView> {
    match retrieved.lexical {
        ChannelOutcome::Found(matches) => matching::lexical_list(
            chunks,
            lexical::match_views(matches@),
            limit,
        ),
        ChannelOutcome::Failed(_) => seq![],
    }
}

/// The warnings after the language servers, the semantic channel and the lexical
/// channel, in this order.
pub open spec fn channel_warnings(
    warning: Option<Seq<char>>,
    retrieved: Retrieved,
) -> Option<Seq<char>> {
    let after_lsp = if retrieved.lsp_failures@.len() > 0 {
        Some(
            added_warning(
                warning,
                "Optional LSP provider unavailable: "@ + text::joined(
                    text::views(retrieved.lsp_failures@),
                    "; "@,
                ),
            ),
        )
    } else {
        warning
    };
    let after_semantic = match retrieved.semantic {
        Ok(_) => after_lsp,
        Err(SemanticFailure::Retrieval(error)) => Some(
            added_warning(after_lsp, "Semantic retrieval unavailable: "@ + error@),
        ),
        Err(SemanticFailure::Embedding(error)) => Some(
            added_warning(
                after_lsp,
                "Query embedding unavailable; lexical results used: "@ + error@,
            ),
        ),
    };
    match retrieved.lexical {
        ChannelOutcome::Found(_) => after_semantic,
        ChannelOutcome::Failed(error) => Some(
            added_warning(after_semantic, "Lexical retrieval unavailable: "@ + error@),
        ),
    }
}

/// The result of [`combine`].
#[derive(Debug)]
pub struct Combined {
    pub candidates: Candidates,
    pub warning: Option<String>,
}

/// Combine what the channels brought. A channel that failed is left out with a warning.
/// Where nothing was found, the search ends: with no results where a filter was asked
/// for, and else with an error.
pub fn combine(
    chunks: &[Hit],
    retrieved: Retrieved,
    lexical_limit: usize,
    lsp_limit: usize,
    filtering_requested: bool,
    warning: Option<String>,
) -> (r: Combined)
    requires
        retrieved.semantic is Ok ==> fusion::all_semantic(retrieved.semantic->Ok_0@),
        retrieved.lexical is Found ==> retrieved.lexical->Found_0@.len() <= u32::MAX,
    ensures
        ({
            let all = store::hit_views(chunks@);
            let semantic = semantic_found(retrieved);
            let lexical = lexical_found(retrieved, all, lexical_limit);
            let lsp = matching::lsp_list(all, retrieved.lsp_locations@, lsp_limit);
            let nothing = semantic.len() == 0 && lexical.len() == 0 && lsp.len() == 0;
            &&& crate::paths::opt_view(r.warning) == channel_warnings(
                crate::paths::opt_view(warning),
                retrieved,
            )
            &&& match r.candidates {
                Candidates::Fused(hits) => !nothing && store::hit_views(hits@) == fusion::fused(
                    semantic,
                    lexical,
                    lsp,
                ),
                Candidates::Nothing => nothing && filtering_requested,
                Candidates::Failed(error) => nothing && !filtering_requested && error
                    == SearchError::NoCandidates,
            }
        }),
{
    let mut warning = warning;
    let ghost first_warning = crate::paths::opt_view(warning);
    if retrieved.lsp_failures.len() > 0 {
        let message = text::concat2(
            "Optional LSP provider unavailable: ",
            text::join(&retrieved.lsp_failures, "; ").as_str(),
        );
        warning = add_warning(warning, message.as_str());
    }
    let semantic: Vec<Hit> = match retrieved.semantic {
        Ok(hits) => hits,
        Err(SemanticFailure::Retrieval(error)) => {
            let message = text::concat2("Semantic retrieval unavailable: ", error.as_str());
            warning = add_warning(warning, message.as_str());
            Vec::new()
        },
        Err(SemanticFailure::Embedding(error)) => {
            let message = text::concat2(
                "Query embedding unavailable; lexical results used: ",
                error.as_str(),
            );
            warning = add_warning(warning, message.as_str());
            Vec::new()
        },
    };
    assert(store::hit_views(semantic@) =~= semantic_found(retrieved));
    let lexical: Vec<Hit> = match &retrieved.lexical {
        ChannelOutcome::Found(matches) => matching::map_lexical_matches(chunks, matches, lexical_limit),
        ChannelOutcome::Failed(error) => {
            let message = text::concat2("Lexical retrieval unavailable: ", error.as_str());
            warning = add_warning(warning, message.as_str());
            Vec::new()
        },
    };
    let ghost all = store::hit_views(chunks@);
    assert(store::hit_views(lexical@) =~= lexical_found(retrieved, all, lexical_limit));
    let lsp = matching::map_lsp_locations(chunks, &retrieved.lsp_locations, lsp_limit);
    proof {
        assert(store::hit_views(semantic@).len() == semantic@.len());
        assert(store::hit_views(lexical@).len() == lexical@.len());
        assert(store::hit_views(lsp@).len() == lsp@.len());
        assert forall|i: int| 0 <= i < lexical@.len() implies (
        #[trigger] lexical@[i]).lexical_rank is Some by {
            assert(store::hit_views(lexical@)[i] == lexical@[i]@);
        }
        let located = matching::lsp_list(all, retrieved.lsp_locations@, lsp_limit);
        assert forall|i: int| 0 <= i < lsp@.len() implies (#[trigger] lsp@[i]).lsp_rank is Some by {
            assert(store::hit_views(lsp@)[i] == lsp@[i]@);
            assert(located[i] == lsp@[i]@);
        }
    }
    if semantic.len() == 0 && lexical.len() == 0 && lsp.len() == 0 {
        let candidates = if filtering_requested {
            Candidates::Nothing
        } else {
            Candidates::Failed(SearchError::NoCandidates)
        };
        return Combined { candidates, warning };
    }
    Combined { candidates: Candidates::Fused(fusion::fuse_hits(&semantic, &lexical, &lsp)), warning }
}

// ---------------------------------------------------------------------------
// The report
// ---------------------------------------------------------------------------

/// How long the stages of a search took, in nanoseconds.
#[derive(Debug, Clone, Copy, PartialEq, Eq, Structural)]
pub struct Timings {
    pub query_embedding_ns: u64,
    pub lancedb_search_ns: u64,
    pub lexical_search_ns: u64,
    pub lsp_search_ns: u64,
    pub fusion_ns: u64,
    pub reranking_ns: u64,
    pub total_ns: u64,
}

impl Default for Timings {
    fn default() -> (r: Self)
        ensures
            r == no_time(),
    {
        Timings {
            query_embedding_ns: 0,
            lancedb_search_ns: 0,
            lexical_search_ns: 0,
            lsp_search_ns: 0,
            fusion_ns: 0,
            reranking_ns: 0,
            total_ns: 0,
        }
    }
}

/// The times of a search that has not begun.
pub open spec fn no_time() -> Timings {
    Timings {
        query_embedding_ns: 0,
        lancedb_search_ns: 0,
        lexical_search_ns: 0,
        lsp_search_ns: 0,
        fusion_ns: 0,
        reranking_ns: 0,
        total_ns: 0,
    }
}

/// What a search did about its index.
#[derive(Debug, Clone, Copy, PartialEq, Eq, Structural)]
pub struct SearchIndexLifecycle {
    pub action: IndexAction,
    pub wait_ns: u64,
}

/// The result of a search.
#[derive(Debug)]
pub struct SearchReport {
    pub workspace: Workspace,
    pub query: String,
    pub candidate_count: usize,
    pub reranked: bool,
    pub warning: Option<String>,
    pub timings: Timings,
    pub results: Vec<Hit>,
    pub index: SearchIndexLifecycle,
    pub filters: EffectiveFilterReport,
}

/// The report of a search that has found nothing yet.
pub fn begin_report(
    workspace: Workspace,
    query: &str,
    filters: &EffectiveFilter,
    index: SearchIndexLifecycle,
    warning: Option<String>,
) -> (r: SearchReport)
    ensures
        r.workspace == workspace,
        r.query@ == query@,
        r.candidate_count == 0,
        !r.reranked,
        r.warning == warning,
        r.timings == no_time(),
        r.results@.len() == 0,
        r.index == index,
        r.filters@ == request::reported(filters@),
{
    SearchReport {
        workspace,
        query: query.to_owned(),
        candidate_count: 0,
        reranked: false,
        warning,
        timings: Timings::default(),
        results: Vec::new(),
        index,
        filters: filters.report(),
    }
}

/// Put the results of a shortlist of `candidate_count` hits into a report.
pub fn conclude_report(
    report: SearchReport,
    candidate_count: usize,
    outcome: RerankedResults,
    timings: Timings,
) -> (r: SearchReport)
    ensures
        r.workspace == report.workspace,
        r.query == report.query,
        r.candidate_count == candidate_count,
        r.reranked == outcome.reranked,
        r.warning == outcome.warning,
        r.timings == timings,
        r.results == outcome.results,
        r.index == report.index,
        r.filters == report.filters,
{
    SearchReport {
        workspace: report.workspace,
        query: report.query,
        candidate_count,
        reranked: outcome.reranked,
        warning: outcome.warning,
        timings,
        results: outcome.results,
        index: report.index,
        filters: report.filters,
    }
}

/// The languages of hits, each once and in order.
pub open spec fn languages_of(hits: Seq<HitView>) -> Seq<Seq<char>> {
    order::ascending_list(hits.map_values(|hit: HitView| hit.chunk.language))
}

/// List the languages of hits, each once and in order.
pub fn indexed_languages(hits: &[Hit]) -> (r: Vec<String>)
    ensures
        text::views(r@) == languages_of(store::hit_views(hits@)),
{
    let mut all: Vec<String> = Vec::new();
    let mut i: usize = 0;
    while i < hits.len()
        invariant
            i <= hits@.len(),
            all@.len() == i,
            forall|k: int| 0 <= k < i ==> (#[trigger] all@[k])@ == hits@[k].chunk.language@,
        decreases hits@.len() - i,
    {
        all.push(hits[i].chunk.language.clone());
        i = i + 1;
    }
    proof {
        let views = store::hit_views(hits@).map_values(|hit: HitView| hit.chunk.language);
        assert(text::views(all@) =~= views);
    }
    order::distinct(&all)
}

/// The text of a failed language server.
pub fn provider_failure(provider: &str, error: &str) -> (r: String)
    ensures
        r@ == provider@ + ": "@ + error@,
{
    text::concat3(provider, ": ", error)
}

/// A search gives at most as many results as were asked for, whatever the reranker
/// answers.
pub proof fn law_results_are_bounded(
    filter: FilterView,
    hits: Seq<HitView>,
    outcome: RerankOutcome,
    k: usize,
)
    ensures
        final_results(filter, hits, outcome, k).len() <= k,
{
    match outcome {
        RerankOutcome::Ranks(ranks) => {
            lemma_passing_is_shorter(filter, reranked(hits, ranks@, k));
        },
        RerankOutcome::Failed(_) => {
            lemma_passing_is_shorter(filter, matching::first_of(hits, k));
        },
    }
}

proof fn lemma_passing_is_shorter(filter: FilterView, hits: Seq<HitView>)
    ensures
        store::passing(filter, hits).len() <= hits.len(),
    decreases hits.len(),
{
    if hits.len() > 0 {
        lemma_passing_is_shorter(filter, hits.drop_last());
    }
}

proof fn lemma_passing_all(filter: FilterView, hits: Seq<HitView>)
    requires
        forall|i: int| 0 <= i < hits.len() ==> store::hit_passes(filter, #[trigger] hits[i]),
    ensures
        store::passing(filter, hits) == hits,
    decreases hits.len(),
{
    if hits.len() > 0 {
        let rest = hits.drop_last();
        assert forall|i: int| 0 <= i < rest.len() implies store::hit_passes(
            filter,
            #[trigger] rest[i],
        ) by {
            assert(rest[i] == hits[i]);
        }
        lemma_passing_all(filter, rest);
        assert(store::hit_passes(filter, hits[hits.len() - 1]));
        assert(rest.push(hits.last()) =~= hits);
    } else {
        assert(store::passing(filter, hits) =~= hits);
    }
}

/// Where the reranker answers, the results are the hits in the order that it gives them, each
/// with its score. Where it fails, they are the hits as they stand, with no score added. As
/// many come out as are wanted, or all that there are.
pub proof fn law_the_reranker_decides_the_order(
    filter: FilterView,
    hits: Seq<HitView>,
    outcome: RerankOutcome,
    k: usize,
)
    requires
        forall|i: int| 0 <= i < hits.len() ==> store::hit_passes(filter, #[trigger] hits[i]),
        outcome matches RerankOutcome::Ranks(ranks) ==> ranks_fit(ranks@, hits.len()),
    ensures
        ({
            let results = final_results(filter, hits, outcome, k);
            match outcome {
                RerankOutcome::Ranks(ranks) => {
                    &&& results.len() == (if ranks@.len() < k {
                        ranks@.len()
                    } else {
                        k as nat
                    })
                    &&& forall|i: int|
                        0 <= i < results.len() ==> #[trigger] results[i] == (HitView {
                            reranker_score: Some(ranks@[i].1),
                            ..hits[ranks@[i].0 as int]
                        })
                },
                RerankOutcome::Failed(_) => {
                    &&& results.len() == (if hits.len() < k {
                        hits.len()
                    } else {
                        k as nat
                    })
                    &&& forall|i: int| 0 <= i < results.len() ==> #[trigger] results[i] == hits[i]
                },
            }
        }),
{
    match outcome {
        RerankOutcome::Ranks(ranks) => {
            let list = reranked(hits, ranks@, k);
            assert forall|i: int| 0 <= i < list.len() implies store::hit_passes(
                filter,
                #[trigger] list[i],
            ) by {
                assert(ranks@[i].0 < hits.len());
                assert(store::hit_passes(filter, hits[ranks@[i].0 as int]));
            }
            lemma_passing_all(filter, list);
        },
        RerankOutcome::Failed(_) => {
            let list = matching::first_of(hits, k);
            assert forall|i: int| 0 <= i < list.len() implies store::hit_passes(
                filter,
                #[trigger] list[i],
            ) by {
                assert(list[i] == hits[i]);
            }
            lemma_passing_all(filter, list);
        },
    }
}

/// A text stands somewhere in a warning.
pub open spec fn mentions(warning: Option<Seq<char>>, part: Seq<char>) -> bool {
    warning matches Some(text) && text::contains(text, part)
}

proof fn lemma_joined_mentions(a: Seq<char>, b: Seq<char>, part: Seq<char>)
    ensures
        text::contains(a, part) ==> text::contains(a + b, part),
        text::contains(b, part) ==> text::contains(a + b, part),
        text::contains(part, part),
{
    assert(part.subrange(0, part.len() as int) =~= part);
    assert(text::occurs_at(part, part, 0));
    if text::contains(a, part) {
        let i = choose|i: int| text::occurs_at(a, part, i);
        assert((a + b).subrange(i, i + part.len()) =~= a.subrange(i, i + part.len()));
        assert(text::occurs_at(a + b, part, i));
    }
    if text::contains(b, part) {
        let i = choose|i: int| text::occurs_at(b, part, i);
        assert((a + b).subrange(a.len() + i, a.len() + i + part.len()) =~= b.subrange(
            i,
            i + part.len(),
        ));
        assert(text::occurs_at(a + b, part, a.len() + i));
    }
}

proof fn lemma_added_mentions(warning: Option<Seq<char>>, head: Seq<char>, tail: Seq<char>, part: Seq<char>)
    ensures
        text::contains(added_warning(warning, head + tail), tail),
        mentions(warning, part) ==> text::contains(added_warning(warning, head + tail), part),
{
    let message = head + tail;
    lemma_joined_mentions(head, tail, tail);
    if let Some(earlier) = warning {
        lemma_joined_mentions(earlier + "; "@, message, tail);
        lemma_joined_mentions(earlier, "; "@, part);
        lemma_joined_mentions(earlier + "; "@, message, part);
    }
}

/// A search warns of what failed and of nothing else: without failures the warning stays as
/// it is, and else it mentions what was warned of before and the error of each channel that
/// failed.
pub proof fn law_failed_channels_are_warned_of(
    warning: Option<Seq<char>>,
    retrieved: Retrieved,
    earlier: Seq<char>,
)
    ensures
        ({
            let after = channel_warnings(warning, retrieved);
            let calm = retrieved.lsp_failures@.len() == 0 && retrieved.semantic is Ok
                && retrieved.lexical is Found;
            &&& calm ==> after == warning
            &&& !calm ==> after is Some
            &&& mentions(warning, earlier) ==> mentions(after, earlier)
            &&& retrieved.lsp_failures@.len() > 0 ==> mentions(
                after,
                text::joined(text::views(retrieved.lsp_failures@), "; "@),
            )
            &&& retrieved.semantic matches Err(SemanticFailure::Retrieval(error)) ==> mentions(
                after,
                error@,
            )
            &&& retrieved.semantic matches Err(SemanticFailure::Embedding(error)) ==> mentions(
                after,
                error@,
            )
            &&& retrieved.lexical matches ChannelOutcome::Failed(error) ==> mentions(after, error@)
        }),
{
    let failed = text::joined(text::views(retrieved.lsp_failures@), "; "@);
    let head = "Optional LSP provider unavailable: "@;
    let one = if retrieved.lsp_failures@.len() > 0 {
        Some(added_warning(warning, head + failed))
    } else {
        warning
    };
    lemma_added_mentions(warning, head, failed, earlier);
    let (head_a, head_b) = (
        "Semantic retrieval unavailable: "@,
        "Query embedding unavailable; lexical results used: "@,
    );
    let (two, said) = match retrieved.semantic {
        Ok(_) => (one, seq![]),
        Err(SemanticFailure::Retrieval(error)) => {
            lemma_added_mentions(one, head_a, error@, earlier);
            lemma_added_mentions(one, head_a, error@, failed);
            (Some(added_warning(one, head_a + error@)), error@)
        },
        Err(SemanticFailure::Embedding(error)) => {
            lemma_added_mentions(one, head_b, error@, earlier);
            lemma_added_mentions(one, head_b, error@, failed);
            (Some(added_warning(one, head_b + error@)), error@)
        },
    };
    if let ChannelOutcome::Failed(error) = retrieved.lexical {
        let head_c = "Lexical retrieval unavailable: "@;
        lemma_added_mentions(two, head_c, error@, earlier);
        lemma_added_mentions(two, head_c, error@, failed);
        lemma_added_mentions(two, head_c, error@, said);
    }
}

/// A channel that worked adds what it found, and one that failed adds nothing and takes
/// nothing from the others.
pub proof fn law_channels_add_what_they_found(
    retrieved: Retrieved,
    chunks: Seq<HitView>,
    limit: usize,
)
    ensures
        match retrieved.semantic {
            Ok(hits) => semantic_found(retrieved) == store::hit_views(hits@),
            Err(_) => semantic_found(retrieved).len() == 0,
        },
        match retrieved.lexical {
            ChannelOutcome::Found(matches) => lexical_found(retrieved, chunks, limit)
                == matching::lexical_list(chunks, lexical::match_views(matches@), limit),
            ChannelOutcome::Failed(_) => lexical_found(retrieved, chunks, limit).len() == 0,
        },
{
}

/// As many results are wanted as a search asks for, and where it does not say, as many as are
/// configured.
pub proof fn law_searches_get_as_many_results_as_they_ask_for(top_k: Option<usize>, default: usize)
    ensures
        top_k matches Some(k) ==> wanted_results(top_k, default) == k,
        top_k is None ==> wanted_results(top_k, default) == default,
{
}

/// A document that is reranked is the path of a hit and its code behind it, so that hits of
/// different code in one file are told apart.
pub proof fn law_reranked_documents_hold_the_code(a: HitView, b: HitView)
    ensures
        a.chunk.relative_file_path == b.chunk.relative_file_path && rerank_text(a) == rerank_text(b)
            ==> a.chunk.code == b.chunk.code,
        rerank_text(a).take(a.chunk.relative_file_path.len() as int) == a.chunk.relative_file_path,
{
    let head = a.chunk.relative_file_path + "\n"@;
    let n = head.len() as int;
    assert(rerank_text(a).skip(n) =~= a.chunk.code);
    if a.chunk.relative_file_path == b.chunk.relative_file_path {
        assert(rerank_text(b).skip(n) =~= b.chunk.code);
    }
    assert(rerank_text(a).take(a.chunk.relative_file_path.len() as int)
        =~= a.chunk.relative_file_path);
}

/// The languages of an index are those of its chunks, each once and in order.
pub proof fn law_indexed_languages_are_those_of_the_chunks(hits: Seq<HitView>, language: Seq<char>)
    ensures
        languages_of(hits).contains(language) <==> exists|i: int|
            0 <= i < hits.len() && (#[trigger] hits[i]).chunk.language == language,
        order::ascending(languages_of(hits)),
{
    let all = hits.map_values(|hit: HitView| hit.chunk.language);
    order::lemma_ascending_list(all);
    assert(languages_of(hits).contains(language) <==> all.contains(language));
    if all.contains(language) {
        let i = choose|i: int| 0 <= i < all.len() && all[i] == language;
        assert(hits[i].chunk.language == language);
    }
    if exists|i: int| 0 <= i < hits.len() && (#[trigger] hits[i]).chunk.language == language {
        let i = choose|i: int|
            0 <= i < hits.len() && (#[trigger] hits[i]).chunk.language == language;
        assert(all[i] == language);
    }
}

/// A filter is asked for as soon as one of its parts is, even an empty one.
pub proof fn law_any_part_asks_for_filtering(request: request::RequestView)
    ensures
        !asks_for_filtering(request) <==> request == (request::RequestView {
            languages: None,
            include_paths: None,
            exclude_paths: None,
            source_roles: None,
        }),
{
}

} // verus!

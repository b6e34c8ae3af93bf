//! Metrics of queries, and of all queries together.

use crate::evaluate::types::{
    self, AggregateReport, EvalQuery, EvidenceView, Expectations, IndexLifecycleAction, Mean,
    MetricsView, QueryMetrics, QueryReport, Ratio, RerankerState, ResultEvidence,
};
use crate::filter::request;
use crate::filter::{FilterError, GlobPattern};
use crate::order::{self, Ranked};
use crate::table::Table;
use crate::text;
use vstd::prelude::*;

verus! {

// ---------------------------------------------------------------------------
// Patterns
// ---------------------------------------------------------------------------

/// Why a pattern of an evaluation is refused, if it is: as the pattern of a filter is, or
/// for a `.` component.
pub open spec fn pattern_refusal(pattern: Seq<char>) -> Option<request::Refusal> {
    if request::pattern_refusal(pattern) is Some {
        request::pattern_refusal(pattern)
    } else if text::split(text::trim(pattern), '/').contains("."@) {
        Some(request::Refusal::CurrentDirectory { pattern })
    } else {
        None
    }
}

/// The refusal of the first pattern that is refused.
pub open spec fn first_refusal(patterns: Seq<Seq<char>>) -> Option<request::Refusal>
    decreases patterns.len(),
{
    if patterns.len() == 0 {
        None
    } else {
        match first_refusal(patterns.drop_last()) {
            Some(refusal) => Some(refusal),
            None => pattern_refusal(patterns.last()),
        }
    }
}

/// Test a repository-relative path pattern. It must not be empty or malformed, uses `/`
/// separators, and stays inside the repository: no backslashes, no absolute paths, no `.`
/// or `..` components.
pub fn validate_pattern(pattern: &str) -> (r: Result<(), FilterError>)
    ensures
        match r {
            Ok(_) => pattern_refusal(pattern@) is None,
            Err(error) => pattern_refusal(pattern@) == Some(error@),
        },
{
    if let Err(error) = GlobPattern::compile(pattern) {
        return Err(error);
    }
    let trimmed = text::trimmed(pattern);
    if text::has_text(&text::split_on(trimmed.as_str(), '/'), ".") {
        return Err(FilterError::CurrentDirectory { pattern: pattern.to_owned() });
    }
    Ok(())
}

/// A valid pattern matches a path.
pub open spec fn matches(pattern: Seq<char>, path: Seq<char>) -> bool {
    request::pattern_refusal(pattern) is None && request::pattern_matches(
        request::compiled(pattern),
        path,
    )
}

/// Whether a pattern matches a path. A pattern that is refused matches nothing.
pub fn pattern_matches(pattern: &str, path: &str) -> (r: bool)
    ensures
        r == matches(pattern@, path@),
{
    match GlobPattern::compile(pattern) {
        Ok(compiled) => compiled.matches(path),
        Err(_) => false,
    }
}

/// One of the patterns matches a path.
pub open spec fn any_matches(patterns: Seq<Seq<char>>, path: Seq<char>) -> bool {
    exists|i: int| 0 <= i < patterns.len() && matches(#[trigger] patterns[i], path)
}

fn some_matches(patterns: &[String], path: &str) -> (r: bool)
    ensures
        r == any_matches(text::views(patterns@), path@),
{
    let ghost views = text::views(patterns@);
    let mut i: usize = 0;
    while i < patterns.len()
        invariant
            i <= patterns@.len(),
            views == text::views(patterns@),
            forall|k: int| 0 <= k < i ==> !matches(#[trigger] views[k], path@),
        decreases patterns@.len() - i,
    {
        assert(views[i as int] == patterns@[i as int]@);
        if pattern_matches(patterns[i].as_str(), path) {
            return true;
        }
        i = i + 1;
    }
    false
}

// ---------------------------------------------------------------------------
// One query
// ---------------------------------------------------------------------------

/// Which results match one of the patterns.
pub open spec fn matched(patterns: Seq<Seq<char>>, evidence: Seq<EvidenceView>) -> Seq<bool> {
    Seq::new(evidence.len(), |i: int| any_matches(patterns, evidence[i].relative_file_path))
}

/// Which results match the expected, the preferred and the disfavored paths of a query.
#[derive(Debug)]
pub struct Matched {
    pub expected: Vec<bool>,
    pub preferred: Vec<bool>,
    pub disfavored: Vec<bool>,
}

/// What a [`Matched`] says.
pub struct MatchedView {
    pub expected: Seq<bool>,
    pub preferred: Seq<bool>,
    pub disfavored: Seq<bool>,
}

impl View for Matched {
    type V = MatchedView;

    open spec fn view(&self) -> MatchedView {
        MatchedView {
            expected: self.expected@,
            preferred: self.preferred@,
            disfavored: self.disfavored@,
        }
    }
}

impl MatchedView {
    /// It says something of each of `count` results.
    pub open spec fn covers(self, count: nat) -> bool {
        &&& self.expected.len() == count
        &&& self.preferred.len() == count
        &&& self.disfavored.len() == count
    }
}

/// The place of the first `true` at or behind `from`; the length where there is none.
pub open spec fn first_true(flags: Seq<bool>, from: int) -> int
    decreases flags.len() - from,
{
    if from < 0 || from >= flags.len() {
        flags.len() as int
    } else if flags[from] {
        from
    } else {
        first_true(flags, from + 1)
    }
}

/// How many are `true`.
pub open spec fn true_count(flags: Seq<bool>) -> nat
    decreases flags.len(),
{
    if flags.len() == 0 {
        0
    } else {
        true_count(flags.drop_last()) + if flags.last() {
            1nat
        } else {
            0nat
        }
    }
}

/// The number of a name in a tally.
pub open spec fn counted(tally: Map<Seq<char>, usize>, name: Seq<char>) -> int {
    if tally.contains_key(name) {
        tally[name] as int
    } else {
        0
    }
}

/// How many results each role has.
pub open spec fn role_tally(evidence: Seq<EvidenceView>) -> Map<Seq<char>, usize>
    decreases evidence.len(),
{
    if evidence.len() == 0 {
        Map::empty()
    } else {
        let before = role_tally(evidence.drop_last());
        let role = evidence.last().source_role;
        before.insert(role, (counted(before, role) + 1) as usize)
    }
}

/// How many results have a role.
pub open spec fn role_count(evidence: Seq<EvidenceView>, role: Seq<char>) -> nat
    decreases evidence.len(),
{
    if evidence.len() == 0 {
        0
    } else {
        role_count(evidence.drop_last(), role) + if evidence.last().source_role == role {
            1nat
        } else {
            0nat
        }
    }
}

/// The tally gives each role that a result has its number of results, and holds no other
/// role.
pub proof fn law_the_tally_counts_each_role(evidence: Seq<EvidenceView>, role: Seq<char>)
    requires
        evidence.len() <= usize::MAX,
    ensures
        counted(role_tally(evidence), role) == role_count(evidence, role),
        role_tally(evidence).contains_key(role) <==> role_count(evidence, role) > 0,
        role_count(evidence, role) <= evidence.len(),
    decreases evidence.len(),
{
    if evidence.len() > 0 {
        law_the_tally_counts_each_role(evidence.drop_last(), role);
    }
}

/// A result holds a text in its snippet.
pub open spec fn any_holds(evidence: Seq<EvidenceView>, wanted: Seq<char>) -> bool {
    exists|i: int|
        0 <= i < evidence.len() && text::contains((#[trigger] evidence[i]).snippet, wanted)
}

/// What is seen of the reranker.
pub open spec fn reranker_state_of(reranked: bool, evidence: Seq<EvidenceView>) -> RerankerState {
    if evidence.len() == 0 {
        RerankerState::NoResults
    } else if !reranked {
        RerankerState::NotReranked
    } else if forall|i: int|
        0 <= i < evidence.len() ==> (#[trigger] evidence[i]).reranker_score is Some {
        RerankerState::Reranked
    } else {
        RerankerState::PartiallyScored
    }
}

/// Why a query succeeded or failed.
pub open spec fn reason_of(
    rank: Option<usize>,
    results: nat,
    roles_ok: bool,
    snippet_ok: bool,
) -> Seq<char> {
    match rank {
        Some(rank) => {
            let head = "expected hit at rank "@ + text::decimal(rank as nat);
            if roles_ok && snippet_ok {
                head + "; all expectations satisfied"@
            } else if snippet_ok {
                head + ", but "@ + "expected role not present on the first expected hit"@
            } else if roles_ok {
                head + ", but "@ + "required snippet not found in returned chunks"@
            } else {
                head + ", but "@
                    + "expected role not present on the first expected hit; required snippet not found in returned chunks"@
            }
        },
        None => if results == 0 {
            "no results returned; no expected-path hit"@
        } else {
            "no expected-path hit among "@ + text::decimal(results) + " results"@
        },
    }
}

/// The rank of the first hit.
pub open spec fn first_rank(hits: Seq<bool>) -> Option<usize> {
    let at = first_true(hits, 0);
    if at < hits.len() {
        Some((at + 1) as usize)
    } else {
        None
    }
}

/// The metrics of a query, given which results match its paths.
pub open spec fn metrics_with(
    found: MatchedView,
    query: Expectations,
    evidence: Seq<EvidenceView>,
    reranked: bool,
) -> MetricsView {
    let rank = first_rank(found.expected);
    let before = match rank {
        Some(rank) => found.disfavored.take(rank - 1),
        None => found.disfavored,
    };
    let roles = match rank {
        Some(rank) => Some(
            query.expected_roles.len() == 0 || query.expected_roles.contains(
                evidence[rank - 1].source_role,
            ),
        ),
        None => None,
    };
    let snippet = match query.required_snippet {
        Some(wanted) => Some(any_holds(evidence, wanted)),
        None => None,
    };
    let roles_ok = roles != Some(false);
    let snippet_ok = snippet != Some(false);
    MetricsView {
        hit: rank is Some,
        success: rank is Some && roles_ok && snippet_ok,
        reason: reason_of(rank, evidence.len(), roles_ok, snippet_ok),
        hit_at_1: rank == Some(1usize),
        hit_at_3: rank is Some && rank->0 <= 3,
        hit_at_8_or_window: rank is Some && rank->0 <= 8,
        window: if evidence.len() < 8 {
            evidence.len() as usize
        } else {
            8
        },
        first_expected_rank: rank,
        reciprocal_rank: match rank {
            Some(rank) => Ratio { numerator: 1, denominator: rank as u128 },
            None => Ratio { numerator: 0, denominator: 1 },
        },
        preferred_count: true_count(found.preferred) as usize,
        disfavored_before_first_expected: true_count(before) as usize,
        role_distribution: role_tally(evidence),
        reranker: reranker_state_of(reranked, evidence),
        expected_roles_satisfied: roles,
        required_snippet_found: snippet,
    }
}

/// Which results match the paths of a query.
pub open spec fn matched_by(query: Expectations, evidence: Seq<EvidenceView>) -> MatchedView {
    MatchedView {
        expected: matched(query.expected_paths, evidence),
        preferred: matched(query.preferred_paths, evidence),
        disfavored: matched(query.disfavored_paths, evidence),
    }
}

/// The metrics of a query.
pub open spec fn metrics_of(
    query: Expectations,
    evidence: Seq<EvidenceView>,
    reranked: bool,
) -> MetricsView {
    metrics_with(matched_by(query, evidence), query, evidence, reranked)
}

fn match_results(patterns: &[String], evidence: &[ResultEvidence]) -> (r: Vec<bool>)
    ensures
        r@ == matched(text::views(patterns@), types::evidence_views(evidence@)),
{
    let ghost views = types::evidence_views(evidence@);
    let ghost all = matched(text::views(patterns@), views);
    let mut out: Vec<bool> = Vec::new();
    let mut i: usize = 0;
    while i < evidence.len()
        invariant
            i <= evidence@.len(),
            views == types::evidence_views(evidence@),
            all == matched(text::views(patterns@), views),
            out@ == all.take(i as int),
        decreases evidence@.len() - i,
    {
        assert(views[i as int] == evidence@[i as int]@);
        out.push(some_matches(patterns, evidence[i].relative_file_path.as_str()));
        assert(out@ =~= all.take(i + 1));
        i = i + 1;
    }
    assert(out@ =~= all);
    out
}

fn find_first(hits: &[bool]) -> (r: Option<usize>)
    ensures
        r == first_rank(hits@),
        match r {
            Some(rank) => 1 <= rank <= hits@.len(),
            None => true,
        },
{
    let mut i: usize = 0;
    while i < hits.len()
        invariant
            i <= hits@.len(),
            first_true(hits@, 0) == first_true(hits@, i as int),
        decreases hits@.len() - i,
    {
        if hits[i] {
            return Some(i + 1);
        }
        i = i + 1;
    }
    None
}

proof fn lemma_true_count_bound(flags: Seq<bool>)
    ensures
        true_count(flags) <= flags.len(),
    decreases flags.len(),
{
    if flags.len() > 0 {
        lemma_true_count_bound(flags.drop_last());
    }
}

fn count_true(flags: &[bool], upto: usize) -> (r: usize)
    requires
        upto <= flags@.len(),
    ensures
        r == true_count(flags@.take(upto as int)),
{
    let mut count: usize = 0;
    let mut i: usize = 0;
    while i < upto
        invariant
            i <= upto <= flags@.len(),
            count <= i,
            count == true_count(flags@.take(i as int)),
        decreases upto - i,
    {
        proof {
            assert(flags@.take(i + 1).drop_last() =~= flags@.take(i as int));
        }
        if flags[i] {
            count = count + 1;
        }
        i = i + 1;
    }
    count
}

fn tally_roles(evidence: &[ResultEvidence]) -> (r: Table<usize>)
    ensures
        r@ == role_tally(types::evidence_views(evidence@)),
{
    let ghost views = types::evidence_views(evidence@);
    let mut out: Table<usize> = Table::new();
    let mut i: usize = 0;
    while i < evidence.len()
        invariant
            i <= evidence@.len(),
            views == types::evidence_views(evidence@),
            out@ == role_tally(views.take(i as int)),
        decreases evidence@.len() - i,
    {
        let role = evidence[i].source_role.clone();
        proof {
            assert(views.take(i + 1).drop_last() =~= views.take(i as int));
            assert(views.take(i + 1).last() == evidence@[i as int]@);
            law_the_tally_counts_each_role(views.take(i as int), role@);
        }
        let before: usize = match out.get(role.as_str()) {
            Some(count) => *count,
            None => 0,
        };
        out.insert(role, before + 1);
        i = i + 1;
    }
    assert(views.take(i as int) =~= views);
    out
}

fn holds_snippet(evidence: &[ResultEvidence], wanted: &str) -> (r: bool)
    ensures
        r == any_holds(types::evidence_views(evidence@), wanted@),
{
    let ghost views = types::evidence_views(evidence@);
    let mut i: usize = 0;
    while i < evidence.len()
        invariant
            i <= evidence@.len(),
            views == types::evidence_views(evidence@),
            forall|k: int|
                0 <= k < i ==> !text::contains((#[trigger] views[k]).snippet, wanted@),
        decreases evidence@.len() - i,
    {
        assert(views[i as int] == evidence@[i as int]@);
        if text::has_part(evidence[i].snippet.as_str(), wanted) {
            return true;
        }
        i = i + 1;
    }
    false
}

/// What is seen of the reranker.
pub fn reranker_state(reranked: bool, evidence: &[ResultEvidence]) -> (r: RerankerState)
    ensures
        r == reranker_state_of(reranked, types::evidence_views(evidence@)),
{
    if evidence.len() == 0 {
        return RerankerState::NoResults;
    }
    if !reranked {
        return RerankerState::NotReranked;
    }
    let ghost views = types::evidence_views(evidence@);
    let mut i: usize = 0;
    while i < evidence.len()
        invariant
            i <= evidence@.len(),
            evidence@.len() > 0,
            reranked,
            views == types::evidence_views(evidence@),
            forall|k: int| 0 <= k < i ==> (#[trigger] views[k]).reranker_score is Some,
        decreases evidence@.len() - i,
    {
        assert(views[i as int] == evidence@[i as int]@);
        if evidence[i].reranker_score.is_none() {
            return RerankerState::PartiallyScored;
        }
        i = i + 1;
    }
    RerankerState::Reranked
}

fn reason_text(rank: Option<usize>, results: usize, roles_ok: bool, snippet_ok: bool) -> (r: String)
    ensures
        r@ == reason_of(rank, results as nat, roles_ok, snippet_ok),
{
    match rank {
        Some(rank) => {
            let number = text::decimal_text(rank as u64);
            let head = text::concat2("expected hit at rank ", number.as_str());
            let head = head.as_str();
            if roles_ok && snippet_ok {
                text::concat2(head, "; all expectations satisfied")
            } else if snippet_ok {
                text::concat3(
                    head,
                    ", but ",
                    "expected role not present on the first expected hit",
                )
            } else if roles_ok {
                text::concat3(head, ", but ", "required snippet not found in returned chunks")
            } else {
                text::concat3(
                    head,
                    ", but ",
                    "expected role not present on the first expected hit; required snippet not found in returned chunks",
                )
            }
        },
        None => if results == 0 {
            "no results returned; no expected-path hit".to_owned()
        } else {
            let number = text::decimal_text(results as u64);
            text::concat3("no expected-path hit among ", number.as_str(), " results")
        },
    }
}

/// Compute the metrics of a query from its evidence.
pub fn query_metrics(query: &EvalQuery, evidence: &[ResultEvidence], reranked: bool) -> (r:
    QueryMetrics)
    ensures
        r@ == metrics_of(query@, types::evidence_views(evidence@), reranked),
{
    let found = Matched {
        expected: match_results(&query.expected_paths, evidence),
        preferred: match_results(&query.preferred_paths, evidence),
        disfavored: match_results(&query.disfavored_paths, evidence),
    };
    metrics_given(&found, query, evidence, reranked)
}

/// Compute the metrics of a query from its evidence, given which results match its paths.
pub fn metrics_given(
    found: &Matched,
    query: &EvalQuery,
    evidence: &[ResultEvidence],
    reranked: bool,
) -> (r: QueryMetrics)
    requires
        found@.covers(evidence@.len()),
    ensures
        r@ == metrics_with(found@, query@, types::evidence_views(evidence@), reranked),
{
    let ghost views = types::evidence_views(evidence@);
    let rank = find_first(&found.expected);
    let before: usize = match rank {
        Some(rank) => rank - 1,
        None => evidence.len(),
    };
    let expected_roles_satisfied = match rank {
        Some(rank) => {
            assert(views[rank - 1] == evidence@[rank - 1]@);
            Some(
                query.expected_roles.len() == 0 || text::has_text(
                    &query.expected_roles,
                    evidence[rank - 1].source_role.as_str(),
                ),
            )
        },
        None => None,
    };
    let required_snippet_found = match &query.required_snippet {
        Some(wanted) => Some(holds_snippet(evidence, wanted.as_str())),
        None => None,
    };
    let roles_ok = match expected_roles_satisfied {
        Some(satisfied) => satisfied,
        None => true,
    };
    let snippet_ok = match required_snippet_found {
        Some(found) => found,
        None => true,
    };
    let at_most = |limit: usize| -> (within: bool)
        ensures
            within == (rank is Some && rank->0 <= limit),
        {
            match rank {
                Some(rank) => rank <= limit,
                None => false,
            }
        };
    proof {
        assert(found.preferred@.take(evidence@.len() as int) =~= found.preferred@);
        assert(found.disfavored@.take(evidence@.len() as int) =~= found.disfavored@);
        lemma_true_count_bound(found.preferred@);
        lemma_true_count_bound(found.disfavored@.take(before as int));
        assert(text::views(query.expected_roles@).len() == query.expected_roles@.len());
    }
    QueryMetrics {
        hit: rank.is_some(),
        success: rank.is_some() && roles_ok && snippet_ok,
        reason: reason_text(rank, evidence.len(), roles_ok, snippet_ok),
        hit_at_1: at_most(1),
        hit_at_3: at_most(3),
        hit_at_8_or_window: at_most(8),
        window: if evidence.len() < 8 {
            evidence.len()
        } else {
            8
        },
        first_expected_rank: rank,
        reciprocal_rank: match rank {
            Some(rank) => Ratio { numerator: 1, denominator: rank as u128 },
            None => Ratio { numerator: 0, denominator: 1 },
        },
        preferred_count: count_true(&found.preferred, evidence.len()),
        disfavored_before_first_expected: count_true(&found.disfavored, before),
        role_distribution: tally_roles(evidence),
        reranker: reranker_state(reranked, evidence),
        expected_roles_satisfied,
        required_snippet_found,
    }
}

/// A success is a hit, a hit among the first is one among more, and a hit is one if and
/// only if it has a rank.
pub proof fn law_hits_are_nested(query: Expectations, evidence: Seq<EvidenceView>, reranked: bool)
    ensures
        ({
            let metrics = metrics_of(query, evidence, reranked);
            &&& metrics.success ==> metrics.hit
            &&& metrics.hit_at_1 ==> metrics.hit_at_3
            &&& metrics.hit_at_3 ==> metrics.hit_at_8_or_window
            &&& metrics.hit_at_8_or_window ==> metrics.hit
            &&& metrics.hit <==> metrics.first_expected_rank is Some
        }),
{
}

// ---------------------------------------------------------------------------
// All queries
// ---------------------------------------------------------------------------

/// How many reports are of a kind.
pub open spec fn report_count(
    reports: Seq<QueryReport>,
    kind: spec_fn(QueryReport) -> bool,
) -> nat
    decreases reports.len(),
{
    if reports.len() == 0 {
        0
    } else {
        report_count(reports.drop_last(), kind) + if kind(reports.last()) {
            1nat
        } else {
            0nat
        }
    }
}

/// The reciprocal ranks of the executed queries, in order.
pub open spec fn reciprocal_ranks(reports: Seq<QueryReport>) -> Seq<Ratio>
    decreases reports.len(),
{
    if reports.len() == 0 {
        seq![]
    } else if reports.last().skipped {
        reciprocal_ranks(reports.drop_last())
    } else {
        reciprocal_ranks(reports.drop_last()).push(reports.last().metrics.reciprocal_rank)
    }
}

/// The total times of the executed queries that have one, in order.
pub open spec fn latencies(reports: Seq<QueryReport>) -> Seq<u64>
    decreases reports.len(),
{
    if reports.len() == 0 {
        seq![]
    } else {
        let before = latencies(reports.drop_last());
        let last = reports.last();
        if !last.skipped && last.timings is Some {
            before.push(last.timings->0.total_ns)
        } else {
            before
        }
    }
}

/// The sum of two numbers; one that is too large for a machine word stays at the largest.
pub open spec fn added(a: int, b: int) -> usize {
    if a + b > usize::MAX {
        usize::MAX
    } else {
        (a + b) as usize
    }
}

/// The sum of two tallies.
pub open spec fn merged(
    tally: Map<Seq<char>, usize>,
    other: Map<Seq<char>, usize>,
) -> Map<Seq<char>, usize> {
    Map::new(
        |name: Seq<char>| tally.contains_key(name) || other.contains_key(name),
        |name: Seq<char>| added(counted(tally, name), counted(other, name)),
    )
}

/// How many results of the executed queries each role has.
pub open spec fn all_roles(reports: Seq<QueryReport>) -> Map<Seq<char>, usize>
    decreases reports.len(),
{
    if reports.len() == 0 {
        Map::empty()
    } else if reports.last().skipped {
        all_roles(reports.drop_last())
    } else {
        merged(all_roles(reports.drop_last()), reports.last().metrics.role_distribution@)
    }
}

/// A rate; none where nothing was counted.
pub open spec fn rate_of(numerator: nat, denominator: nat) -> Option<Ratio> {
    if denominator == 0 {
        None
    } else {
        Some(Ratio { numerator: numerator as u128, denominator: denominator as u128 })
    }
}

impl Ranked for u64 {
    open spec fn below(self, other: Self) -> bool {
        self < other
    }

    proof fn asymmetric(a: Self, b: Self) {
    }

    proof fn weakly_ordered(a: Self, b: Self, c: Self) {
    }

    fn is_below(&self, other: &Self) -> (r: bool) {
        *self < *other
    }
}

/// The numbers in rising order.
pub open spec fn rising(values: Seq<u64>) -> Seq<u64> {
    order::sorted_by(values, |a: u64, b: u64| a < b)
}

/// The median: the middle value, or the mean of the two middle ones.
pub open spec fn median_of(values: Seq<u64>) -> Option<Ratio> {
    let sorted = rising(values);
    let n = values.len() as int;
    if n == 0 {
        None
    } else if n % 2 == 1 {
        Some(Ratio { numerator: sorted[n / 2] as u128, denominator: 1 })
    } else {
        Some(
            Ratio {
                numerator: (sorted[n / 2 - 1] + sorted[n / 2]) as u128,
                denominator: 2,
            },
        )
    }
}

/// The 95th percentile by nearest rank: the value at rank 95% of the number, rounded up.
pub open spec fn p95_of(values: Seq<u64>) -> Option<u64> {
    let n = values.len() as int;
    if n == 0 {
        None
    } else {
        Some(rising(values)[(95 * n + 99) / 100 - 1])
    }
}

/// What an optional mean says.
pub open spec fn mean_view(mean: Option<Mean>) -> Option<Seq<Ratio>> {
    match mean {
        Some(mean) => Some(mean.terms@),
        None => None,
    }
}

/// A report of an executed query.
pub open spec fn executed() -> spec_fn(QueryReport) -> bool {
    |report: QueryReport| !report.skipped
}

pub open spec fn succeeded() -> spec_fn(QueryReport) -> bool {
    |report: QueryReport| !report.skipped && report.metrics.success
}

pub open spec fn has_hit() -> spec_fn(QueryReport) -> bool {
    |report: QueryReport| !report.skipped && report.metrics.hit
}

pub open spec fn has_hit_at_1() -> spec_fn(QueryReport) -> bool {
    |report: QueryReport| !report.skipped && report.metrics.hit_at_1
}

pub open spec fn has_hit_at_3() -> spec_fn(QueryReport) -> bool {
    |report: QueryReport| !report.skipped && report.metrics.hit_at_3
}

pub open spec fn has_hit_at_8() -> spec_fn(QueryReport) -> bool {
    |report: QueryReport| !report.skipped && report.metrics.hit_at_8_or_window
}

pub open spec fn fell_back() -> spec_fn(QueryReport) -> bool {
    |report: QueryReport| !report.skipped && report.warning is Some
}

pub open spec fn acted(action: IndexLifecycleAction) -> spec_fn(QueryReport) -> bool {
    |report: QueryReport| !report.skipped && report.index_action == Some(action)
}

/// The metrics of all queries. Skipped queries are counted, and left out of everything
/// else.
pub open spec fn is_aggregate(r: AggregateReport, reports: Seq<QueryReport>) -> bool {
    let n = report_count(reports, executed());
    &&& r.queries@ == reports
    &&& r.query_count == reports.len()
    &&& r.executed_count == n
    &&& r.skipped_count == reports.len() - n
    &&& r.success_count == report_count(reports, succeeded())
    &&& r.failure_count == n - report_count(reports, succeeded())
    &&& r.hit_queries == report_count(reports, has_hit())
    &&& r.hit_rate == rate_of(report_count(reports, has_hit()), n)
    &&& r.hit_at_1_rate == rate_of(report_count(reports, has_hit_at_1()), n)
    &&& r.hit_at_3_rate == rate_of(report_count(reports, has_hit_at_3()), n)
    &&& r.hit_at_8_or_window_rate == rate_of(report_count(reports, has_hit_at_8()), n)
    &&& mean_view(r.mrr) == (if n == 0 {
        None::<Seq<Ratio>>
    } else {
        Some(reciprocal_ranks(reports))
    })
    &&& r.median_latency_ns == median_of(latencies(reports))
    &&& r.p95_latency_ns == p95_of(latencies(reports))
    &&& r.fallback_queries == report_count(reports, fell_back())
    &&& r.fallback_rate == rate_of(report_count(reports, fell_back()), n)
    &&& r.index_created == report_count(reports, acted(IndexLifecycleAction::Created))
    &&& r.index_reused == report_count(reports, acted(IndexLifecycleAction::Reused))
    &&& r.index_waited == report_count(reports, acted(IndexLifecycleAction::WaitedForExistingJob))
    &&& r.role_distribution@ == all_roles(reports)
}

fn rate(numerator: usize, denominator: usize) -> (r: Option<Ratio>)
    ensures
        r == rate_of(numerator as nat, denominator as nat),
{
    if denominator == 0 {
        None
    } else {
        Some(Ratio { numerator: numerator as u128, denominator: denominator as u128 })
    }
}

proof fn lemma_rising(values: Seq<u64>)
    ensures
        rising(values).len() == values.len(),
{
    let before = |a: u64, b: u64| a < b;
    order::law_sorting_orders_the_items(values, before);
    rising(values).to_multiset_ensures();
    values.to_multiset_ensures();
}

fn copy_times(values: &[u64]) -> (r: Vec<u64>)
    ensures
        r@ == values@,
{
    let mut out: Vec<u64> = Vec::new();
    let mut i: usize = 0;
    while i < values.len()
        invariant
            i <= values@.len(),
            out@ == values@.take(i as int),
        decreases values@.len() - i,
    {
        out.push(values[i]);
        assert(out@ =~= values@.take(i + 1));
        i = i + 1;
    }
    assert(values@.take(i as int) =~= values@);
    out
}

fn sort_times(values: &[u64]) -> (r: Vec<u64>)
    ensures
        r@ == rising(values@),
        r@.len() == values@.len(),
{
    let r = order::sort(copy_times(values));
    proof {
        assert(order::rank::<u64>() =~= |a: u64, b: u64| a < b);
        lemma_rising(values@);
    }
    r
}

/// The median of times.
pub fn median(values: &[u64]) -> (r: Option<Ratio>)
    ensures
        r == median_of(values@),
{
    let sorted = sort_times(values);
    let n: usize = sorted.len();
    if n == 0 {
        return None;
    }
    if n % 2 == 1 {
        Some(Ratio { numerator: sorted[n / 2] as u128, denominator: 1 })
    } else {
        let low: u128 = sorted[n / 2 - 1] as u128;
        let high: u128 = sorted[n / 2] as u128;
        Some(Ratio { numerator: low + high, denominator: 2 })
    }
}

/// The 95th percentile of times, by nearest rank.
pub fn p95(values: &[u64]) -> (r: Option<u64>)
    ensures
        r == p95_of(values@),
{
    let sorted = sort_times(values);
    let n: usize = sorted.len();
    if n == 0 {
        return None;
    }
    let rank: usize = n - n / 20;
    assert(rank == (95 * n + 99) / 100);
    Some(sorted[rank - 1])
}

/// How far a pass over the reports has counted.
struct Counts {
    executed: usize,
    success: usize,
    hit: usize,
    hit_at_1: usize,
    hit_at_3: usize,
    hit_at_8: usize,
    fallback: usize,
    created: usize,
    reused: usize,
    waited: usize,
}

/// The counts are those of the reports.
spec fn are_counts(counts: Counts, reports: Seq<QueryReport>) -> bool {
    &&& counts.executed == report_count(reports, executed())
    &&& counts.success == report_count(reports, succeeded())
    &&& counts.hit == report_count(reports, has_hit())
    &&& counts.hit_at_1 == report_count(reports, has_hit_at_1())
    &&& counts.hit_at_3 == report_count(reports, has_hit_at_3())
    &&& counts.hit_at_8 == report_count(reports, has_hit_at_8())
    &&& counts.fallback == report_count(reports, fell_back())
    &&& counts.created == report_count(reports, acted(IndexLifecycleAction::Created))
    &&& counts.reused == report_count(reports, acted(IndexLifecycleAction::Reused))
    &&& counts.waited == report_count(reports, acted(IndexLifecycleAction::WaitedForExistingJob))
    &&& counts.success <= counts.executed <= reports.len()
    &&& counts.hit <= reports.len()
    &&& counts.hit_at_1 <= reports.len()
    &&& counts.hit_at_3 <= reports.len()
    &&& counts.hit_at_8 <= reports.len()
    &&& counts.fallback <= reports.len()
    &&& counts.created <= reports.len()
    &&& counts.reused <= reports.len()
    &&& counts.waited <= reports.len()
}

fn one_if(count: usize, holds: bool) -> (r: usize)
    requires
        count < usize::MAX,
    ensures
        r == count + if holds {
            1int
        } else {
            0int
        },
{
    if holds {
        count + 1
    } else {
        count
    }
}

fn count_reports(reports: &[QueryReport]) -> (r: Counts)
    ensures
        are_counts(r, reports@),
{
    let mut counts = Counts {
        executed: 0,
        success: 0,
        hit: 0,
        hit_at_1: 0,
        hit_at_3: 0,
        hit_at_8: 0,
        fallback: 0,
        created: 0,
        reused: 0,
        waited: 0,
    };
    let mut i: usize = 0;
    while i < reports.len()
        invariant
            i <= reports@.len(),
            are_counts(counts, reports@.take(i as int)),
        decreases reports@.len() - i,
    {
        proof {
            assert(reports@.take(i + 1).drop_last() =~= reports@.take(i as int));
            assert(reports@.take(i + 1).last() == reports@[i as int]);
        }
        let report = &reports[i];
        if !report.skipped {
            let created = match report.index_action {
                Some(action) => action == IndexLifecycleAction::Created,
                None => false,
            };
            let reused = match report.index_action {
                Some(action) => action == IndexLifecycleAction::Reused,
                None => false,
            };
            let waited = match report.index_action {
                Some(action) => action == IndexLifecycleAction::WaitedForExistingJob,
                None => false,
            };
            counts =
            Counts {
                executed: counts.executed + 1,
                success: one_if(counts.success, report.metrics.success),
                hit: one_if(counts.hit, report.metrics.hit),
                hit_at_1: one_if(counts.hit_at_1, report.metrics.hit_at_1),
                hit_at_3: one_if(counts.hit_at_3, report.metrics.hit_at_3),
                hit_at_8: one_if(counts.hit_at_8, report.metrics.hit_at_8_or_window),
                fallback: one_if(counts.fallback, report.warning.is_some()),
                created: one_if(counts.created, created),
                reused: one_if(counts.reused, reused),
                waited: one_if(counts.waited, waited),
            };
        }
        i = i + 1;
    }
    assert(reports@.take(i as int) =~= reports@);
    counts
}

fn collect_ranks(reports: &[QueryReport]) -> (r: Vec<Ratio>)
    ensures
        r@ == reciprocal_ranks(reports@),
{
    let mut out: Vec<Ratio> = Vec::new();
    let mut i: usize = 0;
    while i < reports.len()
        invariant
            i <= reports@.len(),
            out@ == reciprocal_ranks(reports@.take(i as int)),
        decreases reports@.len() - i,
    {
        proof {
            assert(reports@.take(i + 1).drop_last() =~= reports@.take(i as int));
            assert(reports@.take(i + 1).last() == reports@[i as int]);
        }
        if !reports[i].skipped {
            out.push(reports[i].metrics.reciprocal_rank);
        }
        i = i + 1;
    }
    assert(reports@.take(i as int) =~= reports@);
    out
}

fn collect_latencies(reports: &[QueryReport]) -> (r: Vec<u64>)
    ensures
        r@ == latencies(reports@),
{
    let mut out: Vec<u64> = Vec::new();
    let mut i: usize = 0;
    while i < reports.len()
        invariant
            i <= reports@.len(),
            out@ == latencies(reports@.take(i as int)),
        decreases reports@.len() - i,
    {
        proof {
            assert(reports@.take(i + 1).drop_last() =~= reports@.take(i as int));
            assert(reports@.take(i + 1).last() == reports@[i as int]);
        }
        if !reports[i].skipped {
            if let Some(timings) = reports[i].timings {
                out.push(timings.total_ns);
            }
        }
        i = i + 1;
    }
    assert(reports@.take(i as int) =~= reports@);
    out
}

/// The tally with the numbers of the first `upto` names of another one added to it.
spec fn partly_merged(
    tally: Map<Seq<char>, usize>,
    other: Map<Seq<char>, usize>,
    names: Seq<Seq<char>>,
    upto: int,
) -> Map<Seq<char>, usize> {
    Map::new(
        |name: Seq<char>| tally.contains_key(name) || names.take(upto).contains(name),
        |name: Seq<char>|
            if names.take(upto).contains(name) {
                added(counted(tally, name), counted(other, name))
            } else {
                tally[name]
            },
    )
}

fn merge_into(tally: &mut Table<usize>, other: &Table<usize>)
    ensures
        final(tally)@ == merged(old(tally)@, other@),
{
    let ghost start = tally@;
    let ghost names = other.keys();
    let n: usize = other.len();
    let mut i: usize = 0;
    proof {
        assert(partly_merged(start, other@, names, 0) =~= start) by {
            assert(names.take(0) =~= seq![]);
        }
    }
    while i < n
        invariant
            i <= n,
            n == other.keys().len(),
            names == other.keys(),
            order::ascending(names),
            forall|k: Seq<char>| #[trigger] names.contains(k) <==> other@.contains_key(k),
            tally@ == partly_merged(start, other@, names, i as int),
        decreases n - i,
    {
        let (name, count) = other.entry(i);
        let ghost name_says = name@;
        let before: usize = match tally.get(name.as_str()) {
            Some(count) => *count,
            None => 0,
        };
        let sum: usize = match before.checked_add(*count) {
            Some(sum) => sum,
            None => usize::MAX,
        };
        proof {
            if names.take(i as int).contains(name_says) {
                let k = names.take(i as int).index_of(name_says);
                assert(names[k] == names[i as int]);
                order::lemma_precedes_total(names[i as int], names[i as int]);
                assert(order::precedes(names[k], names[i as int]));
            }
            assert(before == counted(start, name_says));
        }
        tally.insert(name.clone(), sum);
        proof {
            let next = partly_merged(start, other@, names, i + 1);
            assert forall|k: Seq<char>| names.take(i + 1).contains(k) <==> (names.take(
                i as int,
            ).contains(k) || k == name_says) by {
                if names.take(i as int).contains(k) {
                    let at = names.take(i as int).index_of(k);
                    assert(names.take(i + 1)[at] == k);
                }
                if k == name_says {
                    assert(names.take(i + 1)[i as int] == k);
                }
                if names.take(i + 1).contains(k) {
                    let at = names.take(i + 1).index_of(k);
                    if at < i {
                        assert(names.take(i as int)[at] == k);
                    }
                }
            }
            assert(tally@ =~= next);
        }
        i = i + 1;
    }
    proof {
        assert(names.take(i as int) =~= names);
        assert(tally@ =~= merged(start, other@));
    }
}

fn merge_roles(reports: &[QueryReport]) -> (r: Table<usize>)
    ensures
        r@ == all_roles(reports@),
{
    let mut out: Table<usize> = Table::new();
    let mut i: usize = 0;
    while i < reports.len()
        invariant
            i <= reports@.len(),
            out@ == all_roles(reports@.take(i as int)),
        decreases reports@.len() - i,
    {
        proof {
            assert(reports@.take(i + 1).drop_last() =~= reports@.take(i as int));
            assert(reports@.take(i + 1).last() == reports@[i as int]);
        }
        if !reports[i].skipped {
            merge_into(&mut out, &reports[i].metrics.role_distribution);
        }
        i = i + 1;
    }
    assert(reports@.take(i as int) =~= reports@);
    out
}

/// Put the reports of all queries together.
pub fn aggregate(reports: Vec<QueryReport>) -> (r: AggregateReport)
    ensures
        is_aggregate(r, reports@),
{
    let counts = count_reports(&reports);
    let times = collect_latencies(&reports);
    let ranks = collect_ranks(&reports);
    let role_distribution = merge_roles(&reports);
    let n: usize = counts.executed;
    AggregateReport {
        query_count: reports.len(),
        executed_count: n,
        skipped_count: reports.len() - n,
        success_count: counts.success,
        failure_count: n - counts.success,
        hit_queries: counts.hit,
        hit_rate: rate(counts.hit, n),
        hit_at_1_rate: rate(counts.hit_at_1, n),
        hit_at_3_rate: rate(counts.hit_at_3, n),
        hit_at_8_or_window_rate: rate(counts.hit_at_8, n),
        mrr: if n == 0 {
            None
        } else {
            Some(Mean { terms: ranks })
        },
        median_latency_ns: median(&times),
        p95_latency_ns: p95(&times),
        fallback_queries: counts.fallback,
        fallback_rate: rate(counts.fallback, n),
        index_created: counts.created,
        index_reused: counts.reused,
        index_waited: counts.waited,
        role_distribution,
        queries: reports,
    }
}

proof fn lemma_skipped_is_not_counted(
    reports: Seq<QueryReport>,
    at: int,
    skipped: QueryReport,
    counts: spec_fn(QueryReport) -> bool,
)
    requires
        0 <= at <= reports.len(),
        !counts(skipped),
    ensures
        report_count(reports.insert(at, skipped), counts) == report_count(reports, counts),
    decreases reports.len(),
{
    let all = reports.insert(at, skipped);
    if at == reports.len() {
        assert(all.drop_last() =~= reports);
    } else {
        assert(all.drop_last() =~= reports.drop_last().insert(at, skipped));
        assert(all.last() == reports.last());
        lemma_skipped_is_not_counted(reports.drop_last(), at, skipped, counts);
    }
}

proof fn lemma_skipped_is_not_listed(reports: Seq<QueryReport>, at: int, skipped: QueryReport)
    requires
        0 <= at <= reports.len(),
        skipped.skipped,
    ensures
        reciprocal_ranks(reports.insert(at, skipped)) == reciprocal_ranks(reports),
        latencies(reports.insert(at, skipped)) == latencies(reports),
        all_roles(reports.insert(at, skipped)) == all_roles(reports),
    decreases reports.len(),
{
    let all = reports.insert(at, skipped);
    if at == reports.len() {
        assert(all.drop_last() =~= reports);
    } else {
        assert(all.drop_last() =~= reports.drop_last().insert(at, skipped));
        assert(all.last() == reports.last());
        lemma_skipped_is_not_listed(reports.drop_last(), at, skipped);
    }
}

/// A skipped query, wherever it stands, changes nothing but the numbers of all and of
/// skipped queries.
pub proof fn law_skipped_queries_are_left_out(
    reports: Seq<QueryReport>,
    at: int,
    skipped: QueryReport,
    a: AggregateReport,
    b: AggregateReport,
)
    requires
        0 <= at <= reports.len(),
        skipped.skipped,
        is_aggregate(a, reports),
        is_aggregate(b, reports.insert(at, skipped)),
    ensures
        b.query_count == a.query_count + 1,
        b.skipped_count == a.skipped_count + 1,
        b.executed_count == a.executed_count,
        b.success_count == a.success_count,
        b.failure_count == a.failure_count,
        b.hit_queries == a.hit_queries,
        b.hit_rate == a.hit_rate,
        b.hit_at_1_rate == a.hit_at_1_rate,
        b.hit_at_3_rate == a.hit_at_3_rate,
        b.hit_at_8_or_window_rate == a.hit_at_8_or_window_rate,
        mean_view(b.mrr) == mean_view(a.mrr),
        b.median_latency_ns == a.median_latency_ns,
        b.p95_latency_ns == a.p95_latency_ns,
        b.fallback_queries == a.fallback_queries,
        b.fallback_rate == a.fallback_rate,
        b.index_created == a.index_created,
        b.index_reused == a.index_reused,
        b.index_waited == a.index_waited,
        b.role_distribution@ == a.role_distribution@,
{
    lemma_skipped_is_not_counted(reports, at, skipped, executed());
    lemma_skipped_is_not_counted(reports, at, skipped, succeeded());
    lemma_skipped_is_not_counted(reports, at, skipped, has_hit());
    lemma_skipped_is_not_counted(reports, at, skipped, has_hit_at_1());
    lemma_skipped_is_not_counted(reports, at, skipped, has_hit_at_3());
    lemma_skipped_is_not_counted(reports, at, skipped, has_hit_at_8());
    lemma_skipped_is_not_counted(reports, at, skipped, fell_back());
    lemma_skipped_is_not_counted(reports, at, skipped, acted(IndexLifecycleAction::Created));
    lemma_skipped_is_not_counted(reports, at, skipped, acted(IndexLifecycleAction::Reused));
    lemma_skipped_is_not_counted(
        reports,
        at,
        skipped,
        acted(IndexLifecycleAction::WaitedForExistingJob),
    );
    lemma_skipped_is_not_listed(reports, at, skipped);
}

/// Every executed query succeeds or fails, and every query is executed or skipped.
pub proof fn law_queries_are_partitioned(reports: Seq<QueryReport>, r: AggregateReport)
    requires
        is_aggregate(r, reports),
    ensures
        r.query_count == r.executed_count + r.skipped_count,
        r.executed_count == r.success_count + r.failure_count,
        r.hit_queries <= r.executed_count,
{
    lemma_kinds_are_nested(reports, has_hit());
    lemma_kinds_are_nested(reports, succeeded());
}

proof fn lemma_kinds_are_nested(reports: Seq<QueryReport>, kind: spec_fn(QueryReport) -> bool)
    requires
        forall|report: QueryReport| #[trigger] kind(report) ==> !report.skipped,
    ensures
        report_count(reports, kind) <= report_count(reports, executed()) <= reports.len(),
    decreases reports.len(),
{
    if reports.len() > 0 {
        lemma_kinds_are_nested(reports.drop_last(), kind);
    }
}

// ---------------------------------------------------------------------------
// What the metrics mean
// ---------------------------------------------------------------------------

proof fn lemma_first_true(flags: Seq<bool>, from: int)
    requires
        0 <= from <= flags.len(),
    ensures
        from <= first_true(flags, from) <= flags.len(),
        forall|k: int| from <= k < first_true(flags, from) ==> !#[trigger] flags[k],
        first_true(flags, from) < flags.len() ==> flags[first_true(flags, from)],
    decreases flags.len() - from,
{
    if from < flags.len() && !flags[from] {
        lemma_first_true(flags, from + 1);
    }
}

proof fn lemma_true_count_is_filtered(flags: Seq<bool>)
    ensures
        true_count(flags) == flags.filter(|flag: bool| flag).len(),
    decreases flags.len(),
{
    reveal(Seq::filter);
    if flags.len() > 0 {
        lemma_true_count_is_filtered(flags.drop_last());
    }
}

proof fn lemma_role_count_is_filtered(evidence: Seq<EvidenceView>, role: Seq<char>)
    ensures
        role_count(evidence, role) == evidence.filter(
            |result: EvidenceView| result.source_role == role,
        ).len(),
    decreases evidence.len(),
{
    reveal(Seq::filter);
    if evidence.len() > 0 {
        lemma_role_count_is_filtered(evidence.drop_last(), role);
    }
}

/// A query succeeds if and only if it has an expected hit, no expected role is missing on
/// it, and no required snippet is missing.
pub proof fn law_success_needs_every_expectation(
    found: MatchedView,
    query: Expectations,
    evidence: Seq<EvidenceView>,
    reranked: bool,
)
    requires
        found.covers(evidence.len()),
        evidence.len() <= usize::MAX,
    ensures
        ({
            let metrics = metrics_with(found, query, evidence, reranked);
            &&& metrics.success <==> {
                &&& metrics.hit
                &&& metrics.expected_roles_satisfied != Some(false)
                &&& metrics.required_snippet_found != Some(false)
            }
            &&& metrics.success <==> {
                &&& found.expected.contains(true)
                &&& query.expected_roles.len() > 0 ==> exists|i: int|
                    {
                        &&& 0 <= i < found.expected.len()
                        &&& #[trigger] found.expected[i]
                        &&& !found.expected.take(i).contains(true)
                        &&& query.expected_roles.contains(evidence[i].source_role)
                    }
                &&& query.required_snippet matches Some(wanted) ==> exists|i: int, at: int|
                    0 <= i < evidence.len() && #[trigger] stands_at(
                        evidence[i].snippet,
                        wanted,
                        at,
                    )
            }
        }),
{
    let flags = found.expected;
    let metrics = metrics_with(found, query, evidence, reranked);
    let at = first_true(flags, 0);
    lemma_first_true(flags, 0);
    if at < flags.len() {
        assert(flags[at]);
        assert(flags.contains(true));
        assert(!flags.take(at).contains(true)) by {
            if flags.take(at).contains(true) {
                let k = choose|k: int| 0 <= k < at && flags.take(at)[k];
                assert(flags[k]);
            }
        }
    } else if flags.contains(true) {
        let k = choose|k: int| 0 <= k < flags.len() && flags[k];
        assert(flags[k]);
    }
    assert forall|i: int| 0 <= i < flags.len() && #[trigger] flags[i] && !flags.take(
        i,
    ).contains(true) implies i == at by {
        if i > at {
            assert(flags.take(i)[at]);
        }
    }
    if let Some(wanted) = query.required_snippet {
        if any_holds(evidence, wanted) {
            let i = choose|i: int|
                0 <= i < evidence.len() && text::contains((#[trigger] evidence[i]).snippet, wanted);
            let p = choose|p: int| text::occurs_at(evidence[i].snippet, wanted, p);
            assert(stands_at(evidence[i].snippet, wanted, p));
        }
        if exists|i: int, p: int|
            0 <= i < evidence.len() && #[trigger] stands_at(evidence[i].snippet, wanted, p) {
            let (i, p) = choose|i: int, p: int|
                0 <= i < evidence.len() && #[trigger] stands_at(evidence[i].snippet, wanted, p);
            assert(text::occurs_at(evidence[i].snippet, wanted, p));
            assert(text::contains(evidence[i].snippet, wanted));
        }
    }
}

/// A text stands in another one at a place.
pub open spec fn stands_at(s: Seq<char>, part: Seq<char>, at: int) -> bool {
    0 <= at && at + part.len() <= s.len() && s.subrange(at, at + part.len()) == part
}

/// The first expected rank is the rank of the first result that matches an expected path,
/// hits within one, three and eight results are hits at most so far down, and the reciprocal
/// rank is one divided by the rank, or zero.
pub proof fn law_ranks_are_those_of_the_first_expected_result(
    found: MatchedView,
    query: Expectations,
    evidence: Seq<EvidenceView>,
    reranked: bool,
)
    requires
        found.covers(evidence.len()),
        evidence.len() <= usize::MAX,
    ensures
        ({
            let metrics = metrics_with(found, query, evidence, reranked);
            let flags = found.expected;
            &&& metrics.hit <==> flags.contains(true)
            &&& match metrics.first_expected_rank {
                Some(rank) => {
                    &&& 1 <= rank <= evidence.len()
                    &&& flags[rank - 1]
                    &&& !flags.take(rank - 1).contains(true)
                    &&& metrics.reciprocal_rank.numerator == 1
                    &&& metrics.reciprocal_rank.denominator == rank
                    &&& metrics.expected_roles_satisfied == Some(
                        query.expected_roles.len() == 0 || query.expected_roles.contains(
                            evidence[rank - 1].source_role,
                        ),
                    )
                },
                None => {
                    &&& !flags.contains(true)
                    &&& metrics.reciprocal_rank.numerator == 0
                    &&& metrics.reciprocal_rank.denominator > 0
                    &&& metrics.expected_roles_satisfied is None
                },
            }
            &&& metrics.hit_at_1 <==> exists|i: int|
                0 <= i < 1 && i < flags.len() && #[trigger] flags[i]
            &&& metrics.hit_at_3 <==> exists|i: int|
                0 <= i < 3 && i < flags.len() && #[trigger] flags[i]
            &&& metrics.hit_at_8_or_window <==> exists|i: int|
                0 <= i < 8 && i < flags.len() && #[trigger] flags[i]
            &&& metrics.window <= 8 && metrics.window <= evidence.len() && (metrics.window == 8
                || metrics.window == evidence.len())
        }),
{
    let flags = found.expected;
    let at = first_true(flags, 0);
    lemma_first_true(flags, 0);
    if at < flags.len() {
        assert(flags[at]);
        assert(!flags.take(at).contains(true)) by {
            if flags.take(at).contains(true) {
                let k = choose|k: int| 0 <= k < at && flags.take(at)[k];
                assert(flags[k]);
            }
        }
    } else if flags.contains(true) {
        let k = choose|k: int| 0 <= k < flags.len() && flags[k];
        assert(flags[k]);
    }
}

/// Preferred results are counted among all results, disfavored ones among those in front of
/// the first expected one, and each role by the results that have it.
pub proof fn law_results_are_counted(
    found: MatchedView,
    query: Expectations,
    evidence: Seq<EvidenceView>,
    reranked: bool,
    role: Seq<char>,
)
    requires
        found.covers(evidence.len()),
        evidence.len() <= usize::MAX,
    ensures
        ({
            let metrics = metrics_with(found, query, evidence, reranked);
            let roles = metrics.role_distribution;
            let with_role = evidence.filter(|result: EvidenceView| result.source_role == role);
            &&& metrics.preferred_count == found.preferred.filter(|flag: bool| flag).len()
            &&& metrics.disfavored_before_first_expected == (match metrics.first_expected_rank {
                Some(rank) => found.disfavored.take(rank - 1),
                None => found.disfavored,
            }).filter(|flag: bool| flag).len()
            &&& roles.contains_key(role) <==> with_role.len() > 0
            &&& roles.contains_key(role) ==> roles[role] == with_role.len()
        }),
{
    lemma_first_true(found.expected, 0);
    let metrics = metrics_with(found, query, evidence, reranked);
    let before = match metrics.first_expected_rank {
        Some(rank) => found.disfavored.take(rank - 1),
        None => found.disfavored,
    };
    lemma_true_count_is_filtered(found.preferred);
    lemma_true_count_is_filtered(before);
    lemma_true_count_bound(found.preferred);
    lemma_true_count_bound(before);
    law_the_tally_counts_each_role(evidence, role);
    lemma_role_count_is_filtered(evidence, role);
}

/// A required snippet is found if and only if it stands in the snippet of a result; where
/// none is required, nothing is said of it.
pub proof fn law_required_snippets_stand_in_a_result(
    found: MatchedView,
    query: Expectations,
    evidence: Seq<EvidenceView>,
    reranked: bool,
)
    ensures
        ({
            let metrics = metrics_with(found, query, evidence, reranked);
            match query.required_snippet {
                Some(wanted) => metrics.required_snippet_found == Some(
                    exists|i: int, at: int|
                        0 <= i < evidence.len() && #[trigger] stands_at(
                            evidence[i].snippet,
                            wanted,
                            at,
                        ),
                ),
                None => metrics.required_snippet_found is None,
            }
        }),
{
    if let Some(wanted) = query.required_snippet {
        if any_holds(evidence, wanted) {
            let i = choose|i: int|
                0 <= i < evidence.len() && text::contains((#[trigger] evidence[i]).snippet, wanted);
            let p = choose|p: int| text::occurs_at(evidence[i].snippet, wanted, p);
            assert(stands_at(evidence[i].snippet, wanted, p));
        }
        if exists|i: int, p: int|
            0 <= i < evidence.len() && #[trigger] stands_at(evidence[i].snippet, wanted, p) {
            let (i, p) = choose|i: int, p: int|
                0 <= i < evidence.len() && #[trigger] stands_at(evidence[i].snippet, wanted, p);
            assert(text::occurs_at(evidence[i].snippet, wanted, p));
            assert(text::contains(evidence[i].snippet, wanted));
        }
    }
}

/// A result is expected, preferred or disfavored if and only if one of the patterns of that
/// kind is accepted and matches its path.
pub proof fn law_results_match_by_their_paths(
    query: Expectations,
    evidence: Seq<EvidenceView>,
    i: int,
)
    requires
        0 <= i < evidence.len(),
    ensures
        ({
            let found = matched_by(query, evidence);
            let path = evidence[i].relative_file_path;
            &&& found.covers(evidence.len())
            &&& found.expected[i] <==> exists|k: int|
                0 <= k < query.expected_paths.len() && matches(
                    #[trigger] query.expected_paths[k],
                    path,
                )
            &&& found.preferred[i] <==> exists|k: int|
                0 <= k < query.preferred_paths.len() && matches(
                    #[trigger] query.preferred_paths[k],
                    path,
                )
            &&& found.disfavored[i] <==> exists|k: int|
                0 <= k < query.disfavored_paths.len() && matches(
                    #[trigger] query.disfavored_paths[k],
                    path,
                )
        }),
{
}

/// Results are reranked if all of them have a score of the reranker, and partially scored if
/// one lacks it. Without results, or without a reranker, there is nothing to tell.
pub proof fn law_the_reranker_is_seen_by_its_scores(
    reranked: bool,
    evidence: Seq<EvidenceView>,
)
    ensures
        reranker_state_of(reranked, evidence) == RerankerState::NoResults <==> evidence.len() == 0,
        reranker_state_of(reranked, evidence) == RerankerState::NotReranked <==> evidence.len() > 0
            && !reranked,
        reranker_state_of(reranked, evidence) == RerankerState::PartiallyScored <==> reranked
            && exists|i: int|
            0 <= i < evidence.len() && (#[trigger] evidence[i]).reranker_score is None,
{
}

proof fn lemma_count_is_filtered(
    reports: Seq<QueryReport>,
    kind: spec_fn(QueryReport) -> bool,
)
    ensures
        report_count(reports, kind) == reports.filter(kind).len(),
    decreases reports.len(),
{
    reveal(Seq::filter);
    if reports.len() > 0 {
        lemma_count_is_filtered(reports.drop_last(), kind);
    }
}

/// A rate is a number of queries out of the executed ones; there is none without these.
pub open spec fn is_rate(rate: Option<Ratio>, count: nat, executed: nat) -> bool {
    match rate {
        Some(ratio) => executed > 0 && ratio.numerator == count && ratio.denominator == executed,
        None => executed == 0,
    }
}

/// The aggregate counts the executed queries of each kind: those that succeeded, that had a
/// hit, that fell back, and that created, reused or waited for an index. Every rate is out
/// of the executed queries.
pub proof fn law_aggregates_count_the_executed_queries(
    reports: Seq<QueryReport>,
    r: AggregateReport,
)
    requires
        is_aggregate(r, reports),
        reports.len() <= usize::MAX,
    ensures
        ({
            let done = reports.filter(|q: QueryReport| !q.skipped).len();
            let hit = reports.filter(|q: QueryReport| !q.skipped && q.metrics.hit).len();
            let at_1 = reports.filter(|q: QueryReport| !q.skipped && q.metrics.hit_at_1).len();
            let at_3 = reports.filter(|q: QueryReport| !q.skipped && q.metrics.hit_at_3).len();
            let at_8 = reports.filter(
                |q: QueryReport| !q.skipped && q.metrics.hit_at_8_or_window,
            ).len();
            let fallback = reports.filter(|q: QueryReport| !q.skipped && q.warning is Some).len();
            &&& r.query_count == reports.len()
            &&& r.executed_count == done
            &&& r.skipped_count + done == reports.len()
            &&& r.success_count == reports.filter(
                |q: QueryReport| !q.skipped && q.metrics.success,
            ).len()
            &&& r.failure_count == reports.filter(
                |q: QueryReport| !q.skipped && !q.metrics.success,
            ).len()
            &&& r.hit_queries == hit
            &&& is_rate(r.hit_rate, hit, done)
            &&& is_rate(r.hit_at_1_rate, at_1, done)
            &&& is_rate(r.hit_at_3_rate, at_3, done)
            &&& is_rate(r.hit_at_8_or_window_rate, at_8, done)
            &&& r.fallback_queries == fallback
            &&& is_rate(r.fallback_rate, fallback, done)
            &&& r.index_created == reports.filter(
                |q: QueryReport|
                    !q.skipped && q.index_action == Some(IndexLifecycleAction::Created),
            ).len()
            &&& r.index_reused == reports.filter(
                |q: QueryReport| !q.skipped && q.index_action == Some(IndexLifecycleAction::Reused),
            ).len()
            &&& r.index_waited == reports.filter(
                |q: QueryReport|
                    !q.skipped && q.index_action == Some(
                        IndexLifecycleAction::WaitedForExistingJob,
                    ),
            ).len()
        }),
{
    let failed = |q: QueryReport| !q.skipped && !q.metrics.success;
    lemma_count_is_filtered(reports, executed());
    lemma_count_is_filtered(reports, succeeded());
    lemma_count_is_filtered(reports, failed);
    lemma_failures_are_left(reports);
    lemma_count_is_filtered(reports, has_hit());
    lemma_count_is_filtered(reports, has_hit_at_1());
    lemma_count_is_filtered(reports, has_hit_at_3());
    lemma_count_is_filtered(reports, has_hit_at_8());
    lemma_count_is_filtered(reports, fell_back());
    lemma_count_is_filtered(reports, acted(IndexLifecycleAction::Created));
    lemma_count_is_filtered(reports, acted(IndexLifecycleAction::Reused));
    lemma_count_is_filtered(reports, acted(IndexLifecycleAction::WaitedForExistingJob));
    lemma_kinds_are_nested(reports, has_hit());
    lemma_kinds_are_nested(reports, has_hit_at_1());
    lemma_kinds_are_nested(reports, has_hit_at_3());
    lemma_kinds_are_nested(reports, has_hit_at_8());
    lemma_kinds_are_nested(reports, fell_back());
}

proof fn lemma_failures_are_left(reports: Seq<QueryReport>)
    ensures
        report_count(reports, succeeded()) + report_count(
            reports,
            |q: QueryReport| !q.skipped && !q.metrics.success,
        ) == report_count(reports, executed()),
    decreases reports.len(),
{
    if reports.len() > 0 {
        lemma_failures_are_left(reports.drop_last());
    }
}

/// The mean is taken over the reciprocal ranks of the executed queries, one for each, in
/// order; there is none without executed queries.
pub proof fn law_the_mean_is_over_the_executed_queries(
    reports: Seq<QueryReport>,
    r: AggregateReport,
)
    requires
        is_aggregate(r, reports),
    ensures
        ({
            let done = reports.filter(|q: QueryReport| !q.skipped);
            match r.mrr {
                Some(mean) => done.len() > 0 && mean.terms@ == done.map_values(
                    |q: QueryReport| q.metrics.reciprocal_rank,
                ),
                None => done.len() == 0,
            }
        }),
{
    lemma_count_is_filtered(reports, executed());
    lemma_ranks_are_mapped(reports);
}

proof fn lemma_ranks_are_mapped(reports: Seq<QueryReport>)
    ensures
        reciprocal_ranks(reports) == reports.filter(|q: QueryReport| !q.skipped).map_values(
            |q: QueryReport| q.metrics.reciprocal_rank,
        ),
    decreases reports.len(),
{
    reveal(Seq::filter);
    let f = |q: QueryReport| q.metrics.reciprocal_rank;
    if reports.len() > 0 {
        let rest = reports.drop_last();
        lemma_ranks_are_mapped(rest);
        let before = rest.filter(|q: QueryReport| !q.skipped);
        assert(before.push(reports.last()).map_values(f) =~= before.map_values(f).push(
            f(reports.last()),
        ));
    } else {
        assert(reports.filter(|q: QueryReport| !q.skipped).map_values(f) =~= seq![]);
    }
}

proof fn lemma_latencies_are_mapped(reports: Seq<QueryReport>)
    ensures
        latencies(reports) == reports.filter(
            |q: QueryReport| !q.skipped && q.timings is Some,
        ).map_values(|q: QueryReport| q.timings->0.total_ns),
    decreases reports.len(),
{
    reveal(Seq::filter);
    let timed = |q: QueryReport| !q.skipped && q.timings is Some;
    let f = |q: QueryReport| q.timings->0.total_ns;
    if reports.len() > 0 {
        let rest = reports.drop_last();
        lemma_latencies_are_mapped(rest);
        let before = rest.filter(timed);
        assert(before.push(reports.last()).map_values(f) =~= before.map_values(f).push(
            f(reports.last()),
        ));
    } else {
        assert(reports.filter(timed).map_values(f) =~= seq![]);
    }
}

/// The values in rising order.
pub open spec fn is_rising_order(sorted: Seq<u64>, values: Seq<u64>) -> bool {
    &&& sorted.to_multiset() == values.to_multiset()
    &&& sorted.len() == values.len()
    &&& forall|i: int, j: int|
        0 <= i < j < sorted.len() ==> #[trigger] sorted[i] <= #[trigger] sorted[j]
}

/// The median stands in the middle of the values in rising order, or halfway between the two
/// middle ones. The 95th percentile is the least value at or below which 95 of 100 values
/// lie.
pub proof fn law_percentiles_stand_in_rising_order(values: Seq<u64>, sorted: Seq<u64>)
    requires
        is_rising_order(sorted, values),
    ensures
        values.len() == 0 <==> median_of(values) is None,
        values.len() == 0 <==> p95_of(values) is None,
        median_of(values) matches Some(middle) ==> {
            let n = values.len() as int;
            if n % 2 == 1 {
                middle.denominator == 1 && middle.numerator == sorted[(n - 1) / 2]
            } else {
                middle.denominator == 2 && middle.numerator == sorted[n / 2 - 1] + sorted[n / 2]
            }
        },
        p95_of(values) matches Some(value) ==> exists|k: int|
            {
                &&& 0 <= k < sorted.len()
                &&& value == #[trigger] sorted[k]
                &&& 100 * (k + 1) >= 95 * sorted.len()
                &&& 100 * k < 95 * sorted.len()
            },
{
    let before = |a: u64, b: u64| a < b;
    order::law_sorting_orders_the_items(values, before);
    lemma_rising(values);
    order::law_sorting_keeps_sorted_lists(sorted, before);
    order::law_sorting_forgets_the_order(sorted, values, before);
    assert(rising(values) == sorted);
    let n = values.len() as int;
    if n > 0 {
        let k = (95 * n + 99) / 100 - 1;
        assert(0 <= k < n);
        assert(sorted[k] == p95_of(values)->0);
    }
}

/// The latencies of an aggregate are the median and the 95th percentile of the total times
/// of the executed queries that were timed.
pub proof fn law_latencies_are_those_of_timed_queries(
    reports: Seq<QueryReport>,
    r: AggregateReport,
)
    requires
        is_aggregate(r, reports),
    ensures
        ({
            let times = reports.filter(
                |q: QueryReport| !q.skipped && q.timings is Some,
            ).map_values(|q: QueryReport| q.timings->0.total_ns);
            &&& r.median_latency_ns == median_of(times)
            &&& r.p95_latency_ns == p95_of(times)
        }),
{
    lemma_latencies_are_mapped(reports);
}

/// The number of a role over the executed queries.
pub open spec fn role_sum(reports: Seq<QueryReport>, role: Seq<char>) -> int {
    reports.filter(|q: QueryReport| !q.skipped).map_values(
        |q: QueryReport| counted(q.metrics.role_distribution@, role),
    ).fold_left(0int, |sum: int, n: int| sum + n)
}

/// The aggregate gives each role the sum of its numbers in the executed queries, as far as a
/// machine word reaches.
pub proof fn law_roles_are_added_up(
    reports: Seq<QueryReport>,
    r: AggregateReport,
    role: Seq<char>,
)
    requires
        is_aggregate(r, reports),
    ensures
        ({
            let sum = role_sum(reports, role);
            let total = counted(r.role_distribution@, role);
            &&& sum <= usize::MAX ==> total == sum
            &&& sum > usize::MAX ==> total == usize::MAX
        }),
{
    lemma_roles_are_added_up(reports, role);
}

proof fn lemma_roles_are_added_up(reports: Seq<QueryReport>, role: Seq<char>)
    ensures
        role_sum(reports, role) >= 0,
        counted(all_roles(reports), role) == if role_sum(reports, role) <= usize::MAX {
            role_sum(reports, role)
        } else {
            usize::MAX as int
        },
    decreases reports.len(),
{
    reveal(Seq::filter);
    let f = |q: QueryReport| counted(q.metrics.role_distribution@, role);
    let plus = |sum: int, n: int| sum + n;
    let done = |q: QueryReport| !q.skipped;
    if reports.len() > 0 {
        let rest = reports.drop_last();
        lemma_roles_are_added_up(rest, role);
        if !reports.last().skipped {
            let before = rest.filter(done).map_values(f);
            let now = reports.filter(done).map_values(f);
            assert(now =~= before.push(f(reports.last())));
            assert(now.drop_last() =~= before);
            reveal_with_fuel(Seq::fold_left, 2);
        }
    } else {
        assert(reports.filter(done).map_values(f) =~= seq![]);
    }
}

/// A pattern of an evaluation is accepted if and only if it is accepted as the pattern of a
/// filter and none of its components is a dot. What a filter refuses is refused for the same
/// reason.
pub proof fn law_patterns_are_refused_as_those_of_filters(pattern: Seq<char>)
    ensures
        ({
            let parts = text::split(text::trim(pattern), '/');
            let dotted = exists|i: int| 0 <= i < parts.len() && #[trigger] parts[i] == "."@;
            &&& request::pattern_refusal(pattern) is Some ==> pattern_refusal(pattern)
                == request::pattern_refusal(pattern)
            &&& pattern_refusal(pattern) is None <==> request::pattern_refusal(pattern) is None
                && !dotted
            &&& request::pattern_refusal(pattern) is None && dotted ==> pattern_refusal(pattern)
                == Some(request::Refusal::CurrentDirectory { pattern })
        }),
{
    let parts = text::split(text::trim(pattern), '/');
    if parts.contains("."@) {
        let i = choose|i: int| 0 <= i < parts.len() && parts[i] == "."@;
        assert(parts[i] == "."@);
    }
}

} // verus!

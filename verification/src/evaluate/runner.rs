//! Execution of evaluation queries.

use crate::app::indexing::IndexAction;
use crate::evaluate::types::{
    self, AggregateReport, EvalQuery, EvalTimings, EvalWorkspace, EvidenceView,
    IndexLifecycleAction, QueryReport, ResultEvidence,
};
use crate::evaluate::{definition, metrics};
use crate::filter::EffectiveFilterReport;
use crate::store::{self, Hit, HitView};
use crate::text;
use vstd::prelude::*;

verus! {

/// Where a workspace of an evaluation file is.
#[derive(Debug)]
pub struct WorkspaceMapping {
    pub key: String,
    pub path: String,
}

/// Why a mapping is refused.
#[derive(Debug)]
pub enum MappingError {
    /// An argument without `=`.
    NoSeparator(String),
    EmptyKey(String),
    EmptyPath(String),
    DuplicateKey(String),
}

/// What a [`MappingError`] says.
pub enum MappingFault {
    NoSeparator(Seq<char>),
    EmptyKey(Seq<char>),
    EmptyPath(Seq<char>),
    DuplicateKey(Seq<char>),
}

impl View for MappingError {
    type V = MappingFault;

    open spec fn view(&self) -> MappingFault {
        match self {
            MappingError::NoSeparator(arg) => MappingFault::NoSeparator(arg@),
            MappingError::EmptyKey(arg) => MappingFault::EmptyKey(arg@),
            MappingError::EmptyPath(arg) => MappingFault::EmptyPath(arg@),
            MappingError::DuplicateKey(key) => MappingFault::DuplicateKey(key@),
        }
    }
}

impl MappingFault {
    /// The text of the error.
    pub open spec fn text(self) -> Seq<char> {
        match self {
            MappingFault::NoSeparator(arg) => "workspace mapping must be key=path, got: "@
                + definition::quoted(arg),
            MappingFault::EmptyKey(arg) => "workspace mapping key must not be empty: "@
                + definition::quoted(arg),
            MappingFault::EmptyPath(arg) => "workspace mapping path must not be empty: "@
                + definition::quoted(arg),
            MappingFault::DuplicateKey(key) => "duplicate workspace mapping key: "@
                + definition::quoted(key),
        }
    }
}

impl MappingError {
    /// The text of the error.
    pub fn to_string(&self) -> (r: String)
        ensures
            r@ == self@.text(),
    {
        match self {
            MappingError::NoSeparator(arg) => text::concat2(
                "workspace mapping must be key=path, got: ",
                definition::quote(arg.as_str()).as_str(),
            ),
            MappingError::EmptyKey(arg) => text::concat2(
                "workspace mapping key must not be empty: ",
                definition::quote(arg.as_str()).as_str(),
            ),
            MappingError::EmptyPath(arg) => text::concat2(
                "workspace mapping path must not be empty: ",
                definition::quote(arg.as_str()).as_str(),
            ),
            MappingError::DuplicateKey(key) => text::concat2(
                "duplicate workspace mapping key: ",
                definition::quote(key.as_str()).as_str(),
            ),
        }
    }
}

/// The key and the path of a mapping: what stands before and behind its first `=`.
pub open spec fn mapping(arg: Seq<char>) -> Result<(Seq<char>, Seq<char>), MappingFault> {
    let at = text::next_sep(arg, '=', 0);
    if at >= arg.len() {
        Err(MappingFault::NoSeparator(arg))
    } else if text::blank(arg.take(at)) {
        Err(MappingFault::EmptyKey(arg))
    } else if text::blank(arg.skip(at + 1)) {
        Err(MappingFault::EmptyPath(arg))
    } else {
        Ok((arg.take(at), arg.skip(at + 1)))
    }
}

/// Read a mapping of the form `key=path`.
pub fn parse_workspace_mapping(arg: &str) -> (r: Result<WorkspaceMapping, MappingError>)
    ensures
        match r {
            Ok(found) => mapping(arg@) == Ok::<_, MappingFault>((found.key@, found.path@)),
            Err(error) => mapping(arg@) == Err::<(Seq<char>, Seq<char>), _>(error@),
        },
{
    let chars = text::chars_of(arg);
    let at: usize = text::find_sep(&chars, '=', 0);
    if at >= chars.len() {
        return Err(MappingError::NoSeparator(arg.to_owned()));
    }
    proof {
        text::lemma_next_sep(arg@, '=', 0);
    }
    let key = text::string_of(&chars, 0, at);
    let path = text::string_of(&chars, at + 1, chars.len());
    assert(key@ =~= arg@.take(at as int));
    assert(path@ =~= arg@.skip(at + 1));
    if text::is_blank(key.as_str()) {
        return Err(MappingError::EmptyKey(arg.to_owned()));
    }
    if text::is_blank(path.as_str()) {
        return Err(MappingError::EmptyPath(arg.to_owned()));
    }
    Ok(WorkspaceMapping { key, path })
}

/// The keys and paths of mappings.
pub open spec fn mapping_views(list: Seq<WorkspaceMapping>) -> Seq<(Seq<char>, Seq<char>)> {
    list.map_values(|found: WorkspaceMapping| (found.key@, found.path@))
}

/// One of the mappings has a key.
pub open spec fn has_mapping(list: Seq<(Seq<char>, Seq<char>)>, key: Seq<char>) -> bool {
    exists|i: int| 0 <= i < list.len() && (#[trigger] list[i]).0 == key
}

/// The mappings of arguments, or the first fault. Each key may be there once.
pub open spec fn mappings(args: Seq<Seq<char>>) -> Result<
    Seq<(Seq<char>, Seq<char>)>,
    MappingFault,
>
    decreases args.len(),
{
    if args.len() == 0 {
        Ok(seq![])
    } else {
        match mappings(args.drop_last()) {
            Err(fault) => Err(fault),
            Ok(before) => match mapping(args.last()) {
                Err(fault) => Err(fault),
                Ok(found) => if has_mapping(before, found.0) {
                    Err(MappingFault::DuplicateKey(found.0))
                } else {
                    Ok(before.push(found))
                },
            },
        }
    }
}

proof fn lemma_fault_stays(args: Seq<Seq<char>>, n: int)
    requires
        0 <= n <= args.len(),
        mappings(args.take(n)) is Err,
    ensures
        mappings(args) == mappings(args.take(n)),
    decreases args.len(),
{
    if n < args.len() {
        assert(args.drop_last().take(n) =~= args.take(n));
        lemma_fault_stays(args.drop_last(), n);
    } else {
        assert(args.take(n) =~= args);
    }
}

/// Read mappings. Each key may be there once.
pub fn parse_workspace_mappings(args: &[String]) -> (r: Result<
    Vec<WorkspaceMapping>,
    MappingError,
>)
    ensures
        match r {
            Ok(found) => mappings(text::views(args@)) == Ok::<_, MappingFault>(
                mapping_views(found@),
            ),
            Err(error) => mappings(text::views(args@)) == Err::<Seq<(Seq<char>, Seq<char>)>, _>(
                error@,
            ),
        },
{
    let ghost views = text::views(args@);
    let mut out: Vec<WorkspaceMapping> = Vec::new();
    let mut i: usize = 0;
    assert(mapping_views(out@) =~= seq![]);
    while i < args.len()
        invariant
            i <= args@.len(),
            views == text::views(args@),
            mappings(views.take(i as int)) == Ok::<_, MappingFault>(mapping_views(out@)),
        decreases args@.len() - i,
    {
        proof {
            assert(views.take(i + 1).drop_last() =~= views.take(i as int));
            assert(views.take(i + 1).last() == args@[i as int]@);
            if mappings(views.take(i + 1)) is Err {
                lemma_fault_stays(views, i + 1);
            }
        }
        let found = match parse_workspace_mapping(args[i].as_str()) {
            Ok(found) => found,
            Err(error) => {
                return Err(error);
            },
        };
        assert(mapping_views(out@).take(out@.len() as int) =~= mapping_views(out@));
        if mapped_before(&out, found.key.as_str(), out.len()) {
            return Err(MappingError::DuplicateKey(found.key));
        }
        let ghost before = out@;
        out.push(found);
        assert(mapping_views(out@) =~= mapping_views(before).push((found.key@, found.path@)));
        i = i + 1;
    }
    assert(views.take(i as int) =~= views);
    Ok(out)
}

/// The keys of accepted mappings are different.
pub proof fn law_mapping_keys_are_distinct(args: Seq<Seq<char>>, i: int, j: int)
    requires
        mappings(args) is Ok,
        0 <= i < j < mappings(args)->Ok_0.len(),
    ensures
        mappings(args)->Ok_0[i].0 != mappings(args)->Ok_0[j].0,
    decreases args.len(),
{
    if args.len() > 0 {
        let before = mappings(args.drop_last())->Ok_0;
        if j < before.len() {
            law_mapping_keys_are_distinct(args.drop_last(), i, j);
        } else {
            assert(before[i] == mappings(args)->Ok_0[i]);
        }
    }
}

// ---------------------------------------------------------------------------
// Evidence
// ---------------------------------------------------------------------------

/// The evidence of a hit at a place.
pub open spec fn evidence_of(hit: HitView, at: int) -> EvidenceView {
    EvidenceView {
        rank: (at + 1) as usize,
        relative_file_path: hit.chunk.relative_file_path,
        language: hit.chunk.language,
        source_role: hit.source_role.name(),
        start_line: hit.chunk.start_line,
        end_line: hit.chunk.end_line,
        snippet: types::snippet_of(hit.chunk.code),
        reranker_score: hit.reranker_score,
    }
}

/// The evidence of the hits of a search, in order.
pub open spec fn evidence_list(hits: Seq<HitView>) -> Seq<EvidenceView> {
    Seq::new(hits.len(), |i: int| evidence_of(hits[i], i))
}

/// Build the evidence of the hits of a search.
pub fn build_evidence(hits: &[Hit]) -> (r: Vec<ResultEvidence>)
    ensures
        types::evidence_views(r@) == evidence_list(store::hit_views(hits@)),
{
    let ghost all = store::hit_views(hits@);
    let mut out: Vec<ResultEvidence> = Vec::new();
    let mut i: usize = 0;
    while i < hits.len()
        invariant
            i <= hits@.len(),
            all == store::hit_views(hits@),
            out@.len() == i,
            forall|k: int| 0 <= k < i ==> (#[trigger] out@[k])@ == evidence_of(all[k], k),
        decreases hits@.len() - i,
    {
        let hit = &hits[i];
        assert(all[i as int] == hit@);
        out.push(
            ResultEvidence {
                rank: i + 1,
                relative_file_path: hit.chunk.relative_file_path.clone(),
                language: hit.chunk.language.clone(),
                source_role: hit.source_role.as_str().to_owned(),
                start_line: hit.chunk.start_line,
                end_line: hit.chunk.end_line,
                snippet: types::bounded_snippet(hit.chunk.code.as_str()),
                reranker_score: hit.reranker_score,
            },
        );
        i = i + 1;
    }
    assert(types::evidence_views(out@) =~= evidence_list(all));
    out
}

/// The action that a report shows for what a search did about its index.
pub open spec fn lifecycle_action(action: IndexAction) -> IndexLifecycleAction {
    match action {
        IndexAction::Reused => IndexLifecycleAction::Reused,
        IndexAction::Created => IndexLifecycleAction::Created,
        IndexAction::WaitedForExistingJob => IndexLifecycleAction::WaitedForExistingJob,
        IndexAction::RefreshedIncrementally => IndexLifecycleAction::RefreshedIncrementally,
    }
}

/// The action that a report shows for what a search did about its index.
pub fn reported_action(action: IndexAction) -> (r: IndexLifecycleAction)
    ensures
        r == lifecycle_action(action),
{
    match action {
        IndexAction::Reused => IndexLifecycleAction::Reused,
        IndexAction::Created => IndexLifecycleAction::Created,
        IndexAction::WaitedForExistingJob => IndexLifecycleAction::WaitedForExistingJob,
        IndexAction::RefreshedIncrementally => IndexLifecycleAction::RefreshedIncrementally,
    }
}

// ---------------------------------------------------------------------------
// Queries
// ---------------------------------------------------------------------------

/// What to do about a query.
#[derive(Debug)]
pub enum QueryPlan {
    /// Search the workspace at this path.
    Search { path: String },
    /// Its optional workspace is missing.
    Skip { reason: String },
    /// Its required workspace is missing.
    Fail { reason: String },
}

/// What a [`QueryPlan`] says.
pub enum PlanView {
    Search { path: Seq<char> },
    Skip { reason: Seq<char> },
    Fail { reason: Seq<char> },
}

impl View for QueryPlan {
    type V = PlanView;

    open spec fn view(&self) -> PlanView {
        match self {
            QueryPlan::Search { path } => PlanView::Search { path: path@ },
            QueryPlan::Skip { reason } => PlanView::Skip { reason: reason@ },
            QueryPlan::Fail { reason } => PlanView::Fail { reason: reason@ },
        }
    }
}

/// The path of the first mapping with a key.
pub open spec fn path_for(list: Seq<(Seq<char>, Seq<char>)>, key: Seq<char>, from: int) -> Option<
    Seq<char>,
>
    decreases list.len() - from,
{
    if from < 0 || from >= list.len() {
        None
    } else if list[from].0 == key {
        Some(list[from].1)
    } else {
        path_for(list, key, from + 1)
    }
}

/// The workspace with a key is required, by its last declaration.
pub open spec fn is_required(workspaces: Seq<EvalWorkspace>, key: Seq<char>) -> bool
    decreases workspaces.len(),
{
    if workspaces.len() == 0 {
        true
    } else if workspaces.last().key@ == key {
        workspaces.last().required
    } else {
        is_required(workspaces.drop_last(), key)
    }
}

/// What to do about a query for a workspace.
pub open spec fn plan(
    workspaces: Seq<EvalWorkspace>,
    provided: Seq<(Seq<char>, Seq<char>)>,
    key: Seq<char>,
) -> PlanView {
    match path_for(provided, key, 0) {
        Some(path) => PlanView::Search { path },
        None => if is_required(workspaces, key) {
            PlanView::Fail {
                reason: "required workspace "@ + definition::quoted(key) + " not provided"@,
            }
        } else {
            PlanView::Skip {
                reason: "optional workspace "@ + definition::quoted(key) + " not provided"@,
            }
        },
    }
}

fn find_path<'a>(provided: &'a [WorkspaceMapping], key: &str) -> (r: Option<&'a str>)
    ensures
        match r {
            Some(path) => path_for(mapping_views(provided@), key@, 0) == Some(path@),
            None => path_for(mapping_views(provided@), key@, 0) is None,
        },
{
    let ghost views = mapping_views(provided@);
    let mut i: usize = 0;
    while i < provided.len()
        invariant
            i <= provided@.len(),
            views == mapping_views(provided@),
            path_for(views, key@, 0) == path_for(views, key@, i as int),
        decreases provided@.len() - i,
    {
        assert(views[i as int] == (provided@[i as int].key@, provided@[i as int].path@));
        if text::str_eq(provided[i].key.as_str(), key) {
            return Some(provided[i].path.as_str());
        }
        i = i + 1;
    }
    None
}

fn required(workspaces: &[EvalWorkspace], key: &str) -> (r: bool)
    ensures
        r == is_required(workspaces@, key@),
{
    let mut i: usize = workspaces.len();
    assert(workspaces@.take(i as int) =~= workspaces@);
    while i > 0
        invariant
            i <= workspaces@.len(),
            is_required(workspaces@, key@) == is_required(workspaces@.take(i as int), key@),
        decreases i,
    {
        let ghost front = workspaces@.take(i as int);
        proof {
            assert(front.drop_last() =~= workspaces@.take(i - 1));
            assert(front.last() == workspaces@[i - 1]);
        }
        i = i - 1;
        if text::str_eq(workspaces[i].key.as_str(), key) {
            return workspaces[i].required;
        }
    }
    true
}

/// Decide what to do about a query. A missing workspace fails its queries where it is
/// required, and skips them where it is optional.
pub fn plan_query(
    workspaces: &[EvalWorkspace],
    provided: &[WorkspaceMapping],
    query: &EvalQuery,
) -> (r: QueryPlan)
    ensures
        r@ == plan(workspaces@, mapping_views(provided@), query.workspace@),
{
    let key = query.workspace.as_str();
    if let Some(path) = find_path(provided, key) {
        return QueryPlan::Search { path: path.to_owned() };
    }
    let name = definition::quote(key);
    if required(workspaces, key) {
        QueryPlan::Fail {
            reason: text::concat3("required workspace ", name.as_str(), " not provided"),
        }
    } else {
        QueryPlan::Skip {
            reason: text::concat3("optional workspace ", name.as_str(), " not provided"),
        }
    }
}

/// What a search brought.
#[derive(Debug)]
pub struct SearchOutcome {
    pub hits: Vec<Hit>,
    pub reranked: bool,
    pub warning: Option<String>,
    pub filters: EffectiveFilterReport,
    pub timings: EvalTimings,
    pub action: IndexAction,
    pub wait_ns: u64,
}

/// The report of a query that was run.
pub open spec fn is_searched(
    report: QueryReport,
    query: EvalQuery,
    outcome: Result<SearchOutcome, String>,
) -> bool {
    match outcome {
        Err(error) => types::is_unrun(
            report,
            query,
            false,
            "failure"@,
            "search failed: "@ + error@,
            "search failed: "@ + error@,
        ),
        Ok(found) => {
            let evidence = evidence_list(store::hit_views(found.hits@));
            &&& report.query == query
            &&& !report.skipped
            &&& report.outcome@ == (if report.metrics.success {
                "success"@
            } else {
                "failure"@
            })
            &&& report.reason@ == report.metrics.reason@
            &&& types::evidence_views(report.evidence@) == evidence
            &&& report.reranked == found.reranked
            &&& report.warning == found.warning
            &&& report.filters == Some(found.filters)
            &&& report.timings == Some(found.timings)
            &&& report.index_action == Some(lifecycle_action(found.action))
            &&& report.index_wait_ns == Some(found.wait_ns)
            &&& report.metrics@ == metrics::metrics_of(query@, evidence, found.reranked)
        },
    }
}

/// Report a query that was run: by its evidence, or by the error of the search.
pub fn searched_report(query: EvalQuery, outcome: Result<SearchOutcome, String>) -> (r: QueryReport)
    ensures
        is_searched(r, query, outcome),
{
    match outcome {
        Ok(found) => {
            let evidence = build_evidence(&found.hits);
            QueryReport::new(
                query,
                evidence,
                found.reranked,
                found.warning,
                Some(found.filters),
                Some(found.timings),
                Some(reported_action(found.action)),
                Some(found.wait_ns),
            )
        },
        Err(error) => QueryReport::failed(
            query,
            text::concat2("search failed: ", error.as_str()),
        ),
    }
}

/// The first key that is there twice, by its second mapping.
pub open spec fn repeated_key(list: Seq<(Seq<char>, Seq<char>)>) -> Option<Seq<char>>
    decreases list.len(),
{
    if list.len() == 0 {
        None
    } else {
        match repeated_key(list.drop_last()) {
            Some(key) => Some(key),
            None => if has_mapping(list.drop_last(), list.last().0) {
                Some(list.last().0)
            } else {
                None
            },
        }
    }
}

proof fn lemma_repeated_key_stays(list: Seq<(Seq<char>, Seq<char>)>, n: int)
    requires
        0 <= n <= list.len(),
        repeated_key(list.take(n)) is Some,
    ensures
        repeated_key(list) == repeated_key(list.take(n)),
    decreases list.len(),
{
    if n < list.len() {
        assert(list.drop_last().take(n) =~= list.take(n));
        lemma_repeated_key_stays(list.drop_last(), n);
    } else {
        assert(list.take(n) =~= list);
    }
}

fn mapped_before(list: &[WorkspaceMapping], key: &str, upto: usize) -> (r: bool)
    requires
        upto <= list@.len(),
    ensures
        r == has_mapping(mapping_views(list@).take(upto as int), key@),
{
    let ghost views = mapping_views(list@).take(upto as int);
    let mut i: usize = 0;
    while i < upto
        invariant
            i <= upto <= list@.len(),
            views == mapping_views(list@).take(upto as int),
            forall|k: int| 0 <= k < i ==> (#[trigger] views[k]).0 != key@,
        decreases upto - i,
    {
        assert(views[i as int] == (list@[i as int].key@, list@[i as int].path@));
        if text::str_eq(list[i].key.as_str(), key) {
            return true;
        }
        i = i + 1;
    }
    false
}

/// Refuse mappings with a key that is there twice.
pub fn check_mappings(list: &[WorkspaceMapping]) -> (r: Result<(), MappingError>)
    ensures
        match r {
            Ok(_) => repeated_key(mapping_views(list@)) is None,
            Err(error) => repeated_key(mapping_views(list@)) is Some && error@
                == MappingFault::DuplicateKey(repeated_key(mapping_views(list@))->0),
        },
{
    let ghost views = mapping_views(list@);
    let mut i: usize = 0;
    while i < list.len()
        invariant
            i <= list@.len(),
            views == mapping_views(list@),
            repeated_key(views.take(i as int)) is None,
        decreases list@.len() - i,
    {
        proof {
            assert(views.take(i + 1).drop_last() =~= views.take(i as int));
            assert(views.take(i + 1).last() == views[i as int]);
            if repeated_key(views.take(i + 1)) is Some {
                lemma_repeated_key_stays(views, i + 1);
            }
        }
        if mapped_before(list, list[i].key.as_str(), i) {
            return Err(MappingError::DuplicateKey(list[i].key.clone()));
        }
        i = i + 1;
    }
    assert(views.take(i as int) =~= views);
    Ok(())
}

/// Report whether a query failed.
pub fn has_failures(report: &AggregateReport) -> (r: bool)
    ensures
        r == (report.failure_count > 0),
{
    report.failure_count > 0
}

/// A mapping is split at its first `=`: what stands in front of it is the key and all that
/// stands behind it the path, and neither may be blank.
pub proof fn law_mappings_are_split_at_the_first_sign(key: Seq<char>, path: Seq<char>)
    requires
        !key.contains('='),
    ensures
        ({
            let arg = key + seq!['='] + path;
            &&& !text::blank(key) && !text::blank(path) ==> mapping(arg) == Ok::<
                (Seq<char>, Seq<char>),
                MappingFault,
            >((key, path))
            &&& text::blank(key) ==> mapping(arg) == Err::<(Seq<char>, Seq<char>), MappingFault>(
                MappingFault::EmptyKey(arg),
            )
            &&& !text::blank(key) && text::blank(path) ==> mapping(arg) == Err::<
                (Seq<char>, Seq<char>),
                MappingFault,
            >(MappingFault::EmptyPath(arg))
            &&& mapping(key) == Err::<(Seq<char>, Seq<char>), MappingFault>(
                MappingFault::NoSeparator(key),
            )
        }),
{
    let arg = key + seq!['='] + path;
    text::lemma_next_sep(arg, '=', 0);
    text::lemma_next_sep(key, '=', 0);
    let at = text::next_sep(arg, '=', 0);
    assert(arg[key.len() as int] == '=');
    if at < key.len() {
        assert(key[at] == '=');
    }
    assert(at == key.len());
    assert(arg.take(at) =~= key);
    assert(arg.skip(at + 1) =~= path);
}

/// Accepted arguments are mapped one by one, in order.
pub proof fn law_each_argument_is_one_mapping(args: Seq<Seq<char>>, i: int)
    requires
        mappings(args) is Ok,
        0 <= i < args.len(),
    ensures
        mappings(args)->Ok_0.len() == args.len(),
        mapping(args[i]) == Ok::<(Seq<char>, Seq<char>), MappingFault>(mappings(args)->Ok_0[i]),
    decreases args.len(),
{
    let rest = args.drop_last();
    if rest.len() > 0 {
        let k = if i < rest.len() {
            i
        } else {
            0
        };
        law_each_argument_is_one_mapping(rest, k);
        if i < rest.len() {
            assert(rest[i] == args[i]);
        }
    } else {
        assert(mappings(rest)->Ok_0 =~= seq![]);
    }
}

proof fn lemma_path_for(list: Seq<(Seq<char>, Seq<char>)>, key: Seq<char>, from: int)
    requires
        0 <= from <= list.len(),
    ensures
        match path_for(list, key, from) {
            Some(path) => exists|i: int|
                from <= i < list.len() && #[trigger] list[i] == (key, path),
            None => forall|i: int| from <= i < list.len() ==> (#[trigger] list[i]).0 != key,
        },
    decreases list.len() - from,
{
    if from < list.len() {
        if list[from].0 == key {
            assert(list[from] == (key, list[from].1));
        } else {
            lemma_path_for(list, key, from + 1);
        }
    }
}

/// A query is searched for where its workspace is provided, at the path that is provided for
/// it. Where it is not, the query fails if the workspace is required, and is skipped if it is
/// declared as one that is not.
pub proof fn law_queries_run_where_their_workspace_is(
    workspaces: Seq<EvalWorkspace>,
    provided: Seq<(Seq<char>, Seq<char>)>,
    key: Seq<char>,
)
    ensures
        match plan(workspaces, provided, key) {
            PlanView::Search { path } => exists|i: int|
                0 <= i < provided.len() && #[trigger] provided[i] == (key, path),
            PlanView::Fail { .. } => !has_mapping(provided, key) && is_required(workspaces, key),
            PlanView::Skip { .. } => !has_mapping(provided, key) && exists|i: int|
                0 <= i < workspaces.len() && (#[trigger] workspaces[i]).key@ == key
                    && !workspaces[i].required,
        },
        forall|i: int|
            0 <= i < workspaces.len() && (#[trigger] workspaces[i]).key@ == key && (forall|j: int|
                0 <= j < workspaces.len() && j != i ==> (#[trigger] workspaces[j]).key@ != key)
                ==> is_required(workspaces, key) == workspaces[i].required,
        (forall|i: int| 0 <= i < workspaces.len() ==> (#[trigger] workspaces[i]).key@ != key)
            ==> is_required(workspaces, key),
{
    lemma_path_for(provided, key, 0);
    lemma_is_required(workspaces, key);
}

proof fn lemma_is_required(workspaces: Seq<EvalWorkspace>, key: Seq<char>)
    ensures
        (forall|i: int| 0 <= i < workspaces.len() ==> (#[trigger] workspaces[i]).key@ != key)
            ==> is_required(workspaces, key),
        (exists|i: int| 0 <= i < workspaces.len() && (#[trigger] workspaces[i]).key@ == key)
            ==> exists|i: int|
            0 <= i < workspaces.len() && (#[trigger] workspaces[i]).key@ == key
                && workspaces[i].required == is_required(workspaces, key),
    decreases workspaces.len(),
{
    if workspaces.len() > 0 {
        let rest = workspaces.drop_last();
        let n = workspaces.len() - 1;
        lemma_is_required(rest, key);
        assert(forall|i: int| 0 <= i < n ==> rest[i] == #[trigger] workspaces[i]);
        if workspaces[n].key@ == key {
            assert(workspaces[n].required == is_required(workspaces, key));
        } else if exists|i: int| 0 <= i < workspaces.len() && (#[trigger] workspaces[i]).key@
            == key {
            let i = choose|i: int|
                0 <= i < workspaces.len() && (#[trigger] workspaces[i]).key@ == key;
            assert(rest[i].key@ == key);
            let k = choose|k: int|
                0 <= k < rest.len() && (#[trigger] rest[k]).key@ == key && rest[k].required
                    == is_required(rest, key);
            assert(workspaces[k].key@ == key);
        }
    }
}

/// The evidence of a query is what its search found, in order and ranked from one: the place,
/// the language and the role of each hit, and a snippet of its code.
pub proof fn law_evidence_is_what_the_search_found(hits: Seq<HitView>, i: int)
    requires
        0 <= i < hits.len() < usize::MAX,
    ensures
        ({
            let row = evidence_list(hits)[i];
            &&& evidence_list(hits).len() == hits.len()
            &&& row.rank == i + 1
            &&& row.relative_file_path == hits[i].chunk.relative_file_path
            &&& row.language == hits[i].chunk.language
            &&& row.source_role == hits[i].source_role.name()
            &&& row.start_line == hits[i].chunk.start_line
            &&& row.end_line == hits[i].chunk.end_line
            &&& row.snippet == types::snippet_of(hits[i].chunk.code)
            &&& row.reranker_score == hits[i].reranker_score
        }),
{
}

/// A query that was run is a success if and only if its metrics say so, and one whose search
/// failed is a failure that counts.
pub proof fn law_reports_succeed_as_their_metrics_do(
    report: QueryReport,
    query: EvalQuery,
    outcome: Result<SearchOutcome, String>,
)
    requires
        is_searched(report, query, outcome),
    ensures
        !report.skipped,
        report.outcome@ == "success"@ <==> report.metrics.success,
        report.outcome@ == "failure"@ <==> !report.metrics.success,
        outcome is Err ==> !report.metrics.success && !report.metrics.hit && report.evidence@.len()
            == 0,
{
    reveal_strlit("success");
    reveal_strlit("failure");
    assert("success"@[0] != "failure"@[0]);
}

proof fn lemma_repeated_key(list: Seq<(Seq<char>, Seq<char>)>)
    ensures
        repeated_key(list) is None <==> forall|i: int, j: int|
            0 <= i < j < list.len() ==> (#[trigger] list[i]).0 != (#[trigger] list[j]).0,
        repeated_key(list) matches Some(key) ==> exists|i: int, j: int|
            0 <= i < j < list.len() && (#[trigger] list[i]).0 == key && (#[trigger] list[j]).0
                == key,
    decreases list.len(),
{
    if list.len() > 0 {
        let rest = list.drop_last();
        let n = list.len() - 1;
        lemma_repeated_key(rest);
        assert(forall|i: int| 0 <= i < n ==> rest[i] == #[trigger] list[i]);
        match repeated_key(rest) {
            Some(key) => {
                let (i, j) = choose|i: int, j: int|
                    0 <= i < j < rest.len() && (#[trigger] rest[i]).0 == key && (
                    #[trigger] rest[j]).0 == key;
                assert(list[i].0 == key && list[j].0 == key);
            },
            None => {
                assert forall|i: int, j: int| 0 <= i < j < n implies (#[trigger] list[i]).0 != (
                #[trigger] list[j]).0 by {
                    assert(rest[i].0 != rest[j].0);
                }
                if has_mapping(rest, list.last().0) {
                    let i = choose|i: int|
                        0 <= i < rest.len() && (#[trigger] rest[i]).0 == list.last().0;
                    assert(list[i].0 == list[n].0);
                } else {
                    assert forall|i: int| 0 <= i < n implies (#[trigger] list[i]).0
                        != list[n].0 by {
                        assert(rest[i].0 != list.last().0);
                    }
                }
            },
        }
    }
}

/// Mappings are refused if and only if two of them have the same key, and then for such a
/// key.
pub proof fn law_repeated_keys_are_refused(list: Seq<(Seq<char>, Seq<char>)>)
    ensures
        repeated_key(list) is None <==> forall|i: int, j: int|
            0 <= i < j < list.len() ==> (#[trigger] list[i]).0 != (#[trigger] list[j]).0,
        repeated_key(list) matches Some(key) ==> exists|i: int, j: int|
            0 <= i < j < list.len() && (#[trigger] list[i]).0 == key && (#[trigger] list[j]).0
                == key,
{
    lemma_repeated_key(list);
}

/// The report of a query that was run says what the search found and did, and is measured by
/// that evidence.
pub proof fn law_reports_say_what_the_search_did(
    report: QueryReport,
    query: EvalQuery,
    found: SearchOutcome,
)
    requires
        is_searched(report, query, Ok(found)),
    ensures
        report.query == query,
        report.reranked == found.reranked,
        report.warning == found.warning,
        report.filters == Some(found.filters),
        report.timings == Some(found.timings),
        report.index_wait_ns == Some(found.wait_ns),
        report.reason@ == report.metrics.reason@,
        report.evidence@.len() == found.hits@.len(),
        report.metrics@ == metrics::metrics_of(
            query@,
            types::evidence_views(report.evidence@),
            report.reranked,
        ),
        match found.action {
            IndexAction::Reused => report.index_action == Some(IndexLifecycleAction::Reused),
            IndexAction::Created => report.index_action == Some(IndexLifecycleAction::Created),
            IndexAction::WaitedForExistingJob => report.index_action == Some(
                IndexLifecycleAction::WaitedForExistingJob,
            ),
            IndexAction::RefreshedIncrementally => report.index_action == Some(
                IndexLifecycleAction::RefreshedIncrementally,
            ),
        },
{
    let shown = types::evidence_views(report.evidence@);
    let list = evidence_list(store::hit_views(found.hits@));
    assert(shown.len() == report.evidence@.len());
    assert(list.len() == found.hits@.len());
}

} // verus!

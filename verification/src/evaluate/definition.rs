//! Validation of evaluation definitions.

use crate::evaluate::metrics;
use crate::evaluate::types::{EvalQuery, EvalWorkspace, EvaluationFile};
use crate::filter::request::{self, Refusal};
use crate::filter::FilterError;
use crate::text;
use vstd::prelude::*;

verus! {

/// A text in quotation marks, with its special characters escaped.
pub uninterp spec fn quoted(s: Seq<char>) -> Seq<char>;

/// Formats a text by std's `Debug` for `str`: in quotation marks, with its special
/// characters escaped. How they are escaped is named, not stated.
#[verifier::external_body]
pub(crate) fn quote(s: &str) -> (r: String)
    ensures
        r@ == quoted(s@),
{
    format!("{:?}", s)
}

/// The lists of patterns that a query has.
#[derive(Debug, Clone, Copy, PartialEq, Eq, Structural)]
pub enum PatternList {
    Expected,
    Preferred,
    Disfavored,
    Include,
    Exclude,
}

impl PatternList {
    /// The name of the list in a definition.
    pub open spec fn name(self) -> Seq<char> {
        match self {
            PatternList::Expected => "expected_paths"@,
            PatternList::Preferred => "preferred_paths"@,
            PatternList::Disfavored => "disfavored_paths"@,
            PatternList::Include => "include_paths"@,
            PatternList::Exclude => "exclude_paths"@,
        }
    }

    fn as_str(self) -> (r: &'static str)
        ensures
            r@ == self.name(),
    {
        match self {
            PatternList::Expected => "expected_paths",
            PatternList::Preferred => "preferred_paths",
            PatternList::Disfavored => "disfavored_paths",
            PatternList::Include => "include_paths",
            PatternList::Exclude => "exclude_paths",
        }
    }
}

/// Why an evaluation definition is refused.
#[derive(Debug)]
pub enum DefinitionError {
    EmptyKey,
    DuplicateKey(String),
    EmptyQuery(usize),
    EmptyWorkspace(usize),
    UndeclaredWorkspace { index: usize, key: String },
    Pattern { index: usize, list: PatternList, error: FilterError },
}

/// What a [`DefinitionError`] says.
pub enum Fault {
    EmptyKey,
    DuplicateKey(Seq<char>),
    EmptyQuery(usize),
    EmptyWorkspace(usize),
    UndeclaredWorkspace { index: usize, key: Seq<char> },
    Pattern { index: usize, list: PatternList, error: Refusal },
}

impl View for DefinitionError {
    type V = Fault;

    open spec fn view(&self) -> Fault {
        match self {
            DefinitionError::EmptyKey => Fault::EmptyKey,
            DefinitionError::DuplicateKey(key) => Fault::DuplicateKey(key@),
            DefinitionError::EmptyQuery(index) => Fault::EmptyQuery(*index),
            DefinitionError::EmptyWorkspace(index) => Fault::EmptyWorkspace(*index),
            DefinitionError::UndeclaredWorkspace { index, key } => Fault::UndeclaredWorkspace {
                index: *index,
                key: key@,
            },
            DefinitionError::Pattern { index, list, error } => Fault::Pattern {
                index: *index,
                list: *list,
                error: error@,
            },
        }
    }
}

impl Fault {
    /// The text of the error.
    pub open spec fn text(self) -> Seq<char> {
        match self {
            Fault::EmptyKey => "workspace key must not be empty"@,
            Fault::DuplicateKey(key) => "duplicate workspace key: "@ + quoted(key),
            Fault::EmptyQuery(index) => "query at index "@ + text::decimal(index as nat)
                + " has empty query text"@,
            Fault::EmptyWorkspace(index) => "query at index "@ + text::decimal(index as nat)
                + " has empty workspace key"@,
            Fault::UndeclaredWorkspace { index, key } => "query at index "@ + text::decimal(
                index as nat,
            ) + " references undeclared workspace key "@ + quoted(key),
            Fault::Pattern { index, list, error } => "query at index "@ + text::decimal(
                index as nat,
            ) + ": invalid "@ + list.name() + " pattern: "@ + error.text(),
        }
    }
}

impl DefinitionError {
    /// The text of the error.
    pub fn to_string(&self) -> (r: String)
        ensures
            r@ == self@.text(),
    {
        match self {
            DefinitionError::EmptyKey => "workspace key must not be empty".to_owned(),
            DefinitionError::DuplicateKey(key) => {
                let name = quote(key.as_str());
                text::concat2("duplicate workspace key: ", name.as_str())
            },
            DefinitionError::EmptyQuery(index) => {
                let number = text::decimal_text(*index as u64);
                text::concat3("query at index ", number.as_str(), " has empty query text")
            },
            DefinitionError::EmptyWorkspace(index) => {
                let number = text::decimal_text(*index as u64);
                text::concat3("query at index ", number.as_str(), " has empty workspace key")
            },
            DefinitionError::UndeclaredWorkspace { index, key } => {
                let number = text::decimal_text(*index as u64);
                let name = quote(key.as_str());
                let head = text::concat3(
                    "query at index ",
                    number.as_str(),
                    " references undeclared workspace key ",
                );
                text::concat2(head.as_str(), name.as_str())
            },
            DefinitionError::Pattern { index, list, error } => {
                let number = text::decimal_text(*index as u64);
                let cause = error.to_string();
                let head = text::concat3("query at index ", number.as_str(), ": invalid ");
                let middle = text::concat3(head.as_str(), list.as_str(), " pattern: ");
                text::concat2(middle.as_str(), cause.as_str())
            },
        }
    }
}

/// The keys of the workspaces.
pub open spec fn keys(workspaces: Seq<EvalWorkspace>) -> Seq<Seq<char>> {
    workspaces.map_values(|workspace: EvalWorkspace| workspace.key@)
}

/// Why the first `upto` workspaces are refused: their keys must not be blank, and each must
/// be there once.
pub open spec fn workspace_fault(workspaces: Seq<EvalWorkspace>, upto: nat) -> Option<Fault>
    decreases upto,
{
    if upto == 0 || upto > workspaces.len() {
        None
    } else {
        let key = workspaces[upto - 1].key@;
        match workspace_fault(workspaces, (upto - 1) as nat) {
            Some(fault) => Some(fault),
            None => if text::blank(key) {
                Some(Fault::EmptyKey)
            } else if keys(workspaces).take(upto - 1).contains(key) {
                Some(Fault::DuplicateKey(key))
            } else {
                None
            },
        }
    }
}

/// Why a list of patterns of a query is refused.
pub open spec fn list_fault(
    index: usize,
    list: PatternList,
    patterns: Option<Seq<Seq<char>>>,
) -> Option<Fault> {
    match patterns {
        Some(patterns) => match metrics::first_refusal(patterns) {
            Some(error) => Some(Fault::Pattern { index, list, error }),
            None => None,
        },
        None => None,
    }
}

/// The first of two faults.
pub open spec fn first_of(first: Option<Fault>, second: Option<Fault>) -> Option<Fault> {
    if first is Some {
        first
    } else {
        second
    }
}

/// Why the filters of a query are refused.
pub open spec fn filter_fault(index: usize, query: EvalQuery) -> Option<Fault> {
    match query.filters {
        Some(filters) => first_of(
            list_fault(index, PatternList::Include, filters@.include_paths),
            list_fault(index, PatternList::Exclude, filters@.exclude_paths),
        ),
        None => None,
    }
}

/// Why a query is refused, given the keys that are declared.
pub open spec fn query_fault(index: usize, query: EvalQuery, declared: Seq<Seq<char>>) -> Option<
    Fault,
> {
    if text::blank(query.query@) {
        Some(Fault::EmptyQuery(index))
    } else if text::blank(query.workspace@) {
        Some(Fault::EmptyWorkspace(index))
    } else if !declared.contains(query.workspace@) {
        Some(Fault::UndeclaredWorkspace { index, key: query.workspace@ })
    } else {
        first_of(
            list_fault(index, PatternList::Expected, Some(query@.expected_paths)),
            first_of(
                list_fault(index, PatternList::Preferred, Some(query@.preferred_paths)),
                first_of(
                    list_fault(index, PatternList::Disfavored, Some(query@.disfavored_paths)),
                    filter_fault(index, query),
                ),
            ),
        )
    }
}

/// Why the first `upto` queries are refused.
pub open spec fn queries_fault(
    queries: Seq<EvalQuery>,
    declared: Seq<Seq<char>>,
    upto: nat,
) -> Option<Fault>
    decreases upto,
{
    if upto == 0 || upto > queries.len() {
        None
    } else {
        first_of(
            queries_fault(queries, declared, (upto - 1) as nat),
            query_fault((upto - 1) as usize, queries[upto - 1], declared),
        )
    }
}

/// Why a definition is refused: its first fault.
pub open spec fn definition_fault(file: EvaluationFile) -> Option<Fault> {
    first_of(
        workspace_fault(file.workspaces@, file.workspaces@.len()),
        queries_fault(file.queries@, keys(file.workspaces@), file.queries@.len()),
    )
}

fn has_key(workspaces: &[EvalWorkspace], key: &str, upto: usize) -> (r: bool)
    requires
        upto <= workspaces@.len(),
    ensures
        r == keys(workspaces@).take(upto as int).contains(key@),
{
    let ghost names = keys(workspaces@).take(upto as int);
    let mut i: usize = 0;
    while i < upto
        invariant
            i <= upto <= workspaces@.len(),
            names == keys(workspaces@).take(upto as int),
            forall|k: int| 0 <= k < i ==> #[trigger] names[k] != key@,
        decreases upto - i,
    {
        assert(names[i as int] == workspaces@[i as int].key@);
        if text::str_eq(workspaces[i].key.as_str(), key) {
            return true;
        }
        i = i + 1;
    }
    false
}

proof fn lemma_workspace_fault_stays(workspaces: Seq<EvalWorkspace>, i: nat, upto: nat)
    requires
        i <= upto <= workspaces.len(),
        workspace_fault(workspaces, i) is Some,
    ensures
        workspace_fault(workspaces, upto) == workspace_fault(workspaces, i),
    decreases upto,
{
    if i < upto {
        lemma_workspace_fault_stays(workspaces, i, (upto - 1) as nat);
    }
}

fn check_workspaces(workspaces: &[EvalWorkspace]) -> (r: Result<(), DefinitionError>)
    ensures
        match r {
            Ok(_) => workspace_fault(workspaces@, workspaces@.len()) is None,
            Err(error) => workspace_fault(workspaces@, workspaces@.len()) == Some(error@),
        },
{
    let mut i: usize = 0;
    while i < workspaces.len()
        invariant
            i <= workspaces@.len(),
            workspace_fault(workspaces@, i as nat) is None,
        decreases workspaces@.len() - i,
    {
        proof {
            if workspace_fault(workspaces@, (i + 1) as nat) is Some {
                lemma_workspace_fault_stays(workspaces@, (i + 1) as nat, workspaces@.len());
            }
        }
        let key = workspaces[i].key.as_str();
        if text::is_blank(key) {
            return Err(DefinitionError::EmptyKey);
        }
        if has_key(workspaces, key, i) {
            return Err(DefinitionError::DuplicateKey(key.to_owned()));
        }
        i = i + 1;
    }
    Ok(())
}

proof fn lemma_refusal_stays(patterns: Seq<Seq<char>>, n: int)
    requires
        0 <= n <= patterns.len(),
        metrics::first_refusal(patterns.take(n)) is Some,
    ensures
        metrics::first_refusal(patterns) == metrics::first_refusal(patterns.take(n)),
    decreases patterns.len(),
{
    if n < patterns.len() {
        assert(patterns.drop_last().take(n) =~= patterns.take(n));
        lemma_refusal_stays(patterns.drop_last(), n);
    } else {
        assert(patterns.take(n) =~= patterns);
    }
}

fn check_patterns(index: usize, list: PatternList, patterns: &[String]) -> (r: Result<
    (),
    DefinitionError,
>)
    ensures
        match r {
            Ok(_) => list_fault(index, list, Some(text::views(patterns@))) is None,
            Err(error) => list_fault(index, list, Some(text::views(patterns@))) == Some(error@),
        },
{
    let ghost views = text::views(patterns@);
    let mut i: usize = 0;
    while i < patterns.len()
        invariant
            i <= patterns@.len(),
            views == text::views(patterns@),
            metrics::first_refusal(views.take(i as int)) is None,
        decreases patterns@.len() - i,
    {
        proof {
            assert(views.take(i + 1).drop_last() =~= views.take(i as int));
            assert(views.take(i + 1).last() == patterns@[i as int]@);
        }
        if let Err(error) = metrics::validate_pattern(patterns[i].as_str()) {
            proof {
                lemma_refusal_stays(views, i + 1);
            }
            return Err(DefinitionError::Pattern { index, list, error });
        }
        i = i + 1;
    }
    assert(views.take(i as int) =~= views);
    Ok(())
}

fn check_optional(index: usize, list: PatternList, patterns: &Option<Vec<String>>) -> (r: Result<
    (),
    DefinitionError,
>)
    ensures
        match r {
            Ok(_) => list_fault(index, list, request::list_view(*patterns)) is None,
            Err(error) => list_fault(index, list, request::list_view(*patterns)) == Some(error@),
        },
{
    match patterns {
        Some(patterns) => check_patterns(index, list, patterns),
        None => Ok(()),
    }
}

fn check_query(index: usize, query: &EvalQuery, workspaces: &[EvalWorkspace]) -> (r: Result<
    (),
    DefinitionError,
>)
    ensures
        match r {
            Ok(_) => query_fault(index, *query, keys(workspaces@)) is None,
            Err(error) => query_fault(index, *query, keys(workspaces@)) == Some(error@),
        },
{
    if text::is_blank(query.query.as_str()) {
        return Err(DefinitionError::EmptyQuery(index));
    }
    if text::is_blank(query.workspace.as_str()) {
        return Err(DefinitionError::EmptyWorkspace(index));
    }
    proof {
        let names = keys(workspaces@);
        assert(names.take(workspaces@.len() as int) =~= names);
    }
    if !has_key(workspaces, query.workspace.as_str(), workspaces.len()) {
        return Err(
            DefinitionError::UndeclaredWorkspace { index, key: query.workspace.clone() },
        );
    }
    if let Err(error) = check_patterns(index, PatternList::Expected, &query.expected_paths) {
        return Err(error);
    }
    if let Err(error) = check_patterns(index, PatternList::Preferred, &query.preferred_paths) {
        return Err(error);
    }
    if let Err(error) = check_patterns(index, PatternList::Disfavored, &query.disfavored_paths) {
        return Err(error);
    }
    if let Some(filters) = &query.filters {
        if let Err(error) = check_optional(index, PatternList::Include, &filters.include_paths) {
            return Err(error);
        }
        if let Err(error) = check_optional(index, PatternList::Exclude, &filters.exclude_paths) {
            return Err(error);
        }
    }
    Ok(())
}

proof fn lemma_queries_fault_stays(
    queries: Seq<EvalQuery>,
    declared: Seq<Seq<char>>,
    i: nat,
    upto: nat,
)
    requires
        i <= upto <= queries.len(),
        queries_fault(queries, declared, i) is Some,
    ensures
        queries_fault(queries, declared, upto) == queries_fault(queries, declared, i),
    decreases upto,
{
    if i < upto {
        lemma_queries_fault_stays(queries, declared, i, (upto - 1) as nat);
    }
}

/// Test an evaluation definition: the keys of its workspaces, the keys that its queries
/// refer to, and all path patterns, also those of filters.
pub fn validate_definition(file: &EvaluationFile) -> (r: Result<(), DefinitionError>)
    ensures
        match r {
            Ok(_) => definition_fault(*file) is None,
            Err(error) => definition_fault(*file) == Some(error@),
        },
{
    if let Err(error) = check_workspaces(&file.workspaces) {
        return Err(error);
    }
    let ghost declared = keys(file.workspaces@);
    let mut i: usize = 0;
    while i < file.queries.len()
        invariant
            i <= file.queries@.len(),
            declared == keys(file.workspaces@),
            workspace_fault(file.workspaces@, file.workspaces@.len()) is None,
            queries_fault(file.queries@, declared, i as nat) is None,
        decreases file.queries@.len() - i,
    {
        if let Err(error) = check_query(i, &file.queries[i], &file.workspaces) {
            proof {
                lemma_queries_fault_stays(
                    file.queries@,
                    declared,
                    (i + 1) as nat,
                    file.queries@.len(),
                );
            }
            return Err(error);
        }
        i = i + 1;
    }
    Ok(())
}

/// In a valid definition every query names a workspace that is declared.
pub proof fn law_valid_queries_name_declared_workspaces(file: EvaluationFile, i: int)
    requires
        definition_fault(file) is None,
        0 <= i < file.queries@.len(),
    ensures
        keys(file.workspaces@).contains(file.queries@[i].workspace@),
{
    lemma_no_query_fault(file.queries@, keys(file.workspaces@), file.queries@.len(), i);
}

proof fn lemma_no_query_fault(
    queries: Seq<EvalQuery>,
    declared: Seq<Seq<char>>,
    upto: nat,
    i: int,
)
    requires
        queries_fault(queries, declared, upto) is None,
        0 <= i < upto <= queries.len(),
    ensures
        query_fault(i as usize, queries[i], declared) is None,
    decreases upto,
{
    if i < upto - 1 {
        lemma_no_query_fault(queries, declared, (upto - 1) as nat, i);
    }
}

proof fn lemma_workspaces_are_sound(workspaces: Seq<EvalWorkspace>, upto: nat)
    requires
        upto <= workspaces.len(),
    ensures
        workspace_fault(workspaces, upto) is None <==> {
            &&& forall|i: int| 0 <= i < upto ==> !text::blank((#[trigger] workspaces[i]).key@)
            &&& forall|i: int, j: int|
                0 <= i < j < upto ==> (#[trigger] workspaces[i]).key@ != (
                #[trigger] workspaces[j]).key@
        },
    decreases upto,
{
    if upto > 0 {
        let n = upto - 1;
        lemma_workspaces_are_sound(workspaces, n as nat);
        let key = workspaces[n].key@;
        let before = keys(workspaces).take(n);
        if before.contains(key) {
            let i = choose|i: int| 0 <= i < before.len() && before[i] == key;
            assert(workspaces[i].key@ == key);
        }
        if exists|i: int| 0 <= i < n && (#[trigger] workspaces[i]).key@ == key {
            let i = choose|i: int| 0 <= i < n && (#[trigger] workspaces[i]).key@ == key;
            assert(before[i] == key);
        }
    }
}

proof fn lemma_patterns_are_sound(patterns: Seq<Seq<char>>)
    ensures
        metrics::first_refusal(patterns) is None <==> forall|i: int|
            0 <= i < patterns.len() ==> metrics::pattern_refusal(#[trigger] patterns[i]) is None,
    decreases patterns.len(),
{
    if patterns.len() > 0 {
        let rest = patterns.drop_last();
        let n = patterns.len() - 1;
        lemma_patterns_are_sound(rest);
        assert(forall|i: int| 0 <= i < n ==> rest[i] == #[trigger] patterns[i]);
        if metrics::first_refusal(rest) is None {
            assert forall|i: int| 0 <= i < n implies metrics::pattern_refusal(
                #[trigger] patterns[i],
            ) is None by {
                assert(metrics::pattern_refusal(rest[i]) is None);
            }
            assert(patterns[n] == patterns.last());
        } else {
            let i = choose|i: int|
                0 <= i < rest.len() && !(metrics::pattern_refusal(#[trigger] rest[i]) is None);
            assert(patterns[i] == rest[i]);
        }
    }
}

/// All patterns of a list are accepted.
pub open spec fn all_accepted(patterns: Seq<Seq<char>>) -> bool {
    forall|i: int|
        0 <= i < patterns.len() ==> metrics::pattern_refusal(#[trigger] patterns[i]) is None
}

/// A query can be run: it asks for something, in a workspace that is declared, and all of
/// its patterns are accepted.
pub open spec fn is_sound_query(query: EvalQuery, declared: Seq<Seq<char>>) -> bool {
    &&& !text::blank(query.query@)
    &&& !text::blank(query.workspace@)
    &&& declared.contains(query.workspace@)
    &&& all_accepted(query@.expected_paths)
    &&& all_accepted(query@.preferred_paths)
    &&& all_accepted(query@.disfavored_paths)
    &&& query.filters matches Some(filters) ==> {
        &&& filters@.include_paths matches Some(patterns) ==> all_accepted(patterns)
        &&& filters@.exclude_paths matches Some(patterns) ==> all_accepted(patterns)
    }
}

proof fn lemma_queries_are_sound(
    queries: Seq<EvalQuery>,
    declared: Seq<Seq<char>>,
    upto: nat,
)
    requires
        upto <= queries.len(),
    ensures
        queries_fault(queries, declared, upto) is None <==> forall|i: int|
            0 <= i < upto ==> is_sound_query(#[trigger] queries[i], declared),
    decreases upto,
{
    if upto > 0 {
        lemma_queries_are_sound(queries, declared, (upto - 1) as nat);
        let query = queries[upto - 1];
        lemma_patterns_are_sound(query@.expected_paths);
        lemma_patterns_are_sound(query@.preferred_paths);
        lemma_patterns_are_sound(query@.disfavored_paths);
        if let Some(filters) = query.filters {
            if let Some(patterns) = filters@.include_paths {
                lemma_patterns_are_sound(patterns);
            }
            if let Some(patterns) = filters@.exclude_paths {
                lemma_patterns_are_sound(patterns);
            }
        }
        assert(query_fault((upto - 1) as usize, query, declared) is None <==> is_sound_query(
            query,
            declared,
        ));
    }
}

/// A definition is accepted if and only if its workspaces have keys that are not blank and
/// all different, and each of its queries can be run.
pub proof fn law_sound_definitions_are_accepted(file: EvaluationFile)
    ensures
        definition_fault(file) is None <==> {
            &&& forall|i: int|
                0 <= i < file.workspaces@.len() ==> !text::blank(
                    (#[trigger] file.workspaces@[i]).key@,
                )
            &&& forall|i: int, j: int|
                0 <= i < j < file.workspaces@.len() ==> (#[trigger] file.workspaces@[i]).key@ != (
                #[trigger] file.workspaces@[j]).key@
            &&& forall|i: int|
                0 <= i < file.queries@.len() ==> is_sound_query(
                    #[trigger] file.queries@[i],
                    keys(file.workspaces@),
                )
        },
{
    lemma_workspaces_are_sound(file.workspaces@, file.workspaces@.len());
    lemma_queries_are_sound(file.queries@, keys(file.workspaces@), file.queries@.len());
}

proof fn lemma_workspace_fault_holds(workspaces: Seq<EvalWorkspace>, upto: nat)
    ensures
        workspace_fault(workspaces, upto) matches Some(fault) ==> match fault {
            Fault::EmptyKey => exists|i: int|
                0 <= i < workspaces.len() && text::blank((#[trigger] workspaces[i]).key@),
            Fault::DuplicateKey(key) => exists|i: int, j: int|
                0 <= i < j < workspaces.len() && (#[trigger] workspaces[i]).key@ == key && (
                #[trigger] workspaces[j]).key@ == key,
            _ => false,
        },
    decreases upto,
{
    if upto > 0 && upto <= workspaces.len() {
        lemma_workspace_fault_holds(workspaces, (upto - 1) as nat);
        let key = workspaces[upto - 1].key@;
        let before = keys(workspaces).take(upto - 1);
        if before.contains(key) {
            let i = choose|i: int| 0 <= i < before.len() && before[i] == key;
            assert(workspaces[i].key@ == key);
        }
    }
}

/// What a fault says of the query with a given index.
pub open spec fn fault_holds(
    fault: Fault,
    queries: Seq<EvalQuery>,
    declared: Seq<Seq<char>>,
) -> bool {
    match fault {
        Fault::EmptyQuery(index) => index < queries.len() && text::blank(
            queries[index as int].query@,
        ),
        Fault::EmptyWorkspace(index) => index < queries.len() && text::blank(
            queries[index as int].workspace@,
        ),
        Fault::UndeclaredWorkspace { index, key } => index < queries.len()
            && queries[index as int].workspace@ == key && !declared.contains(key),
        Fault::Pattern { index, list, error } => index < queries.len() && {
            let query = queries[index as int];
            let refused = |patterns: Seq<Seq<char>>| metrics::first_refusal(patterns) == Some(error);
            match list {
                PatternList::Expected => refused(query@.expected_paths),
                PatternList::Preferred => refused(query@.preferred_paths),
                PatternList::Disfavored => refused(query@.disfavored_paths),
                PatternList::Include => query.filters is Some
                    && query.filters->0@.include_paths is Some && refused(
                    query.filters->0@.include_paths->0,
                ),
                PatternList::Exclude => query.filters is Some
                    && query.filters->0@.exclude_paths is Some && refused(
                    query.filters->0@.exclude_paths->0,
                ),
            }
        },
        _ => false,
    }
}

proof fn lemma_query_fault_holds(queries: Seq<EvalQuery>, declared: Seq<Seq<char>>, upto: nat)
    requires
        queries.len() <= usize::MAX,
    ensures
        queries_fault(queries, declared, upto) matches Some(fault) ==> fault_holds(
            fault,
            queries,
            declared,
        ),
    decreases upto,
{
    if upto > 0 && upto <= queries.len() {
        lemma_query_fault_holds(queries, declared, (upto - 1) as nat);
    }
}

/// A definition is refused for what is wrong with it: the fault that is reported is one that
/// the workspace or the query that it names has.
pub proof fn law_faults_are_where_they_are_said_to_be(file: EvaluationFile)
    requires
        file.queries@.len() <= usize::MAX,
    ensures
        definition_fault(file) matches Some(fault) ==> match fault {
            Fault::EmptyKey => exists|i: int|
                0 <= i < file.workspaces@.len() && text::blank((#[trigger] file.workspaces@[i]).key@),
            Fault::DuplicateKey(key) => exists|i: int, j: int|
                0 <= i < j < file.workspaces@.len() && (#[trigger] file.workspaces@[i]).key@ == key
                    && (#[trigger] file.workspaces@[j]).key@ == key,
            _ => fault_holds(fault, file.queries@, keys(file.workspaces@)),
        },
{
    lemma_workspace_fault_holds(file.workspaces@, file.workspaces@.len());
    lemma_query_fault_holds(file.queries@, keys(file.workspaces@), file.queries@.len());
}

} // verus!

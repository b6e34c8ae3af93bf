//! Symbol search, definitions and references by the language servers.

use crate::language;
use crate::lsp::adapter::{self, AdapterInfo};
use crate::lsp::{self, Location, LocationView};
use crate::order::{self, Ranked};
use crate::workspace::Workspace;
use crate::{paths, text};
use vstd::prelude::*;

verus! {

/// The answer of the language servers.
#[derive(Debug)]
pub struct NavigationReport {
    pub workspace: Workspace,
    pub results: Vec<Location>,
}

/// Why a navigation request is refused or fails.
#[derive(Debug)]
pub enum NavigationError {
    EmptyQuery,
    NotIndexed,
    /// All applicable language servers failed, with these texts.
    AllFailed(String),
    EmptyPath,
    OutsideWorkspace,
    NotAFile,
    Unrecognized,
    /// There is no language server for this language.
    Unsupported(String),
    /// The index holds nothing in this language.
    NoChunks(String),
    Line,
}

/// What a [`NavigationError`] says.
pub enum Obstacle {
    EmptyQuery,
    NotIndexed,
    AllFailed(Seq<char>),
    EmptyPath,
    OutsideWorkspace,
    NotAFile,
    Unrecognized,
    Unsupported(Seq<char>),
    NoChunks(Seq<char>),
    Line,
}

impl View for NavigationError {
    type V = Obstacle;

    open spec fn view(&self) -> Obstacle {
        match self {
            NavigationError::EmptyQuery => Obstacle::EmptyQuery,
            NavigationError::NotIndexed => Obstacle::NotIndexed,
            NavigationError::AllFailed(failures) => Obstacle::AllFailed(failures@),
            NavigationError::EmptyPath => Obstacle::EmptyPath,
            NavigationError::OutsideWorkspace => Obstacle::OutsideWorkspace,
            NavigationError::NotAFile => Obstacle::NotAFile,
            NavigationError::Unrecognized => Obstacle::Unrecognized,
            NavigationError::Unsupported(language) => Obstacle::Unsupported(language@),
            NavigationError::NoChunks(language) => Obstacle::NoChunks(language@),
            NavigationError::Line => Obstacle::Line,
        }
    }
}

impl Obstacle {
    /// The text of the error.
    pub open spec fn text(self) -> Seq<char> {
        match self {
            Obstacle::EmptyQuery => "query must not be empty"@,
            Obstacle::NotIndexed => "workspace is not indexed; call index_workspace first"@,
            Obstacle::AllFailed(failures) => "all applicable language servers failed: "@ + failures,
            Obstacle::EmptyPath => "relative_file_path must not be empty"@,
            Obstacle::OutsideWorkspace => "source file must be inside the workspace"@,
            Obstacle::NotAFile => "source path must be a file"@,
            Obstacle::Unrecognized => {
                "language-server navigation requires a recognized source path"@
            },
            Obstacle::Unsupported(language) => {
                "language-server navigation does not support "@ + language + " source files"@
            },
            Obstacle::NoChunks(language) => "workspace index contains no "@ + language
                + " chunks"@,
            Obstacle::Line => "line must be one-based and positive"@,
        }
    }
}

impl NavigationError {
    /// The text of the error.
    pub fn to_string(&self) -> (r: String)
        ensures
            r@ == self@.text(),
    {
        match self {
            NavigationError::EmptyQuery => "query must not be empty".to_owned(),
            NavigationError::NotIndexed => {
                "workspace is not indexed; call index_workspace first".to_owned()
            },
            NavigationError::AllFailed(failures) => {
                text::concat2("all applicable language servers failed: ", failures.as_str())
            },
            NavigationError::EmptyPath => "relative_file_path must not be empty".to_owned(),
            NavigationError::OutsideWorkspace => {
                "source file must be inside the workspace".to_owned()
            },
            NavigationError::NotAFile => "source path must be a file".to_owned(),
            NavigationError::Unrecognized => {
                "language-server navigation requires a recognized source path".to_owned()
            },
            NavigationError::Unsupported(language) => text::concat3(
                "language-server navigation does not support ",
                language.as_str(),
                " source files",
            ),
            NavigationError::NoChunks(language) => text::concat3(
                "workspace index contains no ",
                language.as_str(),
                " chunks",
            ),
            NavigationError::Line => "line must be one-based and positive".to_owned(),
        }
    }
}

// ---------------------------------------------------------------------------
// Symbols
// ---------------------------------------------------------------------------

/// Refuse a blank query.
pub fn check_query(query: &str) -> (r: Result<(), NavigationError>)
    ensures
        match r {
            Ok(_) => !text::blank(query@),
            Err(error) => text::blank(query@) && error@ == Obstacle::EmptyQuery,
        },
{
    if text::is_blank(query) {
        Err(NavigationError::EmptyQuery)
    } else {
        Ok(())
    }
}

/// The order of optional texts: none in front of all others.
pub open spec fn option_precedes(a: Option<Seq<char>>, b: Option<Seq<char>>) -> bool {
    match (a, b) {
        (None, Some(_)) => true,
        (Some(x), Some(y)) => order::precedes(x, y),
        _ => false,
    }
}

/// The order of symbols: by their file, their line and their language.
pub open spec fn location_precedes(a: LocationView, b: LocationView) -> bool {
    if a.relative_file_path != b.relative_file_path {
        option_precedes(a.relative_file_path, b.relative_file_path)
    } else if a.start_line != b.start_line {
        a.start_line < b.start_line
    } else {
        option_precedes(a.language, b.language)
    }
}

proof fn lemma_option_total(a: Option<Seq<char>>, b: Option<Seq<char>>)
    ensures
        option_precedes(a, b) ==> !option_precedes(b, a),
        a != b ==> option_precedes(a, b) || option_precedes(b, a),
        !option_precedes(a, a),
{
    if let (Some(x), Some(y)) = (a, b) {
        order::lemma_precedes_total(x, y);
    }
    if let Some(x) = a {
        order::lemma_precedes_total(x, x);
    }
}

proof fn lemma_option_weakly(a: Option<Seq<char>>, b: Option<Seq<char>>, c: Option<Seq<char>>)
    requires
        !option_precedes(a, b),
        !option_precedes(b, c),
    ensures
        !option_precedes(a, c),
{
    match (a, b, c) {
        (Some(x), Some(y), Some(z)) => {
            order::lemma_precedes_weakly(x, y, z);
        },
        _ => {},
    }
}

fn option_text_precedes(a: &Option<String>, b: &Option<String>) -> (r: bool)
    ensures
        r == option_precedes(paths::opt_view(*a), paths::opt_view(*b)),
{
    match (a, b) {
        (None, Some(_)) => true,
        (Some(x), Some(y)) => order::text_precedes(x.as_str(), y.as_str()),
        _ => false,
    }
}

fn same_option(a: &Option<String>, b: &Option<String>) -> (r: bool)
    ensures
        r == (paths::opt_view(*a) == paths::opt_view(*b)),
{
    match (a, b) {
        (None, None) => true,
        (Some(x), Some(y)) => text::str_eq(x.as_str(), y.as_str()),
        _ => false,
    }
}

impl Ranked for Location {
    open spec fn below(self, other: Self) -> bool {
        location_precedes(self@, other@)
    }

    proof fn asymmetric(a: Self, b: Self) {
        lemma_option_total(a@.relative_file_path, b@.relative_file_path);
        lemma_option_total(a@.language, b@.language);
    }

    proof fn weakly_ordered(a: Self, b: Self, c: Self) {
        let (x, y, z) = (a@, b@, c@);
        lemma_option_total(x.relative_file_path, y.relative_file_path);
        lemma_option_total(y.relative_file_path, z.relative_file_path);
        lemma_option_total(x.relative_file_path, z.relative_file_path);
        lemma_option_total(x.language, x.language);
        if !option_precedes(x.relative_file_path, y.relative_file_path) && !option_precedes(
            y.relative_file_path,
            z.relative_file_path,
        ) {
            lemma_option_weakly(x.relative_file_path, y.relative_file_path, z.relative_file_path);
        }
        if !option_precedes(z.relative_file_path, y.relative_file_path) && !option_precedes(
            y.relative_file_path,
            x.relative_file_path,
        ) {
            lemma_option_weakly(z.relative_file_path, y.relative_file_path, x.relative_file_path);
        }
        if !option_precedes(x.language, y.language) && !option_precedes(y.language, z.language) {
            lemma_option_weakly(x.language, y.language, z.language);
        }
    }

    fn is_below(&self, other: &Self) -> (r: bool) {
        if !same_option(&self.relative_file_path, &other.relative_file_path) {
            option_text_precedes(&self.relative_file_path, &other.relative_file_path)
        } else if self.start_line != other.start_line {
            self.start_line < other.start_line
        } else {
            option_text_precedes(&self.language, &other.language)
        }
    }
}

/// The order of symbols.
pub open spec fn symbol_order() -> spec_fn(LocationView, LocationView) -> bool {
    |a: LocationView, b: LocationView| location_precedes(a, b)
}

/// A list without the items that repeat the one in front of them.
pub open spec fn without_repeats(list: Seq<LocationView>) -> Seq<LocationView>
    decreases list.len(),
{
    if list.len() < 2 {
        list
    } else if list[list.len() - 2] == list.last() {
        without_repeats(list.drop_last())
    } else {
        without_repeats(list.drop_last()).push(list.last())
    }
}

/// What one language server answered.
#[derive(Debug)]
pub struct ServerAnswer {
    pub provider: String,
    pub outcome: Result<Vec<Location>, String>,
}

/// The locations that the servers found, in order.
pub open spec fn all_found(answers: Seq<ServerAnswer>) -> Seq<LocationView>
    decreases answers.len(),
{
    if answers.len() == 0 {
        seq![]
    } else {
        let before = all_found(answers.drop_last());
        match answers.last().outcome {
            Ok(found) => before + lsp::location_views(found@),
            Err(_) => before,
        }
    }
}

/// The failures of the servers, each behind the name of its server.
pub open spec fn failures(answers: Seq<ServerAnswer>) -> Seq<Seq<char>>
    decreases answers.len(),
{
    if answers.len() == 0 {
        seq![]
    } else {
        let before = failures(answers.drop_last());
        match answers.last().outcome {
            Ok(_) => before,
            Err(error) => before.push(answers.last().provider@ + ": "@ + error@),
        }
    }
}

/// The symbols that the servers found: sorted, each once. The request fails only where
/// nothing was found and a server failed.
pub open spec fn symbols_found(answers: Seq<ServerAnswer>) -> Result<Seq<LocationView>, Obstacle> {
    let found = without_repeats(order::sorted_by(all_found(answers), symbol_order()));
    if found.len() == 0 && failures(answers).len() > 0 {
        Err(Obstacle::AllFailed(text::joined(failures(answers), "; "@)))
    } else {
        Ok(found)
    }
}

fn same_location(a: &Location, b: &Location) -> (r: bool)
    ensures
        r == (a@ == b@),
{
    text::str_eq(a.file_path.as_str(), b.file_path.as_str()) && same_option(
        &a.relative_file_path,
        &b.relative_file_path,
    ) && a.start_line == b.start_line && a.start_character == b.start_character && a.end_line
        == b.end_line && a.end_character == b.end_character && same_option(&a.name, &b.name)
        && same_number(a.kind, b.kind) && same_option(&a.language, &b.language) && same_option(
        &a.provider,
        &b.provider,
    )
}

fn same_number(a: Option<u64>, b: Option<u64>) -> (r: bool)
    ensures
        r == (a == b),
{
    match (a, b) {
        (None, None) => true,
        (Some(x), Some(y)) => x == y,
        _ => false,
    }
}

/// Drop the items that repeat the one in front of them.
fn drop_repeats(list: Vec<Location>) -> (r: Vec<Location>)
    ensures
        lsp::location_views(r@) == without_repeats(lsp::location_views(list@)),
{
    let ghost all = lsp::location_views(list@);
    let mut out: Vec<Location> = Vec::new();
    let n: usize = list.len();
    let mut i: usize = 0;
    assert(lsp::location_views(out@) =~= without_repeats(all.take(0)));
    for location in items: list
        invariant
            items.seq() == list@,
            list@.len() == n,
            all == lsp::location_views(list@),
            i == items.index(),
            lsp::location_views(out@) == without_repeats(all.take(i as int)),
            i > 0 ==> out@.len() > 0 && out@.last()@ == all[i - 1],
    {
        let ghost next = all.take(i + 1);
        let ghost before = out@;
        proof {
            assert(next.drop_last() =~= all.take(i as int));
            assert(next.last() == location@);
            if i > 0 {
                assert(next[next.len() - 2] == all[i - 1]);
            }
        }
        let repeats = out.len() > 0 && same_location(&out[out.len() - 1], &location);
        if !repeats {
            out.push(location);
            assert(lsp::location_views(out@) =~= lsp::location_views(before).push(location@));
        }
        proof {
            if i == 0 {
                assert(before.len() == 0) by {
                    assert(lsp::location_views(before).len() == 0);
                }
                assert(lsp::location_views(out@) =~= next);
            }
        }
        i = i + 1;
    }
    assert(all.take(i as int) =~= all);
    out
}

/// Put the answers of the servers together.
pub fn collect_symbols(answers: Vec<ServerAnswer>) -> (r: Result<Vec<Location>, NavigationError>)
    ensures
        match r {
            Ok(found) => symbols_found(answers@) == Ok::<_, Obstacle>(lsp::location_views(found@)),
            Err(error) => symbols_found(answers@) == Err::<Seq<LocationView>, _>(error@),
        },
{
    let mut found: Vec<Location> = Vec::new();
    let mut failed: Vec<String> = Vec::new();
    let n: usize = answers.len();
    let mut i: usize = 0;
    proof {
        assert(lsp::location_views(found@) =~= all_found(answers@.take(0)));
        assert(text::views(failed@) =~= failures(answers@.take(0)));
    }
    for answer in items: answers
        invariant
            items.seq() == answers@,
            answers@.len() == n,
            i == items.index(),
            lsp::location_views(found@) == all_found(answers@.take(i as int)),
            text::views(failed@) == failures(answers@.take(i as int)),
    {
        let ghost next = answers@.take(i + 1);
        let ghost found_before = found@;
        let ghost failed_before = failed@;
        proof {
            assert(next.drop_last() =~= answers@.take(i as int));
            assert(next.last() == answer);
        }
        match answer.outcome {
            Ok(list) => {
                let mut list = list;
                let ghost added = list@;
                found.append(&mut list);
                assert(lsp::location_views(found@) =~= lsp::location_views(found_before)
                    + lsp::location_views(added));
            },
            Err(error) => {
                let failure = text::concat3(answer.provider.as_str(), ": ", error.as_str());
                failed.push(failure);
                assert(text::views(failed@) =~= text::views(failed_before).push(failure@));
            },
        }
        i = i + 1;
    }
    assert(answers@.take(i as int) =~= answers@);
    let ghost unsorted = found@;
    let sorted = order::sort(found);
    proof {
        order::lemma_sorted_maps(
            unsorted,
            |location: Location| location@,
            order::rank::<Location>(),
            symbol_order(),
        );
        assert(lsp::location_views(sorted@) == order::sorted_by(
            lsp::location_views(unsorted),
            symbol_order(),
        ));
    }
    let results = drop_repeats(sorted);
    assert(lsp::location_views(results@).len() == results@.len());
    assert(text::views(failed@).len() == failed@.len());
    if results.len() == 0 && failed.len() > 0 {
        return Err(NavigationError::AllFailed(text::join(&failed, "; ")));
    }
    Ok(results)
}

/// A server that fails costs only its own symbols: as long as another one finds something,
/// the request succeeds.
pub proof fn law_one_answer_is_enough(answers: Seq<ServerAnswer>)
    requires
        all_found(answers).len() > 0,
    ensures
        symbols_found(answers) is Ok,
{
    let before = symbol_order();
    let list = all_found(answers);
    let sorted = order::sorted_by(list, before);
    lemma_symbol_order();
    order::law_sorting_orders_the_items(list, before);
    assert(sorted.len() == list.len()) by {
        assert(sorted.to_multiset().len() == list.to_multiset().len());
        sorted.to_multiset_ensures();
        list.to_multiset_ensures();
    }
    lemma_without_repeats_is_some(sorted);
}

pub proof fn lemma_symbol_order()
    ensures
        order::is_order(symbol_order()),
{
    let before = symbol_order();
    assert forall|a: LocationView, b: LocationView| #[trigger] before(a, b) implies !before(
        b,
        a,
    ) by {
        lemma_option_total(a.relative_file_path, b.relative_file_path);
        lemma_option_total(a.language, b.language);
    }
    assert forall|a: LocationView, b: LocationView, c: LocationView|
        !(#[trigger] before(a, b)) && !(#[trigger] before(b, c)) implies !before(a, c) by {
        lemma_option_total(a.relative_file_path, b.relative_file_path);
        lemma_option_total(b.relative_file_path, c.relative_file_path);
        lemma_option_total(a.relative_file_path, c.relative_file_path);
        lemma_option_total(a.language, a.language);
        if !option_precedes(a.relative_file_path, b.relative_file_path) && !option_precedes(
            b.relative_file_path,
            c.relative_file_path,
        ) {
            lemma_option_weakly(a.relative_file_path, b.relative_file_path, c.relative_file_path);
        }
        if !option_precedes(c.relative_file_path, b.relative_file_path) && !option_precedes(
            b.relative_file_path,
            a.relative_file_path,
        ) {
            lemma_option_weakly(c.relative_file_path, b.relative_file_path, a.relative_file_path);
        }
        if !option_precedes(a.language, b.language) && !option_precedes(b.language, c.language) {
            lemma_option_weakly(a.language, b.language, c.language);
        }
    }
}

proof fn lemma_without_repeats_is_some(list: Seq<LocationView>)
    requires
        list.len() > 0,
    ensures
        without_repeats(list).len() > 0,
    decreases list.len(),
{
    if list.len() >= 2 {
        lemma_without_repeats_is_some(list.drop_last());
    }
}

// ---------------------------------------------------------------------------
// Definitions and references
// ---------------------------------------------------------------------------

/// The zero-based line of a one-based one.
pub fn zero_based_line(line: u32) -> (r: Result<u32, NavigationError>)
    ensures
        match r {
            Ok(zero_based) => line > 0 && zero_based == line - 1,
            Err(error) => line == 0 && error@ == Obstacle::Line,
        },
{
    if line == 0 {
        Err(NavigationError::Line)
    } else {
        Ok(line - 1)
    }
}

/// The path of a source file in a workspace, before links in it are followed.
pub fn source_path(workspace: &Workspace, relative_file_path: &str) -> (r: Result<
    String,
    NavigationError,
>)
    ensures
        match r {
            Ok(path) => !text::blank(relative_file_path@) && path@ == paths::below(
                workspace.path@,
                relative_file_path@,
            ),
            Err(error) => text::blank(relative_file_path@) && error@ == Obstacle::EmptyPath,
        },
{
    if text::is_blank(relative_file_path) {
        return Err(NavigationError::EmptyPath);
    }
    Ok(paths::join_path(workspace.path.as_str(), relative_file_path))
}

/// Refuse a canonical path that is outside the workspace, or is no file.
pub fn check_source_file(workspace: &Workspace, file: &str, is_file: bool) -> (r: Result<
    (),
    NavigationError,
>)
    ensures
        match r {
            Ok(_) => paths::is_within(file@, workspace.path@) && is_file,
            Err(error) => if paths::is_within(file@, workspace.path@) {
                !is_file && error@ == Obstacle::NotAFile
            } else {
                error@ == Obstacle::OutsideWorkspace
            },
        },
{
    if !paths::lies_within(file, workspace.path.as_str()) {
        return Err(NavigationError::OutsideWorkspace);
    }
    if !is_file {
        return Err(NavigationError::NotAFile);
    }
    Ok(())
}

/// The language of a source file, and the place of the server that navigates it.
pub open spec fn target(file: Seq<char>, list: Seq<AdapterInfo>) -> Result<
    (Seq<char>, usize),
    Obstacle,
> {
    match language::language_of_path(file) {
        None => Err(Obstacle::Unrecognized),
        Some(known) => {
            let found = adapter::navigators(list, known.identifier(), list.len());
            if found.len() == 0 {
                Err(Obstacle::Unsupported(known.identifier()))
            } else {
                Ok((known.identifier(), found[0]))
            }
        },
    }
}

/// Find the language of a source file, and the first server that navigates it.
pub fn navigation_target(file: &str, list: &[AdapterInfo]) -> (r: Result<
    (&'static str, usize),
    NavigationError,
>)
    ensures
        match r {
            Ok((identifier, at)) => target(file@, list@) == Ok::<_, Obstacle>((identifier@, at)),
            Err(error) => target(file@, list@) == Err::<(Seq<char>, usize), _>(error@),
        },
{
    let identifier = match language::for_path(file) {
        Some(adapter) => adapter.identifier(),
        None => {
            return Err(NavigationError::Unrecognized);
        },
    };
    let found = adapter::adapters_for_language(list, identifier);
    if found.len() == 0 {
        return Err(NavigationError::Unsupported(identifier.to_owned()));
    }
    Ok((identifier, found[0]))
}

/// Refuse a language that the index holds nothing in. `None` stands for a workspace without
/// an index.
pub fn ensure_indexed_language(languages: Option<&[String]>, language: &str) -> (r: Result<
    (),
    NavigationError,
>)
    ensures
        match (r, languages) {
            (Ok(_), languages) => languages is Some && text::views(languages->0@).contains(
                language@,
            ),
            (Err(error), None) => error@ == Obstacle::NotIndexed,
            (Err(error), Some(languages)) => !text::views(languages@).contains(language@)
                && error@ == Obstacle::NoChunks(language@),
        },
{
    match languages {
        None => Err(NavigationError::NotIndexed),
        Some(languages) => if text::has_text(languages, language) {
            Ok(())
        } else {
            Err(NavigationError::NoChunks(language.to_owned()))
        },
    }
}

// ---------------------------------------------------------------------------
// What symbol searches find
// ---------------------------------------------------------------------------

/// A server answered with a location.
pub open spec fn is_answered(answers: Seq<ServerAnswer>, location: LocationView) -> bool {
    exists|i: int|
        {
            &&& 0 <= i < answers.len()
            &&& (#[trigger] answers[i]).outcome is Ok
            &&& lsp::location_views(answers[i].outcome->Ok_0@).contains(location)
        }
}

/// A server failed.
pub open spec fn some_failed(answers: Seq<ServerAnswer>) -> bool {
    exists|i: int| 0 <= i < answers.len() && (#[trigger] answers[i]).outcome is Err
}

proof fn lemma_all_found(answers: Seq<ServerAnswer>, location: LocationView)
    ensures
        all_found(answers).contains(location) <==> is_answered(answers, location),
        failures(answers).len() > 0 <==> some_failed(answers),
    decreases answers.len(),
{
    if answers.len() > 0 {
        let rest = answers.drop_last();
        lemma_all_found(rest, location);
        let n = answers.len() - 1;
        let (before, all) = (all_found(rest), all_found(answers));
        assert(forall|i: int| 0 <= i < n ==> rest[i] == #[trigger] answers[i]);
        if is_answered(rest, location) {
            let i = choose|i: int|
                {
                    &&& 0 <= i < rest.len()
                    &&& (#[trigger] rest[i]).outcome is Ok
                    &&& lsp::location_views(rest[i].outcome->Ok_0@).contains(location)
                };
            assert(answers[i].outcome is Ok);
            let k = choose|k: int| 0 <= k < before.len() && before[k] == location;
            assert(all[k] == location);
        }
        if answers[n].outcome is Ok {
            let more = lsp::location_views(answers[n].outcome->Ok_0@);
            if more.contains(location) {
                let k = choose|k: int| 0 <= k < more.len() && more[k] == location;
                assert(all[before.len() + k] == location);
            }
            if all.contains(location) {
                let k = choose|k: int| 0 <= k < all.len() && all[k] == location;
                if k < before.len() {
                    assert(before[k] == location);
                } else {
                    assert(more[k - before.len()] == location);
                }
            }
        }
        if some_failed(rest) {
            let i = choose|i: int| 0 <= i < rest.len() && (#[trigger] rest[i]).outcome is Err;
            assert(answers[i].outcome is Err);
        }
        if some_failed(answers) && answers[n].outcome is Ok {
            let i = choose|i: int| 0 <= i < answers.len() && (#[trigger] answers[i]).outcome is Err;
            assert(rest[i].outcome is Err);
        }
    }
}

proof fn lemma_repeats_keep(list: Seq<LocationView>, x: LocationView)
    ensures
        without_repeats(list).contains(x) <==> list.contains(x),
        list.len() > 0 ==> without_repeats(list).len() > 0 && without_repeats(list).last()
            == list.last(),
        forall|i: int|
            0 < i < without_repeats(list).len() ==> without_repeats(list)[i - 1]
                != #[trigger] without_repeats(list)[i],
    decreases list.len(),
{
    let out = without_repeats(list);
    if list.len() >= 2 {
        let rest = list.drop_last();
        let n = list.len() - 1;
        lemma_repeats_keep(rest, x);
        let before = without_repeats(rest);
        if list[n - 1] == list.last() {
            if list.contains(x) {
                let k = choose|k: int| 0 <= k < list.len() && list[k] == x;
                if k == n {
                    assert(rest[n - 1] == x);
                } else {
                    assert(rest[k] == x);
                }
            }
            if rest.contains(x) {
                let k = choose|k: int| 0 <= k < rest.len() && rest[k] == x;
                assert(list[k] == x);
            }
        } else {
            assert(before.last() == list[n - 1]);
            if out.contains(x) {
                let k = choose|k: int| 0 <= k < out.len() && out[k] == x;
                if k < before.len() {
                    assert(before[k] == x);
                    let m = choose|m: int| 0 <= m < rest.len() && rest[m] == x;
                    assert(list[m] == x);
                } else {
                    assert(list[n] == x);
                }
            }
            if list.contains(x) {
                let k = choose|k: int| 0 <= k < list.len() && list[k] == x;
                if k < n {
                    assert(rest[k] == x);
                    let m = choose|m: int| 0 <= m < before.len() && before[m] == x;
                    assert(out[m] == x);
                } else {
                    assert(out[out.len() - 1] == x);
                }
            }
        }
    }
}

proof fn lemma_repeats_order(list: Seq<LocationView>)
    requires
        order::in_order(list, symbol_order()),
    ensures
        order::in_order(without_repeats(list), symbol_order()),
    decreases list.len(),
{
    if list.len() >= 2 {
        let rest = list.drop_last();
        let n = list.len() - 1;
        assert forall|i: int, j: int| 0 <= i < j < rest.len() implies !symbol_order()(
            #[trigger] rest[j],
            #[trigger] rest[i],
        ) by {
            assert(!symbol_order()(list[j], list[i]));
        }
        lemma_repeats_order(rest);
        let (before, out) = (without_repeats(rest), without_repeats(list));
        if list[n - 1] != list.last() {
            assert forall|i: int, j: int| 0 <= i < j < out.len() implies !symbol_order()(
                #[trigger] out[j],
                #[trigger] out[i],
            ) by {
                if j < before.len() {
                    assert(!symbol_order()(before[j], before[i]));
                } else {
                    assert(before.contains(before[i]));
                    lemma_repeats_keep(rest, before[i]);
                    let k = choose|k: int| 0 <= k < rest.len() && rest[k] == before[i];
                    assert(!symbol_order()(list[n], list[k]));
                }
            }
        }
    }
}

/// A symbol search finds what its servers answered and nothing else. It fails if and only if
/// no server answered with anything and one of them failed.
pub proof fn law_symbols_are_what_the_servers_answered(
    answers: Seq<ServerAnswer>,
    location: LocationView,
)
    ensures
        match symbols_found(answers) {
            Ok(list) => list.contains(location) <==> is_answered(answers, location),
            Err(_) => some_failed(answers) && !is_answered(answers, location),
        },
        symbols_found(answers) is Ok <==> !some_failed(answers) || exists|found: LocationView|
            is_answered(answers, found),
{
    let list = all_found(answers);
    let sorted = order::sorted_by(list, symbol_order());
    let out = without_repeats(sorted);
    lemma_symbol_order();
    lemma_all_found(answers, location);
    order::lemma_sorted_contains(list, symbol_order(), location);
    lemma_repeats_keep(sorted, location);
    order::law_sorting_orders_the_items(list, symbol_order());
    if list.len() > 0 {
        lemma_all_found(answers, list[0]);
        assert(list.contains(list[0]));
        lemma_repeats_keep(sorted, list[0]);
    }
    if exists|found: LocationView| is_answered(answers, found) {
        let found = choose|found: LocationView| is_answered(answers, found);
        lemma_all_found(answers, found);
    }
    if out.len() == 0 && list.contains(location) {
        assert(list.len() > 0);
    }
    if out.len() == 0 {
        assert(!out.contains(location));
    }
}

/// Symbols stand by file, then by line, then by language, and none repeats the one in front
/// of it.
pub proof fn law_symbols_stand_by_place(answers: Seq<ServerAnswer>, i: int, j: int)
    requires
        symbols_found(answers) is Ok,
        0 <= i < j < symbols_found(answers)->Ok_0.len(),
    ensures
        ({
            let list = symbols_found(answers)->Ok_0;
            let (a, b) = (list[i], list[j]);
            &&& !option_precedes(b.relative_file_path, a.relative_file_path)
            &&& a.relative_file_path == b.relative_file_path ==> a.start_line <= b.start_line
            &&& a.relative_file_path == b.relative_file_path && a.start_line == b.start_line
                ==> !option_precedes(b.language, a.language)
            &&& list[j - 1] != list[j]
        }),
{
    let sorted = order::sorted_by(all_found(answers), symbol_order());
    lemma_symbol_order();
    order::law_sorting_orders_the_items(all_found(answers), symbol_order());
    lemma_repeats_order(sorted);
    let list = without_repeats(sorted);
    lemma_repeats_keep(sorted, list[j]);
    assert(!symbol_order()(list[j], list[i]));
    lemma_option_total(list[i].relative_file_path, list[i].relative_file_path);
    assert(list[j - 1] != list[j]);
}

} // verus!

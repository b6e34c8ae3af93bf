//! Glob patterns and filter requests.

use super::source_role::{self, SourceRole};
use crate::{language, order, paths, text};
use globset::{Error, GlobBuilder, GlobSet};
use vstd::prelude::*;

verus! {

// ---------------------------------------------------------------------------
// Globs
// ---------------------------------------------------------------------------

/// A compiled glob.
#[verifier::external_type_specification]
#[verifier::external_body]
pub struct ExGlobSet(globset::GlobSet);

/// Why a glob does not compile.
#[verifier::external_type_specification]
#[verifier::external_body]
pub struct ExGlobError(globset::Error);

/// The paths that a compiled glob matches.
pub uninterp spec fn held_paths(set: globset::GlobSet) -> Set<Seq<char>>;

/// The paths that a glob matches, or `None` where it does not compile.
pub uninterp spec fn glob_paths(pattern: Seq<char>) -> Option<Set<Seq<char>>>;

/// Where in a glob a scan stands.
#[derive(Debug, Clone, Copy, PartialEq, Eq, Structural)]
pub enum GlobPlace {
    /// Outside of every character class.
    Outside,
    /// Behind the bracket that opens a class.
    Opened,
    /// Behind the bracket and the sign that negates the class.
    Negated,
    /// Behind the first character of a class.
    Inside,
}

/// A scan of the brace groups of a glob.
pub struct GroupScan {
    pub place: GlobPlace,
    /// How many groups are open.
    pub open: nat,
    /// How many groups were open at most.
    pub most: nat,
}

/// A scan behind one more character. A brace in a character class opens and closes nothing,
/// and the first character of a class does not end it.
pub open spec fn group_step(scan: GroupScan, c: char) -> GroupScan {
    match scan.place {
        GlobPlace::Outside => if c == '[' {
            GroupScan { place: GlobPlace::Opened, ..scan }
        } else if c == '{' {
            GroupScan {
                open: scan.open + 1,
                most: if scan.open + 1 > scan.most {
                    scan.open + 1
                } else {
                    scan.most
                },
                ..scan
            }
        } else if c == '}' && scan.open > 0 {
            GroupScan { open: (scan.open - 1) as nat, ..scan }
        } else {
            scan
        },
        GlobPlace::Opened => if c == '!' || c == '^' {
            GroupScan { place: GlobPlace::Negated, ..scan }
        } else {
            GroupScan { place: GlobPlace::Inside, ..scan }
        },
        GlobPlace::Negated => GroupScan { place: GlobPlace::Inside, ..scan },
        GlobPlace::Inside => if c == ']' {
            GroupScan { place: GlobPlace::Outside, ..scan }
        } else {
            scan
        },
    }
}

/// The scan of a glob.
pub open spec fn group_scan(pattern: Seq<char>) -> GroupScan
    decreases pattern.len(),
{
    if pattern.len() == 0 {
        GroupScan { place: GlobPlace::Outside, open: 0, most: 0 }
    } else {
        group_step(group_scan(pattern.drop_last()), pattern.last())
    }
}

/// How deeply the brace groups of a glob that is compiled are nested at most. A regex has
/// no more than 250 levels, so a deeper glob does not compile.
pub const MAX_NESTING: usize = 500;

/// The brace groups of a glob are nested too deeply for it to be compiled.
pub open spec fn is_deep(pattern: Seq<char>) -> bool {
    group_scan(pattern).most > MAX_NESTING
}

proof fn lemma_most_grows(pattern: Seq<char>, n: int)
    requires
        0 <= n <= pattern.len(),
    ensures
        group_scan(pattern.take(n)).most <= group_scan(pattern).most,
    decreases pattern.len() - n,
{
    if n < pattern.len() {
        lemma_most_grows(pattern, n + 1);
        assert(pattern.take(n + 1).drop_last() =~= pattern.take(n));
    } else {
        assert(pattern.take(n) =~= pattern);
    }
}

fn deep(pattern: &str) -> (r: bool)
    ensures
        r == is_deep(pattern@),
{
    let chars = text::chars_of(pattern);
    let mut place = GlobPlace::Outside;
    let mut open: usize = 0;
    let mut i: usize = 0;
    assert(pattern@.take(0) =~= seq![]);
    while i < chars.len()
        invariant
            i <= chars@.len(),
            chars@ == pattern@,
            open <= MAX_NESTING,
            group_scan(pattern@.take(i as int)).place == place,
            group_scan(pattern@.take(i as int)).open == open,
            group_scan(pattern@.take(i as int)).most <= MAX_NESTING,
        decreases chars@.len() - i,
    {
        let c = chars[i];
        proof {
            let next = pattern@.take(i + 1);
            assert(next.drop_last() =~= pattern@.take(i as int));
            assert(next.last() == c);
            lemma_most_grows(pattern@, i + 1);
        }
        match place {
            GlobPlace::Outside => {
                if c == '[' {
                    place = GlobPlace::Opened;
                } else if c == '{' {
                    if open == MAX_NESTING {
                        return true;
                    }
                    open = open + 1;
                } else if c == '}' && open > 0 {
                    open = open - 1;
                }
            },
            GlobPlace::Opened => {
                if c == '!' || c == '^' {
                    place = GlobPlace::Negated;
                } else {
                    place = GlobPlace::Inside;
                }
            },
            GlobPlace::Negated => {
                place = GlobPlace::Inside;
            },
            GlobPlace::Inside => {
                if c == ']' {
                    place = GlobPlace::Outside;
                }
            },
        }
        i = i + 1;
    }
    assert(pattern@.take(pattern@.len() as int) =~= pattern@);
    false
}

/// `**/`, once or more.
pub open spec fn is_recursive(pattern: Seq<char>) -> bool {
    &&& pattern.len() % 3 == 0
    &&& forall|i: int|
        0 <= i < pattern.len() ==> #[trigger] pattern[i] == (if i % 3 == 2 {
            '/'
        } else {
            '*'
        })
}

fn recursive(pattern: &str) -> (r: bool)
    ensures
        r == is_recursive(pattern@),
{
    let chars = text::chars_of(pattern);
    if chars.len() % 3 != 0 {
        return false;
    }
    let mut i: usize = 0;
    while i < chars.len()
        invariant
            i <= chars@.len(),
            chars@ == pattern@,
            forall|k: int|
                0 <= k < i ==> #[trigger] pattern@[k] == (if k % 3 == 2 {
                    '/'
                } else {
                    '*'
                }),
        decreases chars@.len() - i,
    {
        let wanted = if i % 3 == 2 {
            '/'
        } else {
            '*'
        };
        if chars[i] != wanted {
            assert(pattern@[i as int] != wanted);
            return false;
        }
        i = i + 1;
    }
    true
}

/// The empty group that a glob is compiled with in front of it: where it ends with a star,
/// and starts with none.
pub open spec fn front_guard(pattern: Seq<char>) -> Seq<char> {
    if pattern.len() > 0 && pattern.last() == '*' && pattern[0] != '*' {
        "{}"@
    } else {
        ""@
    }
}

/// The empty group that a glob is compiled with behind it: where it ends with no star,
/// unless it is `**/` alone, which has a meaning of its own.
pub open spec fn back_guard(pattern: Seq<char>) -> Seq<char> {
    if pattern.len() > 0 && pattern.last() != '*' && !is_recursive(pattern) {
        "{}"@
    } else {
        ""@
    }
}

/// Calls `globset::GlobBuilder::build` with `literal_separator(true)` and
/// `case_insensitive(false)`, and `globset::GlobSet::new` on the one glob, which returns an
/// error where the glob's regex outgrows its limits.
///
/// What a glob matches is named, not stated: `*` and `?` do not cross `/`, `**` does. It is
/// what the glob's regex matches. An empty group in front of a glob or behind it adds
/// nothing to the regex, and keeps the set from its shortcuts for literals and extensions:
/// these skip a path that ends in `..`, and do not report that a glob is too large. So a
/// glob is compiled with such a group where a shortcut could be taken. A backslash escapes
/// or separates, depending on the platform, so patterns with one are left out, and so are
/// those whose groups are nested so deeply that going through them could exhaust the stack.
#[verifier::external_body]
fn compile_glob(front: &str, pattern: &str, back: &str) -> (r: Result<GlobSet, Error>)
    requires
        !pattern@.contains('\\'),
        !is_deep(pattern@),
        front@ == front_guard(pattern@),
        back@ == back_guard(pattern@),
    ensures
        match r {
            Ok(set) => glob_paths(pattern@) == Some(held_paths(set)),
            Err(_) => glob_paths(pattern@) is None,
        },
{
    let text = format!("{front}{pattern}{back}");
    GlobSet::new([GlobBuilder::new(&text).literal_separator(true).case_insensitive(false).build()?])
}

/// Calls `globset::GlobSet::is_match`. A backslash in a path separates on some platforms, so
/// such paths are left out.
#[verifier::external_body]
fn glob_matches(set: &GlobSet, path: &str) -> (r: bool)
    requires
        !path@.contains('\\'),
    ensures
        r == held_paths(*set).contains(path@),
{
    set.is_match(path)
}

/// A compiled glob pattern over normalized repository-relative paths.
///
/// - `*` matches any sequence of characters that does not cross `/`.
/// - `**` matches any sequence of characters, also across directories.
/// - `?` matches exactly one character that is not `/`.
/// - Matching is case-sensitive.
#[derive(Debug)]
pub struct GlobPattern {
    raw: String,
    matcher: GlobSet,
}

/// What a [`GlobPattern`] says.
pub struct PatternView {
    pub raw: Seq<char>,
    pub paths: Set<Seq<char>>,
}

impl View for GlobPattern {
    type V = PatternView;

    closed spec fn view(&self) -> PatternView {
        PatternView { raw: self.raw@, paths: held_paths(self.matcher) }
    }
}

/// A pattern matches a path: by its normalized form.
pub open spec fn pattern_matches(pattern: PatternView, path: Seq<char>) -> bool {
    pattern.paths.contains(paths::normalized(path))
}

/// An ASCII letter.
pub open spec fn is_letter(c: char) -> bool {
    'a' <= c <= 'z' || 'A' <= c <= 'Z'
}

/// A Unix, Windows or UNC path from a root.
pub open spec fn is_absolute(pattern: Seq<char>) -> bool {
    ||| pattern.len() > 0 && pattern[0] == '/'
    ||| pattern.len() >= 3 && is_letter(pattern[0]) && pattern[1] == ':'
}

/// Why a [`FilterRequest`] cannot be used.
pub enum Refusal {
    EmptyLanguages,
    EmptySourceRoles,
    UnknownLanguage { value: Seq<char> },
    UnknownSourceRole { value: Seq<char> },
    EmptyPattern,
    BackslashInPattern { pattern: Seq<char> },
    AbsolutePath { pattern: Seq<char> },
    Traversal { pattern: Seq<char> },
    CurrentDirectory { pattern: Seq<char> },
    MalformedPattern { pattern: Seq<char> },
}

/// Error returned when a [`FilterRequest`] cannot be validated.
#[derive(Debug, PartialEq, Eq)]
pub enum FilterError {
    /// An explicitly supplied language list is empty.
    EmptyLanguages,
    /// An explicitly supplied source-role list is empty.
    EmptySourceRoles,
    /// A language identifier is not registered.
    UnknownLanguage { value: String },
    /// A source-role name is not registered.
    UnknownSourceRole { value: String },
    /// A path pattern is empty.
    EmptyPattern,
    /// A path pattern contains a backslash.
    BackslashInPattern { pattern: String },
    /// A path pattern is an absolute Unix, Windows, or UNC path.
    AbsolutePath { pattern: String },
    /// A path pattern contains a `..` component.
    Traversal { pattern: String },
    /// A path pattern contains a `.` component where none is allowed.
    CurrentDirectory { pattern: String },
    /// A path pattern could not be compiled as a glob.
    MalformedPattern { pattern: String },
}

impl Clone for FilterError {
    fn clone(&self) -> (r: Self)
        ensures
            r@ == self@,
    {
        match self {
            FilterError::EmptyLanguages => FilterError::EmptyLanguages,
            FilterError::EmptySourceRoles => FilterError::EmptySourceRoles,
            FilterError::UnknownLanguage { value } => FilterError::UnknownLanguage {
                value: value.clone(),
            },
            FilterError::UnknownSourceRole { value } => FilterError::UnknownSourceRole {
                value: value.clone(),
            },
            FilterError::EmptyPattern => FilterError::EmptyPattern,
            FilterError::BackslashInPattern { pattern } => FilterError::BackslashInPattern {
                pattern: pattern.clone(),
            },
            FilterError::AbsolutePath { pattern } => FilterError::AbsolutePath {
                pattern: pattern.clone(),
            },
            FilterError::Traversal { pattern } => FilterError::Traversal {
                pattern: pattern.clone(),
            },
            FilterError::CurrentDirectory { pattern } => FilterError::CurrentDirectory {
                pattern: pattern.clone(),
            },
            FilterError::MalformedPattern { pattern } => FilterError::MalformedPattern {
                pattern: pattern.clone(),
            },
        }
    }
}

impl View for FilterError {
    type V = Refusal;

    open spec fn view(&self) -> Refusal {
        match self {
            FilterError::EmptyLanguages => Refusal::EmptyLanguages,
            FilterError::EmptySourceRoles => Refusal::EmptySourceRoles,
            FilterError::UnknownLanguage { value } => Refusal::UnknownLanguage { value: value@ },
            FilterError::UnknownSourceRole { value } => Refusal::UnknownSourceRole {
                value: value@,
            },
            FilterError::EmptyPattern => Refusal::EmptyPattern,
            FilterError::BackslashInPattern { pattern } => Refusal::BackslashInPattern {
                pattern: pattern@,
            },
            FilterError::AbsolutePath { pattern } => Refusal::AbsolutePath { pattern: pattern@ },
            FilterError::Traversal { pattern } => Refusal::Traversal { pattern: pattern@ },
            FilterError::CurrentDirectory { pattern } => Refusal::CurrentDirectory {
                pattern: pattern@,
            },
            FilterError::MalformedPattern { pattern } => Refusal::MalformedPattern {
                pattern: pattern@,
            },
        }
    }
}

/// The registered identifiers, in order.
pub open spec fn identifier_list() -> Seq<Seq<char>> {
    Seq::new(language::registered().len(), |i: int| language::registered()[i].identifier())
}

impl Refusal {
    /// The text of the error.
    pub open spec fn text(self) -> Seq<char> {
        match self {
            Refusal::EmptyLanguages => "language filter must not be an empty list"@,
            Refusal::EmptySourceRoles => "source-role filter must not be an empty list"@,
            Refusal::UnknownLanguage { value } => "unknown language '"@ + value
                + "'; registered identifiers: "@ + text::joined(identifier_list(), ", "@),
            Refusal::UnknownSourceRole { value } => source_role::unknown_role_text(value),
            Refusal::EmptyPattern => "path pattern must not be empty"@,
            Refusal::BackslashInPattern { pattern } => "path pattern '"@ + pattern
                + "' must not contain backslashes"@,
            Refusal::AbsolutePath { pattern } => "path pattern '"@ + pattern
                + "' must be a repository-relative path, not an absolute path"@,
            Refusal::Traversal { pattern } => "path pattern '"@ + pattern
                + "' must not contain '..' components"@,
            Refusal::CurrentDirectory { pattern } => "path pattern '"@ + pattern
                + "' must not contain '.' components"@,
            Refusal::MalformedPattern { pattern } => "path pattern '"@ + pattern
                + "' is not a valid glob"@,
        }
    }
}

fn identifier_texts() -> (r: Vec<String>)
    ensures
        text::views(r@) == identifier_list(),
{
    let all = language::identifiers();
    let mut out: Vec<String> = Vec::new();
    let mut i: usize = 0;
    while i < all.len()
        invariant
            i <= all@.len(),
            out@.len() == i,
            forall|k: int| 0 <= k < i ==> (#[trigger] out@[k])@ == all@[k]@,
        decreases all@.len() - i,
    {
        out.push(all[i].to_owned());
        i = i + 1;
    }
    assert(text::views(out@) =~= identifier_list());
    out
}

impl FilterError {
    /// The text of the error.
    pub fn to_string(&self) -> (r: String)
        ensures
            r@ == self@.text(),
    {
        match self {
            FilterError::EmptyLanguages => "language filter must not be an empty list".to_owned(),
            FilterError::EmptySourceRoles => {
                "source-role filter must not be an empty list".to_owned()
            },
            FilterError::UnknownLanguage { value } => {
                let head = text::concat3(
                    "unknown language '",
                    value.as_str(),
                    "'; registered identifiers: ",
                );
                text::concat2(head.as_str(), text::join(&identifier_texts(), ", ").as_str())
            },
            FilterError::UnknownSourceRole { value } => {
                source_role::unknown_role_message(value.as_str())
            },
            FilterError::EmptyPattern => "path pattern must not be empty".to_owned(),
            FilterError::BackslashInPattern { pattern } => text::concat3(
                "path pattern '",
                pattern.as_str(),
                "' must not contain backslashes",
            ),
            FilterError::AbsolutePath { pattern } => text::concat3(
                "path pattern '",
                pattern.as_str(),
                "' must be a repository-relative path, not an absolute path",
            ),
            FilterError::Traversal { pattern } => text::concat3(
                "path pattern '",
                pattern.as_str(),
                "' must not contain '..' components",
            ),
            FilterError::CurrentDirectory { pattern } => text::concat3(
                "path pattern '",
                pattern.as_str(),
                "' must not contain '.' components",
            ),
            FilterError::MalformedPattern { pattern } => text::concat3(
                "path pattern '",
                pattern.as_str(),
                "' is not a valid glob",
            ),
        }
    }
}

/// Why a pattern is refused by its shape, if it is.
pub open spec fn shape_refusal(pattern: Seq<char>) -> Option<Refusal> {
    let trimmed = text::trim(pattern);
    if trimmed.len() == 0 {
        Some(Refusal::EmptyPattern)
    } else if trimmed.contains('\\') {
        Some(Refusal::BackslashInPattern { pattern })
    } else if is_absolute(trimmed) {
        Some(Refusal::AbsolutePath { pattern })
    } else if text::split(trimmed, '/').contains(".."@) {
        Some(Refusal::Traversal { pattern })
    } else if is_deep(trimmed) {
        Some(Refusal::MalformedPattern { pattern })
    } else {
        None
    }
}

/// Why a pattern is refused, if it is.
pub open spec fn pattern_refusal(pattern: Seq<char>) -> Option<Refusal> {
    if shape_refusal(pattern) is Some {
        shape_refusal(pattern)
    } else if glob_paths(text::trim(pattern)) is None {
        Some(Refusal::MalformedPattern { pattern })
    } else {
        None
    }
}

/// The compiled pattern of a text that is not refused.
pub open spec fn compiled(pattern: Seq<char>) -> PatternView {
    let trimmed = text::trim(pattern);
    PatternView { raw: trimmed, paths: glob_paths(trimmed)->0 }
}

fn absolute(pattern: &str) -> (r: bool)
    ensures
        r == is_absolute(pattern@),
{
    let chars = text::chars_of(pattern);
    if chars.len() > 0 && chars[0] == '/' {
        return true;
    }
    chars.len() >= 3 && ((chars[0] >= 'a' && chars[0] <= 'z') || (chars[0] >= 'A' && chars[0]
        <= 'Z')) && chars[1] == ':'
}

fn has_traversal(pattern: &str) -> (r: bool)
    ensures
        r == text::split(pattern@, '/').contains(".."@),
{
    text::has_text(&text::split_on(pattern, '/'), "..")
}

/// Test the shape of a pattern, and hand it out without the space around it.
pub fn check_shape(pattern: &str) -> (r: Result<String, FilterError>)
    ensures
        match r {
            Ok(trimmed) => shape_refusal(pattern@) is None && trimmed@ == text::trim(pattern@),
            Err(error) => shape_refusal(pattern@) == Some(error@),
        },
{
    let trimmed = text::trimmed(pattern);
    let length: usize = text::chars_of(trimmed.as_str()).len();
    if length == 0 {
        return Err(FilterError::EmptyPattern);
    }
    if text::has_char(trimmed.as_str(), '\\') {
        return Err(FilterError::BackslashInPattern { pattern: pattern.to_owned() });
    }
    if absolute(trimmed.as_str()) {
        return Err(FilterError::AbsolutePath { pattern: pattern.to_owned() });
    }
    if has_traversal(trimmed.as_str()) {
        return Err(FilterError::Traversal { pattern: pattern.to_owned() });
    }
    if deep(trimmed.as_str()) {
        return Err(FilterError::MalformedPattern { pattern: pattern.to_owned() });
    }
    Ok(trimmed)
}

impl GlobPattern {
    /// Compile a glob pattern. Returns an error for empty or malformed
    /// patterns, absolute Unix/Windows/UNC patterns, backslashes, or any
    /// `..` path component.
    pub fn compile(pattern: &str) -> (r: Result<Self, FilterError>)
        ensures
            match r {
                Ok(glob) => {
                    &&& pattern_refusal(pattern@) is None
                    &&& glob@ == compiled(pattern@)
                },
                Err(error) => pattern_refusal(pattern@) == Some(error@),
            },
    {
        let trimmed = match check_shape(pattern) {
            Ok(trimmed) => trimmed,
            Err(error) => return Err(error),
        };
        let chars = text::chars_of(trimmed.as_str());
        let starred: bool = chars[chars.len() - 1] == '*';
        let front = if starred && chars[0] != '*' {
            "{}"
        } else {
            ""
        };
        let back = if !starred && !recursive(trimmed.as_str()) {
            "{}"
        } else {
            ""
        };
        match compile_glob(front, trimmed.as_str(), back) {
            Ok(matcher) => Ok(GlobPattern { raw: trimmed, matcher }),
            Err(_) => Err(FilterError::MalformedPattern { pattern: pattern.to_owned() }),
        }
    }

    /// The raw pattern string.
    pub fn raw(&self) -> (r: &str)
        ensures
            r@ == self@.raw,
    {
        self.raw.as_str()
    }

    /// Whether `path` (a repository-relative path) matches this pattern.
    pub fn matches(&self, path: &str) -> (r: bool)
        ensures
            r == pattern_matches(self@, path@),
    {
        let normalized = paths::normalize_path(path);
        proof {
            paths::lemma_normalized_has_no_backslash(path@);
        }
        glob_matches(&self.matcher, normalized.as_str())
    }
}

// ---------------------------------------------------------------------------
// Requests
// ---------------------------------------------------------------------------

/// A raw, optional filter request. `None` means the filter is absent;
/// `Some(vec![])` means an explicitly supplied empty list.
#[derive(Debug, PartialEq, Eq)]
pub struct FilterRequest {
    pub languages: Option<Vec<String>>,
    pub include_paths: Option<Vec<String>>,
    pub exclude_paths: Option<Vec<String>>,
    pub source_roles: Option<Vec<String>>,
}

/// What a [`FilterRequest`] says.
pub struct RequestView {
    pub languages: Option<Seq<Seq<char>>>,
    pub include_paths: Option<Seq<Seq<char>>>,
    pub exclude_paths: Option<Seq<Seq<char>>>,
    pub source_roles: Option<Seq<Seq<char>>>,
}

/// The texts of an optional list.
pub open spec fn list_view(list: Option<Vec<String>>) -> Option<Seq<Seq<char>>> {
    match list {
        Some(texts) => Some(text::views(texts@)),
        None => None,
    }
}

/// Copy an optional list.
pub fn clone_list(list: &Option<Vec<String>>) -> (r: Option<Vec<String>>)
    ensures
        list_view(r) == list_view(*list),
{
    match list {
        Some(texts) => Some(text::clone_texts(texts)),
        None => None,
    }
}

/// A list as a filter: absent where it is empty.
pub fn unless_empty(list: Vec<String>) -> (r: Option<Vec<String>>)
    ensures
        r == (if list@.len() == 0 {
            None::<Vec<String>>
        } else {
            Some(list)
        }),
{
    if list.len() == 0 {
        None
    } else {
        Some(list)
    }
}

impl View for FilterRequest {
    type V = RequestView;

    open spec fn view(&self) -> RequestView {
        RequestView {
            languages: list_view(self.languages),
            include_paths: list_view(self.include_paths),
            exclude_paths: list_view(self.exclude_paths),
            source_roles: list_view(self.source_roles),
        }
    }
}

impl Default for FilterRequest {
    fn default() -> (r: Self)
        ensures
            r == (FilterRequest {
                languages: None,
                include_paths: None,
                exclude_paths: None,
                source_roles: None,
            }),
    {
        FilterRequest { languages: None, include_paths: None, exclude_paths: None, source_roles: None }
    }
}

impl Clone for FilterRequest {
    fn clone(&self) -> (r: Self)
        ensures
            r@ == self@,
    {
        FilterRequest {
            languages: clone_list(&self.languages),
            include_paths: clone_list(&self.include_paths),
            exclude_paths: clone_list(&self.exclude_paths),
            source_roles: clone_list(&self.source_roles),
        }
    }
}

/// A validated, effective filter. `None` means the filter is absent. An
/// explicitly empty include list matches no paths, while an empty exclude list
/// excludes nothing.
#[derive(Debug)]
pub struct EffectiveFilter {
    /// Registered language identifiers, deduplicated and sorted.
    pub languages: Option<Vec<String>>,
    /// The patterns of which a path must match one.
    pub include_paths: Option<Vec<GlobPattern>>,
    /// The patterns of which a path must match none.
    pub exclude_paths: Option<Vec<GlobPattern>>,
    /// Source roles, deduplicated and sorted.
    pub source_roles: Option<Vec<SourceRole>>,
}

/// What an [`EffectiveFilter`] says.
pub struct FilterView {
    pub languages: Option<Seq<Seq<char>>>,
    pub include_paths: Option<Seq<PatternView>>,
    pub exclude_paths: Option<Seq<PatternView>>,
    pub source_roles: Option<Seq<SourceRole>>,
}

pub open spec fn pattern_views(patterns: Seq<GlobPattern>) -> Seq<PatternView> {
    patterns.map_values(|pattern: GlobPattern| pattern@)
}

pub open spec fn patterns_view(patterns: Option<Vec<GlobPattern>>) -> Option<Seq<PatternView>> {
    match patterns {
        Some(list) => Some(pattern_views(list@)),
        None => None,
    }
}

impl View for EffectiveFilter {
    type V = FilterView;

    open spec fn view(&self) -> FilterView {
        FilterView {
            languages: list_view(self.languages),
            include_paths: patterns_view(self.include_paths),
            exclude_paths: patterns_view(self.exclude_paths),
            source_roles: match self.source_roles {
                Some(roles) => Some(roles@),
                None => None,
            },
        }
    }
}

/// A registered language identifier.
pub open spec fn is_identifier(name: Seq<char>) -> bool {
    exists|language: language::Language| #[trigger] language.identifier() == name
}

/// The name of a role.
pub open spec fn is_role_name(name: Seq<char>) -> bool {
    exists|role: SourceRole| #[trigger] role.name() == name
}

/// The first text of the list that is not as it should be.
pub open spec fn first_without(
    list: Seq<Seq<char>>,
    good: spec_fn(Seq<char>) -> bool,
) -> Option<Seq<char>>
    decreases list.len(),
{
    if list.len() == 0 {
        None
    } else {
        match first_without(list.drop_last(), good) {
            Some(found) => Some(found),
            None => if good(list.last()) {
                None
            } else {
                Some(list.last())
            },
        }
    }
}

pub open spec fn language_refusal(list: Option<Seq<Seq<char>>>) -> Option<Refusal> {
    match list {
        None => None,
        Some(names) => if names.len() == 0 {
            Some(Refusal::EmptyLanguages)
        } else {
            match first_without(names, |name: Seq<char>| is_identifier(name)) {
                Some(value) => Some(Refusal::UnknownLanguage { value }),
                None => None,
            }
        },
    }
}

pub open spec fn role_refusal(list: Option<Seq<Seq<char>>>) -> Option<Refusal> {
    match list {
        None => None,
        Some(names) => if names.len() == 0 {
            Some(Refusal::EmptySourceRoles)
        } else {
            match first_without(names, |name: Seq<char>| is_role_name(name)) {
                Some(value) => Some(Refusal::UnknownSourceRole { value }),
                None => None,
            }
        },
    }
}

/// The refusal of the first pattern that is refused.
pub open spec fn first_refusal(patterns: Seq<Seq<char>>) -> Option<Refusal>
    decreases patterns.len(),
{
    if patterns.len() == 0 {
        None
    } else {
        match first_refusal(patterns.drop_last()) {
            Some(refusal) => Some(refusal),
            None => pattern_refusal(patterns.last()),
        }
    }
}

/// Patterns are tried in ascending order.
pub open spec fn paths_refusal(list: Option<Seq<Seq<char>>>) -> Option<Refusal> {
    match list {
        None => None,
        Some(patterns) => first_refusal(order::ascending_list(patterns)),
    }
}

/// Why a request is refused: by its languages, its roles, its include patterns or its
/// exclude patterns, in this order.
pub open spec fn request_refusal(request: RequestView) -> Option<Refusal> {
    if language_refusal(request.languages) is Some {
        language_refusal(request.languages)
    } else if role_refusal(request.source_roles) is Some {
        role_refusal(request.source_roles)
    } else if paths_refusal(request.include_paths) is Some {
        paths_refusal(request.include_paths)
    } else {
        paths_refusal(request.exclude_paths)
    }
}

/// The roles that a list names, in declaration order.
pub open spec fn roles_in(names: Seq<Seq<char>>) -> Seq<SourceRole> {
    all_roles().filter(|role: SourceRole| names.contains(role.name()))
}

pub open spec fn compiled_list(list: Option<Seq<Seq<char>>>) -> Option<Seq<PatternView>> {
    match list {
        None => None,
        Some(patterns) => Some(
            order::ascending_list(patterns).map_values(|pattern: Seq<char>| compiled(pattern)),
        ),
    }
}

/// The filter of a request that is not refused.
pub open spec fn effective(request: RequestView) -> FilterView {
    FilterView {
        languages: match request.languages {
            None => None,
            Some(names) => Some(order::ascending_list(names)),
        },
        include_paths: compiled_list(request.include_paths),
        exclude_paths: compiled_list(request.exclude_paths),
        source_roles: match request.source_roles {
            None => None,
            Some(names) => Some(roles_in(names)),
        },
    }
}

proof fn lemma_first_without_stays(
    list: Seq<Seq<char>>,
    good: spec_fn(Seq<char>) -> bool,
    n: int,
)
    requires
        0 <= n <= list.len(),
        first_without(list.take(n), good) is Some,
    ensures
        first_without(list, good) == first_without(list.take(n), good),
    decreases list.len(),
{
    if n < list.len() {
        assert(list.drop_last().take(n) =~= list.take(n));
        lemma_first_without_stays(list.drop_last(), good, n);
    } else {
        assert(list.take(n) =~= list);
    }
}

proof fn lemma_first_refusal_stays(list: Seq<Seq<char>>, n: int)
    requires
        0 <= n <= list.len(),
        first_refusal(list.take(n)) is Some,
    ensures
        first_refusal(list) == first_refusal(list.take(n)),
    decreases list.len(),
{
    if n < list.len() {
        assert(list.drop_last().take(n) =~= list.take(n));
        lemma_first_refusal_stays(list.drop_last(), n);
    } else {
        assert(list.take(n) =~= list);
    }
}

fn validate_languages(list: &Option<Vec<String>>) -> (r: Result<Option<Vec<String>>, FilterError>)
    ensures
        match r {
            Ok(names) => {
                &&& language_refusal(list_view(*list)) is None
                &&& list_view(names) == match list_view(*list) {
                    None => None,
                    Some(all) => Some(order::ascending_list(all)),
                }
            },
            Err(error) => language_refusal(list_view(*list)) == Some(error@),
        },
{
    match list {
        None => Ok(None),
        Some(names) => {
            if names.len() == 0 {
                return Err(FilterError::EmptyLanguages);
            }
            let ghost all = text::views(names@);
            let ghost good = |name: Seq<char>| is_identifier(name);
            assert(all.take(0) =~= seq![]);
            let mut i: usize = 0;
            while i < names.len()
                invariant
                    i <= names@.len(),
                    all == text::views(names@),
                    all.len() > 0,
                    list_view(*list) == Some(all),
                    good == (|name: Seq<char>| is_identifier(name)),
                    first_without(all.take(i as int), good) is None,
                decreases names@.len() - i,
            {
                proof {
                    let next = all.take(i + 1);
                    assert(next.drop_last() =~= all.take(i as int));
                    assert(next.last() == names@[i as int]@);
                }
                if !language::is_registered_identifier(names[i].as_str()) {
                    proof {
                        assert(!good(all[i as int]));
                        lemma_first_without_stays(all, good, i + 1);
                    }
                    return Err(FilterError::UnknownLanguage { value: names[i].clone() });
                }
                assert(good(all[i as int]));
                i = i + 1;
            }
            assert(all.take(all.len() as int) =~= all);
            Ok(Some(order::distinct(names)))
        },
    }
}

/// Test whether a list names a role.
fn names_role(names: &[String], role: SourceRole) -> (r: bool)
    ensures
        r == text::views(names@).contains(role.name()),
{
    let ghost all = text::views(names@);
    let mut i: usize = 0;
    while i < names.len()
        invariant
            i <= names@.len(),
            all == text::views(names@),
            forall|k: int| 0 <= k < i ==> #[trigger] all[k] != role.name(),
        decreases names@.len() - i,
    {
        assert(all[i as int] == names@[i as int]@);
        if text::str_eq(names[i].as_str(), role.as_str()) {
            assert(all.contains(all[i as int]));
            return true;
        }
        i = i + 1;
    }
    false
}

/// All roles, in declaration order.
pub open spec fn all_roles() -> Seq<SourceRole> {
    seq![
        SourceRole::Source,
        SourceRole::Test,
        SourceRole::Benchmark,
        SourceRole::Example,
        SourceRole::Generated,
        SourceRole::Documentation,
        SourceRole::Configuration,
    ]
}

fn named_roles(names: &[String]) -> (r: Vec<SourceRole>)
    ensures
        r@ == roles_in(text::views(names@)),
{
    let all = SourceRole::ALL;
    let ghost list = all_roles();
    let ghost kind = |role: SourceRole| text::views(names@).contains(role.name());
    assert(all@ =~= list);
    let mut out: Vec<SourceRole> = Vec::new();
    let mut i: usize = 0;
    assert(list.take(0) =~= seq![]);
    reveal(Seq::filter);
    assert(list.take(0).filter(kind) =~= seq![]);
    while i < 7
        invariant
            i <= 7,
            all@ == list,
            list.len() == 7,
            kind == (|role: SourceRole| text::views(names@).contains(role.name())),
            out@ == list.take(i as int).filter(kind),
        decreases 7 - i,
    {
        proof {
            reveal(Seq::filter);
            let next = list.take(i + 1);
            assert(next.drop_last() =~= list.take(i as int));
            assert(next.last() == list[i as int]);
        }
        if names_role(names, all[i]) {
            assert(kind(list[i as int]));
            out.push(all[i]);
        } else {
            assert(!kind(list[i as int]));
        }
        i = i + 1;
    }
    assert(list.take(7) =~= list);
    out
}

fn validate_roles(list: &Option<Vec<String>>) -> (r: Result<Option<Vec<SourceRole>>, FilterError>)
    ensures
        match r {
            Ok(None) => list_view(*list) is None,
            Ok(Some(roles)) => {
                &&& role_refusal(list_view(*list)) is None
                &&& list_view(*list) is Some
                &&& roles@ == roles_in(list_view(*list)->0)
            },
            Err(error) => role_refusal(list_view(*list)) == Some(error@),
        },
{
    match list {
        None => Ok(None),
        Some(names) => {
            if names.len() == 0 {
                return Err(FilterError::EmptySourceRoles);
            }
            let ghost all = text::views(names@);
            let ghost good = |name: Seq<char>| is_role_name(name);
            assert(all.take(0) =~= seq![]);
            let mut i: usize = 0;
            while i < names.len()
                invariant
                    i <= names@.len(),
                    all == text::views(names@),
                    all.len() > 0,
                    list_view(*list) == Some(all),
                    good == (|name: Seq<char>| is_role_name(name)),
                    first_without(all.take(i as int), good) is None,
                decreases names@.len() - i,
            {
                proof {
                    let next = all.take(i + 1);
                    assert(next.drop_last() =~= all.take(i as int));
                    assert(next.last() == names@[i as int]@);
                }
                match SourceRole::parse(names[i].as_str()) {
                    Ok(role) => {
                        assert(role.name() == all[i as int]);
                        assert(good(all[i as int]));
                    },
                    Err(_) => {
                        proof {
                            assert(!good(all[i as int]));
                            lemma_first_without_stays(all, good, i + 1);
                        }
                        return Err(FilterError::UnknownSourceRole { value: names[i].clone() });
                    },
                }
                i = i + 1;
            }
            assert(all.take(all.len() as int) =~= all);
            Ok(Some(named_roles(names)))
        },
    }
}

fn compile_path_list(list: &Option<Vec<String>>) -> (r: Result<
    Option<Vec<GlobPattern>>,
    FilterError,
>)
    ensures
        match r {
            Ok(patterns) => {
                &&& paths_refusal(list_view(*list)) is None
                &&& patterns_view(patterns) == compiled_list(list_view(*list))
            },
            Err(error) => paths_refusal(list_view(*list)) == Some(error@),
        },
{
    match list {
        None => Ok(None),
        Some(texts) => {
            let sorted = order::distinct(texts);
            let ghost all = text::views(sorted@);
            let ghost each = |pattern: Seq<char>| compiled(pattern);
            let mut out: Vec<GlobPattern> = Vec::new();
            let mut i: usize = 0;
            assert(all.take(0) =~= seq![]);
            assert(pattern_views(out@) =~= all.take(0).map_values(each));
            while i < sorted.len()
                invariant
                    i <= sorted@.len(),
                    all == text::views(sorted@),
                    list_view(*list) is Some,
                    all == order::ascending_list(list_view(*list)->0),
                    each == (|pattern: Seq<char>| compiled(pattern)),
                    first_refusal(all.take(i as int)) is None,
                    pattern_views(out@) == all.take(i as int).map_values(each),
                decreases sorted@.len() - i,
            {
                proof {
                    let next = all.take(i + 1);
                    assert(next.drop_last() =~= all.take(i as int));
                    assert(next.last() == sorted@[i as int]@);
                }
                let ghost before = out@;
                match GlobPattern::compile(sorted[i].as_str()) {
                    Ok(pattern) => {
                        out.push(pattern);
                        proof {
                            assert(pattern_views(out@) =~= pattern_views(before).push(pattern@));
                            assert(all.take(i + 1).map_values(each) =~= all.take(
                                i as int,
                            ).map_values(each).push(compiled(all[i as int])));
                        }
                    },
                    Err(error) => {
                        proof {
                            lemma_first_refusal_stays(all, i + 1);
                        }
                        return Err(error);
                    },
                }
                i = i + 1;
            }
            assert(all.take(all.len() as int) =~= all);
            Ok(Some(out))
        },
    }
}

/// One of the patterns matches a path.
pub open spec fn any_matches(patterns: Seq<PatternView>, path: Seq<char>) -> bool {
    exists|i: int| 0 <= i < patterns.len() && pattern_matches(#[trigger] patterns[i], path)
}

/// A chunk with this language and role passes the filter, given whether its path matches
/// one of the patterns to look in, and one of those to leave out.
pub open spec fn passes_with(
    filter: FilterView,
    language: Seq<char>,
    role: SourceRole,
    looked_in: bool,
    left_out: bool,
) -> bool {
    &&& filter.languages is Some ==> filter.languages->0.contains(language)
    &&& filter.source_roles is Some ==> filter.source_roles->0.contains(role)
    &&& filter.include_paths is Some ==> looked_in
    &&& filter.exclude_paths is Some ==> !left_out
}

/// A chunk with this language, path and role passes the filter.
pub open spec fn passes(
    filter: FilterView,
    language: Seq<char>,
    path: Seq<char>,
    role: SourceRole,
) -> bool {
    passes_with(
        filter,
        language,
        role,
        any_matches(filter.include_paths->0, path),
        any_matches(filter.exclude_paths->0, path),
    )
}

fn matches_any(patterns: &[GlobPattern], path: &str) -> (r: bool)
    ensures
        r == any_matches(pattern_views(patterns@), path@),
{
    let ghost all = pattern_views(patterns@);
    let mut i: usize = 0;
    while i < patterns.len()
        invariant
            i <= patterns@.len(),
            all == pattern_views(patterns@),
            forall|k: int| 0 <= k < i ==> !pattern_matches(#[trigger] all[k], path@),
        decreases patterns@.len() - i,
    {
        assert(all[i as int] == patterns@[i as int]@);
        if patterns[i].matches(path) {
            assert(pattern_matches(all[i as int], path@));
            return true;
        }
        i = i + 1;
    }
    false
}

fn has_role(roles: &[SourceRole], role: SourceRole) -> (r: bool)
    ensures
        r == roles@.contains(role),
{
    let mut i: usize = 0;
    while i < roles.len()
        invariant
            i <= roles@.len(),
            forall|k: int| 0 <= k < i ==> roles@[k] != role,
        decreases roles@.len() - i,
    {
        if roles[i] == role {
            assert(roles@.contains(roles@[i as int]));
            return true;
        }
        i = i + 1;
    }
    false
}

fn raw_patterns(patterns: &Option<Vec<GlobPattern>>) -> (r: Option<Vec<String>>)
    ensures
        list_view(r) == match patterns_view(*patterns) {
            None => None,
            Some(all) => Some(all.map_values(|pattern: PatternView| pattern.raw)),
        },
{
    match patterns {
        None => None,
        Some(list) => {
            let mut out: Vec<String> = Vec::new();
            let mut i: usize = 0;
            while i < list.len()
                invariant
                    i <= list@.len(),
                    out@.len() == i,
                    forall|k: int| 0 <= k < i ==> (#[trigger] out@[k])@ == list@[k]@.raw,
                decreases list@.len() - i,
            {
                out.push(list[i].raw().to_owned());
                i = i + 1;
            }
            assert(text::views(out@) =~= pattern_views(list@).map_values(
                |pattern: PatternView| pattern.raw,
            ));
            Some(out)
        },
    }
}

/// A report of an effective filter. Absent filters are `None`.
#[derive(Debug, PartialEq, Eq)]
pub struct EffectiveFilterReport {
    pub languages: Option<Vec<String>>,
    pub include_paths: Option<Vec<String>>,
    pub exclude_paths: Option<Vec<String>>,
    pub source_roles: Option<Vec<String>>,
}

impl View for EffectiveFilterReport {
    type V = RequestView;

    open spec fn view(&self) -> RequestView {
        RequestView {
            languages: list_view(self.languages),
            include_paths: list_view(self.include_paths),
            exclude_paths: list_view(self.exclude_paths),
            source_roles: list_view(self.source_roles),
        }
    }
}

impl Clone for EffectiveFilterReport {
    fn clone(&self) -> (r: Self)
        ensures
            r@ == self@,
    {
        EffectiveFilterReport {
            languages: clone_list(&self.languages),
            include_paths: clone_list(&self.include_paths),
            exclude_paths: clone_list(&self.exclude_paths),
            source_roles: clone_list(&self.source_roles),
        }
    }
}

/// What is reported of a filter.
pub open spec fn reported(filter: FilterView) -> RequestView {
    RequestView {
        languages: filter.languages,
        include_paths: match filter.include_paths {
            None => None,
            Some(all) => Some(all.map_values(|pattern: PatternView| pattern.raw)),
        },
        exclude_paths: match filter.exclude_paths {
            None => None,
            Some(all) => Some(all.map_values(|pattern: PatternView| pattern.raw)),
        },
        source_roles: match filter.source_roles {
            None => None,
            Some(roles) => Some(roles.map_values(|role: SourceRole| role.name())),
        },
    }
}

impl EffectiveFilter {
    /// Validate a raw [`FilterRequest`] into an effective filter.
    pub fn from_request(request: &FilterRequest) -> (r: Result<Self, FilterError>)
        ensures
            match r {
                Ok(filter) => {
                    &&& request_refusal(request@) is None
                    &&& filter@ == effective(request@)
                },
                Err(error) => request_refusal(request@) == Some(error@),
            },
    {
        let languages = match validate_languages(&request.languages) {
            Ok(languages) => languages,
            Err(error) => {
                return Err(error);
            },
        };
        let source_roles = match validate_roles(&request.source_roles) {
            Ok(source_roles) => source_roles,
            Err(error) => {
                return Err(error);
            },
        };
        let include_paths = match compile_path_list(&request.include_paths) {
            Ok(include_paths) => include_paths,
            Err(error) => {
                return Err(error);
            },
        };
        let exclude_paths = match compile_path_list(&request.exclude_paths) {
            Ok(exclude_paths) => exclude_paths,
            Err(error) => {
                return Err(error);
            },
        };
        Ok(EffectiveFilter { languages, include_paths, exclude_paths, source_roles })
    }

    /// Whether a chunk with the given language identifier, repository-relative
    /// path, and source role passes this filter.
    ///
    /// A chunk passes when:
    /// - it matches the language filter (or there is no language filter),
    ///   AND
    /// - it matches the include filter (or there is no include filter),
    ///   AND
    /// - it does not match any exclude pattern,
    ///   AND
    /// - it matches the source-role filter (or there is no role filter).
    pub fn matches(
        &self,
        language_identifier: &str,
        relative_path: &str,
        source_role: SourceRole,
    ) -> (r: bool)
        ensures
            r == passes(self@, language_identifier@, relative_path@, source_role),
    {
        let looked_in = match &self.include_paths {
            Some(patterns) => matches_any(patterns, relative_path),
            None => false,
        };
        let left_out = match &self.exclude_paths {
            Some(patterns) => matches_any(patterns, relative_path),
            None => false,
        };
        self.matches_given(language_identifier, source_role, looked_in, left_out)
    }

    /// Whether a chunk matches all filters, given whether its path matches one of the
    /// patterns to look in, and one of those to leave out.
    pub fn matches_given(
        &self,
        language_identifier: &str,
        source_role: SourceRole,
        looked_in: bool,
        left_out: bool,
    ) -> (r: bool)
        ensures
            r == passes_with(self@, language_identifier@, source_role, looked_in, left_out),
    {
        if let Some(languages) = &self.languages {
            if !text::has_text(languages, language_identifier) {
                return false;
            }
        }
        if let Some(roles) = &self.source_roles {
            if !has_role(roles, source_role) {
                return false;
            }
        }
        if self.include_paths.is_some() && !looked_in {
            return false;
        }
        !(self.exclude_paths.is_some() && left_out)
    }

    /// A report of the effective filter. Absent filters are `None`.
    pub fn report(&self) -> (r: EffectiveFilterReport)
        ensures
            r@ == reported(self@),
    {
        let source_roles = match &self.source_roles {
            None => None,
            Some(roles) => {
                let mut out: Vec<String> = Vec::new();
                let mut i: usize = 0;
                while i < roles.len()
                    invariant
                        i <= roles@.len(),
                        out@.len() == i,
                        forall|k: int| 0 <= k < i ==> (#[trigger] out@[k])@ == roles@[k].name(),
                    decreases roles@.len() - i,
                {
                    out.push(roles[i].to_string());
                    i = i + 1;
                }
                assert(text::views(out@) =~= roles@.map_values(|role: SourceRole| role.name()));
                Some(out)
            },
        };
        EffectiveFilterReport {
            languages: clone_list(&self.languages),
            include_paths: raw_patterns(&self.include_paths),
            exclude_paths: raw_patterns(&self.exclude_paths),
            source_roles,
        }
    }
}

// ---------------------------------------------------------------------------
// Laws
// ---------------------------------------------------------------------------

/// A request without filters is accepted, and everything passes.
pub proof fn law_no_filter_passes_everything(
    language: Seq<char>,
    path: Seq<char>,
    role: SourceRole,
)
    ensures
        ({
            let request = RequestView {
                languages: None,
                include_paths: None,
                exclude_paths: None,
                source_roles: None,
            };
            request_refusal(request) is None && passes(effective(request), language, path, role)
        }),
{
}

/// Exclusion beats inclusion.
pub proof fn law_excluded_paths_never_pass(
    filter: FilterView,
    language: Seq<char>,
    path: Seq<char>,
    role: SourceRole,
)
    requires
        filter.exclude_paths is Some,
        any_matches(filter.exclude_paths->0, path),
    ensures
        !passes(filter, language, path, role),
{
}

/// An explicitly empty include list matches no path, an empty exclude list excludes
/// none.
pub proof fn law_empty_path_lists(
    filter: FilterView,
    language: Seq<char>,
    path: Seq<char>,
    role: SourceRole,
)
    ensures
        filter.include_paths == Some(Seq::<PatternView>::empty()) ==> !passes(
            filter,
            language,
            path,
            role,
        ),
        filter.exclude_paths == Some(Seq::<PatternView>::empty()) ==> passes(
            filter,
            language,
            path,
            role,
        ) == passes(FilterView { exclude_paths: None, ..filter }, language, path, role),
{
}

/// A path passes as its normalized form does.
pub proof fn law_filters_see_normalized_paths(
    filter: FilterView,
    language: Seq<char>,
    path: Seq<char>,
    role: SourceRole,
)
    ensures
        passes(filter, language, paths::normalized(path), role) == passes(
            filter,
            language,
            path,
            role,
        ),
{
    paths::law_normalization_is_stable(path);
    let same = paths::normalized(path);
    if filter.include_paths is Some {
        lemma_any_matches_normalized(filter.include_paths->0, path, same);
    }
    if filter.exclude_paths is Some {
        lemma_any_matches_normalized(filter.exclude_paths->0, path, same);
    }
}

proof fn lemma_any_matches_normalized(patterns: Seq<PatternView>, a: Seq<char>, b: Seq<char>)
    requires
        paths::normalized(a) == paths::normalized(b),
    ensures
        any_matches(patterns, a) == any_matches(patterns, b),
{
    if any_matches(patterns, a) {
        let i = choose|i: int| 0 <= i < patterns.len() && pattern_matches(#[trigger] patterns[i], a);
        assert(pattern_matches(patterns[i], b));
    }
    if any_matches(patterns, b) {
        let i = choose|i: int| 0 <= i < patterns.len() && pattern_matches(#[trigger] patterns[i], b);
        assert(pattern_matches(patterns[i], a));
    }
}

/// An accepted pattern stays inside the repository.
pub proof fn law_accepted_patterns_stay_inside(pattern: Seq<char>)
    requires
        pattern_refusal(pattern) is None,
    ensures
        ({
            let raw = compiled(pattern).raw;
            &&& raw.len() > 0
            &&& !raw.contains('\\')
            &&& !is_absolute(raw)
            &&& !text::split(raw, '/').contains(".."@)
        }),
{
}

proof fn lemma_first_without_none(
    list: Seq<Seq<char>>,
    good: spec_fn(Seq<char>) -> bool,
    name: Seq<char>,
)
    requires
        first_without(list, good) is None,
        list.contains(name),
    ensures
        good(name),
    decreases list.len(),
{
    let i = choose|i: int| 0 <= i < list.len() && list[i] == name;
    if i < list.len() - 1 {
        assert(list.drop_last()[i] == name);
        lemma_first_without_none(list.drop_last(), good, name);
    }
}

/// Whatever an accepted request restricts the languages to, only the registered
/// languages that it names pass.
pub proof fn law_language_filters_restrict(
    request: RequestView,
    language: Seq<char>,
    path: Seq<char>,
    role: SourceRole,
)
    requires
        request_refusal(request) is None,
        request.languages is Some,
        passes(effective(request), language, path, role),
    ensures
        request.languages->0.contains(language),
        is_identifier(language),
{
    let names = request.languages->0;
    let list = order::ascending_list(names);
    order::lemma_ascending_list(names);
    assert(list.contains(language));
    lemma_first_without_none(names, |name: Seq<char>| is_identifier(name), language);
}

// ---------------------------------------------------------------------------
// What requests ask for
// ---------------------------------------------------------------------------

/// A pattern of a request matches a path: the glob that is left without the space around it
/// holds the normalized path.
pub open spec fn pattern_holds(pattern: Seq<char>, path: Seq<char>) -> bool {
    glob_paths(text::trim(pattern)) matches Some(held) && held.contains(paths::normalized(path))
}

/// A list of patterns holds one that matches a path.
pub open spec fn some_pattern_holds(patterns: Seq<Seq<char>>, path: Seq<char>) -> bool {
    exists|i: int| 0 <= i < patterns.len() && pattern_holds(#[trigger] patterns[i], path)
}

proof fn lemma_compiled_list_matches(patterns: Seq<Seq<char>>, path: Seq<char>)
    requires
        first_refusal(order::ascending_list(patterns)) is None,
    ensures
        any_matches(compiled_list(Some(patterns))->0, path) == some_pattern_holds(patterns, path),
{
    let list = order::ascending_list(patterns);
    let all = compiled_list(Some(patterns))->0;
    order::lemma_ascending_list(patterns);
    if any_matches(all, path) {
        let i = choose|i: int| 0 <= i < all.len() && pattern_matches(#[trigger] all[i], path);
        lemma_no_refusal(list, i);
        assert(list.contains(list[i]));
        let k = choose|k: int| 0 <= k < patterns.len() && patterns[k] == list[i];
        assert(pattern_holds(patterns[k], path));
    }
    if some_pattern_holds(patterns, path) {
        let k = choose|k: int|
            0 <= k < patterns.len() && pattern_holds(#[trigger] patterns[k], path);
        assert(patterns.contains(patterns[k]));
        assert(list.contains(patterns[k]));
        let i = choose|i: int| 0 <= i < list.len() && list[i] == patterns[k];
        assert(pattern_matches(all[i], path));
    }
}

proof fn lemma_no_refusal(list: Seq<Seq<char>>, i: int)
    requires
        first_refusal(list) is None,
        0 <= i < list.len(),
    ensures
        pattern_refusal(list[i]) is None,
    decreases list.len(),
{
    if i < list.len() - 1 {
        assert(list.drop_last()[i] == list[i]);
        lemma_no_refusal(list.drop_last(), i);
    }
}

/// A file passes an accepted request if and only if it is in one of the languages asked for,
/// has one of the roles asked for, matches one of the patterns to look in, and matches none
/// of the patterns to leave out. What is not asked for does not restrict.
pub proof fn law_requests_restrict_as_they_say(
    request: RequestView,
    language: Seq<char>,
    path: Seq<char>,
    role: SourceRole,
)
    requires
        request_refusal(request) is None,
    ensures
        passes(effective(request), language, path, role) <==> {
            &&& request.languages matches Some(names) ==> names.contains(language)
            &&& request.source_roles matches Some(names) ==> names.contains(role.name())
            &&& request.include_paths matches Some(patterns) ==> some_pattern_holds(patterns, path)
            &&& request.exclude_paths matches Some(patterns) ==> !some_pattern_holds(
                patterns,
                path,
            )
        },
{
    if let Some(names) = request.languages {
        order::lemma_ascending_list(names);
        assert(order::ascending_list(names).contains(language) <==> names.contains(language));
    }
    if let Some(names) = request.source_roles {
        let kind = |role: SourceRole| names.contains(role.name());
        let all = all_roles();
        let kept = all.filter(kind);
        assert(all[role.place()] == role);
        if kept.contains(role) {
            let k = choose|k: int| 0 <= k < kept.len() && kept[k] == role;
            all.lemma_filter_pred(kind, k);
        }
        if kind(role) {
            all.lemma_filter_contains(kind, role.place());
        }
    }
    if let Some(patterns) = request.include_paths {
        lemma_compiled_list_matches(patterns, path);
    }
    if let Some(patterns) = request.exclude_paths {
        lemma_compiled_list_matches(patterns, path);
    }
}

/// A request is accepted if and only if each of its lists is: no empty list of languages or
/// of roles, only registered languages and roles, and only patterns that are accepted.
pub proof fn law_requests_are_refused_for_what_they_hold(request: RequestView)
    ensures
        request_refusal(request) is None <==> {
            &&& request.languages matches Some(names) ==> names.len() > 0 && forall|i: int|
                0 <= i < names.len() ==> is_identifier(#[trigger] names[i])
            &&& request.source_roles matches Some(names) ==> names.len() > 0 && forall|i: int|
                0 <= i < names.len() ==> is_role_name(#[trigger] names[i])
            &&& request.include_paths matches Some(patterns) ==> forall|i: int|
                0 <= i < patterns.len() ==> pattern_refusal(#[trigger] patterns[i]) is None
            &&& request.exclude_paths matches Some(patterns) ==> forall|i: int|
                0 <= i < patterns.len() ==> pattern_refusal(#[trigger] patterns[i]) is None
        },
        request.languages == Some(Seq::<Seq<char>>::empty()) ==> request_refusal(request) == Some(
            Refusal::EmptyLanguages,
        ),
        request.languages is None && request.source_roles == Some(Seq::<Seq<char>>::empty())
            ==> request_refusal(request) == Some(Refusal::EmptySourceRoles),
        request_refusal(request) matches Some(Refusal::UnknownLanguage { value })
            ==> request.languages is Some && request.languages->0.contains(value) && !is_identifier(
            value,
        ),
        request_refusal(request) matches Some(Refusal::UnknownSourceRole { value })
            ==> request.source_roles is Some && request.source_roles->0.contains(value)
            && !is_role_name(value),
{
    let known = |name: Seq<char>| is_identifier(name);
    let role = |name: Seq<char>| is_role_name(name);
    if let Some(names) = request.languages {
        lemma_first_without(names, known);
        assert(names.len() == 0 ==> names =~= Seq::<Seq<char>>::empty());
    }
    if let Some(names) = request.source_roles {
        lemma_first_without(names, role);
        assert(names.len() == 0 ==> names =~= Seq::<Seq<char>>::empty());
    }
    if let Some(patterns) = request.include_paths {
        lemma_paths_refusal(patterns);
    }
    if let Some(patterns) = request.exclude_paths {
        lemma_paths_refusal(patterns);
    }
    assert(paths_refusal(request.include_paths) matches Some(refusal) ==> !(
    refusal is UnknownLanguage || refusal is UnknownSourceRole)) by {
        if let Some(patterns) = request.include_paths {
            lemma_pattern_refusals(order::ascending_list(patterns));
        }
    }
    assert(paths_refusal(request.exclude_paths) matches Some(refusal) ==> !(
    refusal is UnknownLanguage || refusal is UnknownSourceRole)) by {
        if let Some(patterns) = request.exclude_paths {
            lemma_pattern_refusals(order::ascending_list(patterns));
        }
    }
}

proof fn lemma_pattern_refusals(list: Seq<Seq<char>>)
    ensures
        first_refusal(list) matches Some(refusal) ==> !(refusal is UnknownLanguage
            || refusal is UnknownSourceRole),
    decreases list.len(),
{
    if list.len() > 0 {
        lemma_pattern_refusals(list.drop_last());
    }
}

proof fn lemma_first_without(list: Seq<Seq<char>>, good: spec_fn(Seq<char>) -> bool)
    ensures
        first_without(list, good) is None <==> forall|i: int|
            0 <= i < list.len() ==> good(#[trigger] list[i]),
        first_without(list, good) matches Some(value) ==> list.contains(value) && !good(value),
    decreases list.len(),
{
    if list.len() > 0 {
        let rest = list.drop_last();
        lemma_first_without(rest, good);
        let n = list.len() - 1;
        match first_without(rest, good) {
            Some(value) => {
                let k = choose|k: int| 0 <= k < rest.len() && rest[k] == value;
                assert(list[k] == value);
            },
            None => {
                assert forall|i: int| 0 <= i < n implies good(#[trigger] list[i]) by {
                    assert(good(rest[i]));
                }
                assert(list[n] == list.last());
            },
        }
    }
}

proof fn lemma_first_refusal(list: Seq<Seq<char>>)
    ensures
        first_refusal(list) is None <==> forall|i: int|
            0 <= i < list.len() ==> pattern_refusal(#[trigger] list[i]) is None,
    decreases list.len(),
{
    if list.len() > 0 {
        let rest = list.drop_last();
        lemma_first_refusal(rest);
        let n = list.len() - 1;
        if first_refusal(rest) is None {
            assert forall|i: int| 0 <= i < n implies pattern_refusal(#[trigger] list[i]) is None by {
                assert(pattern_refusal(rest[i]) is None);
            }
            assert(list[n] == list.last());
        } else {
            let k = choose|k: int|
                0 <= k < rest.len() && !(pattern_refusal(#[trigger] rest[k]) is None);
            assert(list[k] == rest[k]);
        }
    }
}

proof fn lemma_paths_refusal(patterns: Seq<Seq<char>>)
    ensures
        paths_refusal(Some(patterns)) is None <==> forall|i: int|
            0 <= i < patterns.len() ==> pattern_refusal(#[trigger] patterns[i]) is None,
{
    let list = order::ascending_list(patterns);
    order::lemma_ascending_list(patterns);
    lemma_first_refusal(list);
    if paths_refusal(Some(patterns)) is None {
        assert forall|i: int| 0 <= i < patterns.len() implies pattern_refusal(
            #[trigger] patterns[i],
        ) is None by {
            assert(patterns.contains(patterns[i]));
            assert(list.contains(patterns[i]));
            let k = choose|k: int| 0 <= k < list.len() && list[k] == patterns[i];
            assert(pattern_refusal(list[k]) is None);
        }
    }
    if forall|i: int|
        0 <= i < patterns.len() ==> pattern_refusal(#[trigger] patterns[i]) is None {
        assert forall|k: int| 0 <= k < list.len() implies pattern_refusal(#[trigger] list[k]) is None by {
            assert(list.contains(list[k]));
            let i = choose|i: int| 0 <= i < patterns.len() && patterns[i] == list[k];
            assert(pattern_refusal(patterns[i]) is None);
        }
    }
}

/// What a refused pattern is refused for, by the text that is left without the space around
/// it: nothing is left, a backslash, a start at a root or a drive, a `..` between slashes, or
/// no glob. The refusal holds the pattern as it was given.
pub proof fn law_patterns_are_refused_for_what_they_hold(pattern: Seq<char>)
    ensures
        ({
            let raw = text::trim(pattern);
            let drive = raw.len() >= 3 && ('a' <= raw[0] <= 'z' || 'A' <= raw[0] <= 'Z') && raw[1]
                == ':';
            let rooted = raw.len() > 0 && raw[0] == '/';
            let up = text::split(raw, '/').contains(".."@);
            let empty = raw.len() == 0;
            let back = raw.contains('\\');
            let refusal = pattern_refusal(pattern);
            &&& empty ==> refusal == Some(Refusal::EmptyPattern)
            &&& !empty && back ==> refusal == Some(Refusal::BackslashInPattern { pattern })
            &&& !empty && !back && (rooted || drive) ==> refusal == Some(
                Refusal::AbsolutePath { pattern },
            )
            &&& !empty && !back && !rooted && !drive && up ==> refusal == Some(
                Refusal::Traversal { pattern },
            )
            &&& !empty && !back && !rooted && !drive && !up ==> refusal is None || refusal == Some(
                Refusal::MalformedPattern { pattern },
            )
            &&& refusal is None ==> glob_paths(raw) is Some && compiled(pattern).raw == raw
                && glob_paths(raw) == Some(compiled(pattern).paths)
        }),
{
}

/// A report shows the filter that was asked for: the same languages and roles, and the same
/// patterns without the space around them.
pub proof fn law_reports_show_what_was_asked_for(request: RequestView, item: Seq<char>)
    requires
        request_refusal(request) is None,
    ensures
        ({
            let shown = reported(effective(request));
            &&& shown.languages is Some <==> request.languages is Some
            &&& shown.source_roles is Some <==> request.source_roles is Some
            &&& shown.include_paths is Some <==> request.include_paths is Some
            &&& shown.exclude_paths is Some <==> request.exclude_paths is Some
            &&& request.languages matches Some(names) ==> (shown.languages->0.contains(item)
                <==> names.contains(item))
            &&& request.source_roles matches Some(names) ==> (shown.source_roles->0.contains(item)
                <==> names.contains(item))
            &&& request.include_paths matches Some(patterns) ==> (shown.include_paths->0.contains(
                item,
            ) <==> exists|i: int|
                0 <= i < patterns.len() && text::trim(#[trigger] patterns[i]) == item)
            &&& request.exclude_paths matches Some(patterns) ==> (shown.exclude_paths->0.contains(
                item,
            ) <==> exists|i: int|
                0 <= i < patterns.len() && text::trim(#[trigger] patterns[i]) == item)
        }),
{
    if let Some(names) = request.languages {
        order::lemma_ascending_list(names);
        assert(order::ascending_list(names).contains(item) <==> names.contains(item));
    }
    if let Some(names) = request.source_roles {
        let kind = |role: SourceRole| names.contains(role.name());
        let all = all_roles();
        let kept = all.filter(kind);
        let shown = kept.map_values(|role: SourceRole| role.name());
        if shown.contains(item) {
            let k = choose|k: int| 0 <= k < shown.len() && shown[k] == item;
            all.lemma_filter_pred(kind, k);
            assert(kind(kept[k]));
        }
        if names.contains(item) {
            lemma_first_without_none(names, |name: Seq<char>| is_role_name(name), item);
            let role = choose|role: SourceRole| #[trigger] role.name() == item;
            assert(all[role.place()] == role);
            all.lemma_filter_contains(kind, role.place());
            let k = choose|k: int| 0 <= k < kept.len() && kept[k] == role;
            assert(shown[k] == item);
        }
    }
    if let Some(patterns) = request.include_paths {
        lemma_shown_patterns(patterns, item);
    }
    if let Some(patterns) = request.exclude_paths {
        lemma_shown_patterns(patterns, item);
    }
}

proof fn lemma_shown_patterns(patterns: Seq<Seq<char>>, item: Seq<char>)
    ensures
        compiled_list(Some(patterns))->0.map_values(|pattern: PatternView| pattern.raw).contains(
            item,
        ) <==> exists|i: int|
            0 <= i < patterns.len() && text::trim(#[trigger] patterns[i]) == item,
{
    let list = order::ascending_list(patterns);
    let shown = compiled_list(Some(patterns))->0.map_values(|pattern: PatternView| pattern.raw);
    order::lemma_ascending_list(patterns);
    if shown.contains(item) {
        let k = choose|k: int| 0 <= k < shown.len() && shown[k] == item;
        assert(list.contains(list[k]));
        let i = choose|i: int| 0 <= i < patterns.len() && patterns[i] == list[k];
        assert(text::trim(patterns[i]) == item);
    }
    if exists|i: int| 0 <= i < patterns.len() && text::trim(#[trigger] patterns[i]) == item {
        let i = choose|i: int|
            0 <= i < patterns.len() && text::trim(#[trigger] patterns[i]) == item;
        assert(patterns.contains(patterns[i]));
        assert(list.contains(patterns[i]));
        let k = choose|k: int| 0 <= k < list.len() && list[k] == patterns[i];
        assert(shown[k] == item);
    }
}

proof fn lemma_groups_are_opened(pattern: Seq<char>)
    ensures
        group_scan(pattern).open <= pattern.filter(|c: char| c == '{').len(),
        group_scan(pattern).most <= pattern.filter(|c: char| c == '{').len(),
    decreases pattern.len(),
{
    reveal(Seq::filter);
    if pattern.len() > 0 {
        lemma_groups_are_opened(pattern.drop_last());
    }
}

proof fn lemma_groups_in_groups(n: nat)
    ensures
        group_scan(Seq::new(n, |i: int| '{')) == (GroupScan {
            place: GlobPlace::Outside,
            open: n,
            most: n,
        }),
    decreases n,
{
    let pattern = Seq::new(n, |i: int| '{');
    if n > 0 {
        let fewer = (n - 1) as nat;
        lemma_groups_in_groups(fewer);
        assert(pattern.drop_last() =~= Seq::new(fewer, |i: int| '{'));
    }
}

/// A glob is too deep only where it opens more than five hundred groups, and it is where it
/// opens that many in one another at its start.
pub proof fn law_deep_globs_open_many_groups(pattern: Seq<char>, n: nat)
    ensures
        is_deep(pattern) ==> pattern.filter(|c: char| c == '{').len() > 500,
        n <= pattern.len() && n > 500 && (forall|i: int| 0 <= i < n ==> pattern[i] == '{')
            ==> is_deep(pattern),
{
    lemma_groups_are_opened(pattern);
    if n <= pattern.len() && n > 500 && (forall|i: int| 0 <= i < n ==> pattern[i] == '{') {
        lemma_groups_in_groups(n);
        lemma_most_grows(pattern, n as int);
        assert(pattern.take(n as int) =~= Seq::new(n, |i: int| '{'));
    }
}

} // verus!

//! The role a source file plays in a repository, derived from its path.

use crate::{language, paths, text};
use vstd::prelude::*;

verus! {

/// The role a source file plays in a repository, derived from its path.
#[derive(Debug, Clone, Copy, PartialEq, Eq, Structural, Hash, PartialOrd, Ord)]
pub enum SourceRole {
    Source,
    Test,
    Benchmark,
    Example,
    Generated,
    Documentation,
    Configuration,
}

impl SourceRole {
    /// All registered roles, in declaration order.
    pub const ALL: [SourceRole; 7] = [
        SourceRole::Source,
        SourceRole::Test,
        SourceRole::Benchmark,
        SourceRole::Example,
        SourceRole::Generated,
        SourceRole::Documentation,
        SourceRole::Configuration,
    ];

    /// The name of the role.
    pub open spec fn name(self) -> Seq<char> {
        match self {
            SourceRole::Source => "source"@,
            SourceRole::Test => "test"@,
            SourceRole::Benchmark => "benchmark"@,
            SourceRole::Example => "example"@,
            SourceRole::Generated => "generated"@,
            SourceRole::Documentation => "documentation"@,
            SourceRole::Configuration => "configuration"@,
        }
    }

    /// The place of the role in declaration order.
    pub open spec fn place(self) -> int {
        match self {
            SourceRole::Source => 0,
            SourceRole::Test => 1,
            SourceRole::Benchmark => 2,
            SourceRole::Example => 3,
            SourceRole::Generated => 4,
            SourceRole::Documentation => 5,
            SourceRole::Configuration => 6,
        }
    }

    /// The lowercase wire/CLI name for this role.
    pub fn as_str(self) -> (r: &'static str)
        ensures
            r@ == self.name(),
    {
        match self {
            SourceRole::Source => "source",
            SourceRole::Test => "test",
            SourceRole::Benchmark => "benchmark",
            SourceRole::Example => "example",
            SourceRole::Generated => "generated",
            SourceRole::Documentation => "documentation",
            SourceRole::Configuration => "configuration",
        }
    }

    /// The lowercase wire/CLI name for this role.
    pub fn to_string(&self) -> (r: String)
        ensures
            r@ == self.name(),
    {
        self.as_str().to_owned()
    }

    /// Parse a role from its lowercase name.
    pub fn parse(name: &str) -> (r: Result<Self, SourceRoleError>)
        ensures
            match r {
                Ok(role) => role.name() == name@,
                Err(SourceRoleError::Unknown { value }) => {
                    &&& value@ == name@
                    &&& forall|role: SourceRole| #[trigger] role.name() != name@
                },
            },
    {
        if text::str_eq(name, "source") {
            Ok(SourceRole::Source)
        } else if text::str_eq(name, "test") {
            Ok(SourceRole::Test)
        } else if text::str_eq(name, "benchmark") {
            Ok(SourceRole::Benchmark)
        } else if text::str_eq(name, "example") {
            Ok(SourceRole::Example)
        } else if text::str_eq(name, "generated") {
            Ok(SourceRole::Generated)
        } else if text::str_eq(name, "documentation") {
            Ok(SourceRole::Documentation)
        } else if text::str_eq(name, "configuration") {
            Ok(SourceRole::Configuration)
        } else {
            Err(SourceRoleError::Unknown { value: name.to_owned() })
        }
    }
}

impl std::str::FromStr for SourceRole {
    type Err = SourceRoleError;

    fn from_str(s: &str) -> Result<Self, Self::Err> {
        Self::parse(s)
    }
}

/// Error returned when a source-role name cannot be parsed.
#[derive(Debug, PartialEq, Eq)]
pub enum SourceRoleError {
    /// The supplied value is not a registered role name.
    Unknown { value: String },
}

impl Clone for SourceRoleError {
    fn clone(&self) -> (r: Self)
        ensures
            r->value@ == self->value@,
    {
        match self {
            SourceRoleError::Unknown { value } => SourceRoleError::Unknown { value: value.clone() },
        }
    }
}

/// The text of the error for an unknown role.
pub open spec fn unknown_role_text(value: Seq<char>) -> Seq<char> {
    "unknown source role '"@ + value
        + "'; expected one of: source, test, benchmark, example, generated, documentation, configuration"@
}

/// The text of the error for an unknown role.
pub fn unknown_role_message(value: &str) -> (r: String)
    ensures
        r@ == unknown_role_text(value@),
{
    text::concat3(
        "unknown source role '",
        value,
        "'; expected one of: source, test, benchmark, example, generated, documentation, configuration",
    )
}

impl SourceRoleError {
    /// The text of the error.
    pub fn to_string(&self) -> (r: String)
        ensures
            r@ == unknown_role_text(self->value@),
    {
        match self {
            SourceRoleError::Unknown { value } => unknown_role_message(value.as_str()),
        }
    }
}

/// No two roles share a name.
pub proof fn law_role_names_are_distinct(a: SourceRole, b: SourceRole)
    ensures
        a.name() == b.name() ==> a == b,
{
    reveal_strlit("source");
    reveal_strlit("test");
    reveal_strlit("benchmark");
    reveal_strlit("example");
    reveal_strlit("generated");
    reveal_strlit("documentation");
    reveal_strlit("configuration");
    let (x, y) = (a.name(), b.name());
    assert(x == y ==> x.len() == y.len() && x[0] == y[0]);
}

// ---------------------------------------------------------------------------
// Classification
// ---------------------------------------------------------------------------

/// The file name of a path and the directories in front of it.
pub open spec fn directories(path: Seq<char>) -> Seq<Seq<char>> {
    let parts = paths::components(path);
    if parts.len() == 0 {
        parts
    } else {
        parts.drop_last()
    }
}

/// The last component of a path, empty for an empty path.
pub open spec fn base_name(path: Seq<char>) -> Seq<char> {
    let parts = paths::components(path);
    if parts.len() == 0 {
        seq![]
    } else {
        parts.last()
    }
}

/// What stands behind the last dot of a name, or the whole name.
pub open spec fn last_field(name: Seq<char>) -> Seq<char> {
    name.skip(paths::last_index(name, '.', name.len() as int) + 1)
}

/// A file name with a registered source-file extension.
pub open spec fn is_source_name(name: Seq<char>) -> bool {
    language::language_for(last_field(name)) is Some
}

pub open spec fn is_generated_directory(part: Seq<char>) -> bool {
    ||| part == "generated"@
    ||| part == "gen"@
}

pub open spec fn is_test_directory(part: Seq<char>) -> bool {
    ||| part == "test"@
    ||| part == "tests"@
    ||| part == "__tests__"@
}

pub open spec fn is_benchmark_directory(part: Seq<char>) -> bool {
    ||| part == "bench"@
    ||| part == "benches"@
    ||| part == "benchmark"@
    ||| part == "benchmarks"@
}

pub open spec fn is_example_directory(part: Seq<char>) -> bool {
    ||| part == "example"@
    ||| part == "examples"@
    ||| part == "samples"@
}

pub open spec fn is_documentation_directory(part: Seq<char>) -> bool {
    ||| part == "doc"@
    ||| part == "docs"@
    ||| part == "documentation"@
}

pub open spec fn is_configuration_directory(part: Seq<char>) -> bool {
    ||| part == "config"@
    ||| part == "configs"@
    ||| part == "configuration"@
    ||| part == "scripts"@
    ||| part == "tools"@
    ||| part == "build"@
}

/// A source-file name with a literal marker of generated code.
pub open spec fn is_generated_name(name: Seq<char>) -> bool {
    &&& is_source_name(name)
    &&& {
        ||| text::contains(name, ".generated."@)
        ||| text::contains(name, "_generated."@)
        ||| text::contains(name, ".g."@)
    }
}

/// `name` is `stem` and `suffix`, where the stem starts with `first` or ends with `last`.
pub open spec fn has_stem(
    name: Seq<char>,
    suffix: Seq<char>,
    first: Seq<char>,
    last: Seq<char>,
) -> bool {
    &&& text::ends_with(name, suffix)
    &&& {
        let stem = name.take(name.len() - suffix.len());
        text::ends_with(stem, last) || text::starts_with(stem, first)
    }
}

/// A file name that marks a test.
pub open spec fn is_test_name(name: Seq<char>) -> bool {
    ||| has_stem(name, ".py"@, "test_"@, "_test"@)
    ||| text::ends_with(name, ".test.ts"@)
    ||| text::ends_with(name, ".spec.ts"@)
    ||| text::ends_with(name, ".test.tsx"@)
    ||| text::ends_with(name, ".spec.tsx"@)
    ||| text::ends_with(name, ".test.js"@)
    ||| text::ends_with(name, ".spec.js"@)
    ||| text::ends_with(name, ".test.jsx"@)
    ||| text::ends_with(name, ".spec.jsx"@)
}

/// A file name that marks a benchmark.
pub open spec fn is_benchmark_name(name: Seq<char>) -> bool {
    ||| has_stem(name, ".rs"@, "bench_"@, "_bench"@)
    ||| has_stem(name, ".py"@, "bench_"@, "_bench"@)
    ||| text::ends_with(name, ".bench.ts"@)
    ||| text::ends_with(name, ".bench.js"@)
    ||| text::ends_with(name, ".bench.tsx"@)
    ||| text::ends_with(name, ".bench.jsx"@)
}

/// One of the directories is of the kind.
pub open spec fn any_part(parts: Seq<Seq<char>>, kind: spec_fn(Seq<char>) -> bool) -> bool {
    exists|i: int| 0 <= i < parts.len() && kind(#[trigger] parts[i])
}

pub open spec fn looks_generated(path: Seq<char>) -> bool {
    any_part(directories(path), |part: Seq<char>| is_generated_directory(part))
        || is_generated_name(base_name(path))
}

pub open spec fn looks_like_test(path: Seq<char>) -> bool {
    any_part(directories(path), |part: Seq<char>| is_test_directory(part)) || is_test_name(
        base_name(path),
    )
}

pub open spec fn looks_like_benchmark(path: Seq<char>) -> bool {
    any_part(directories(path), |part: Seq<char>| is_benchmark_directory(part))
        || is_benchmark_name(base_name(path))
}

pub open spec fn looks_like_example(path: Seq<char>) -> bool {
    any_part(directories(path), |part: Seq<char>| is_example_directory(part))
}

pub open spec fn looks_like_documentation(path: Seq<char>) -> bool {
    any_part(directories(path), |part: Seq<char>| is_documentation_directory(part))
}

pub open spec fn looks_like_configuration(path: Seq<char>) -> bool {
    any_part(directories(path), |part: Seq<char>| is_configuration_directory(part))
}

/// The role of the file at a path.
///
/// Precedence: generated > test > benchmark > example > documentation >
/// configuration > source.
pub open spec fn role_of(path: Seq<char>) -> SourceRole {
    if looks_generated(path) {
        SourceRole::Generated
    } else if looks_like_test(path) {
        SourceRole::Test
    } else if looks_like_benchmark(path) {
        SourceRole::Benchmark
    } else if looks_like_example(path) {
        SourceRole::Example
    } else if looks_like_documentation(path) {
        SourceRole::Documentation
    } else if looks_like_configuration(path) {
        SourceRole::Configuration
    } else {
        SourceRole::Source
    }
}

fn in_generated_directory(dirs: &[String]) -> (r: bool)
    ensures
        r == any_part(text::views(dirs@), |part: Seq<char>| is_generated_directory(part)),
{
    let ghost parts = text::views(dirs@);
    let mut i: usize = 0;
    while i < dirs.len()
        invariant
            i <= dirs@.len(),
            parts == text::views(dirs@),
            forall|k: int| 0 <= k < i ==> !is_generated_directory(#[trigger] parts[k]),
        decreases dirs@.len() - i,
    {
        let part = dirs[i].as_str();
        assert(parts[i as int] == part@);
        if text::str_eq(part, "generated")
            || text::str_eq(part, "gen") {
            assert(is_generated_directory(parts[i as int]));
            return true;
        }
        i = i + 1;
    }
    false
}

fn in_test_directory(dirs: &[String]) -> (r: bool)
    ensures
        r == any_part(text::views(dirs@), |part: Seq<char>| is_test_directory(part)),
{
    let ghost parts = text::views(dirs@);
    let mut i: usize = 0;
    while i < dirs.len()
        invariant
            i <= dirs@.len(),
            parts == text::views(dirs@),
            forall|k: int| 0 <= k < i ==> !is_test_directory(#[trigger] parts[k]),
        decreases dirs@.len() - i,
    {
        let part = dirs[i].as_str();
        assert(parts[i as int] == part@);
        if text::str_eq(part, "test")
            || text::str_eq(part, "tests")
            || text::str_eq(part, "__tests__") {
            assert(is_test_directory(parts[i as int]));
            return true;
        }
        i = i + 1;
    }
    false
}

fn in_benchmark_directory(dirs: &[String]) -> (r: bool)
    ensures
        r == any_part(text::views(dirs@), |part: Seq<char>| is_benchmark_directory(part)),
{
    let ghost parts = text::views(dirs@);
    let mut i: usize = 0;
    while i < dirs.len()
        invariant
            i <= dirs@.len(),
            parts == text::views(dirs@),
            forall|k: int| 0 <= k < i ==> !is_benchmark_directory(#[trigger] parts[k]),
        decreases dirs@.len() - i,
    {
        let part = dirs[i].as_str();
        assert(parts[i as int] == part@);
        if text::str_eq(part, "bench")
            || text::str_eq(part, "benches")
            || text::str_eq(part, "benchmark")
            || text::str_eq(part, "benchmarks") {
            assert(is_benchmark_directory(parts[i as int]));
            return true;
        }
        i = i + 1;
    }
    false
}

fn in_example_directory(dirs: &[String]) -> (r: bool)
    ensures
        r == any_part(text::views(dirs@), |part: Seq<char>| is_example_directory(part)),
{
    let ghost parts = text::views(dirs@);
    let mut i: usize = 0;
    while i < dirs.len()
        invariant
            i <= dirs@.len(),
            parts == text::views(dirs@),
            forall|k: int| 0 <= k < i ==> !is_example_directory(#[trigger] parts[k]),
        decreases dirs@.len() - i,
    {
        let part = dirs[i].as_str();
        assert(parts[i as int] == part@);
        if text::str_eq(part, "example")
            || text::str_eq(part, "examples")
            || text::str_eq(part, "samples") {
            assert(is_example_directory(parts[i as int]));
            return true;
        }
        i = i + 1;
    }
    false
}

fn in_documentation_directory(dirs: &[String]) -> (r: bool)
    ensures
        r == any_part(text::views(dirs@), |part: Seq<char>| is_documentation_directory(part)),
{
    let ghost parts = text::views(dirs@);
    let mut i: usize = 0;
    while i < dirs.len()
        invariant
            i <= dirs@.len(),
            parts == text::views(dirs@),
            forall|k: int| 0 <= k < i ==> !is_documentation_directory(#[trigger] parts[k]),
        decreases dirs@.len() - i,
    {
        let part = dirs[i].as_str();
        assert(parts[i as int] == part@);
        if text::str_eq(part, "doc")
            || text::str_eq(part, "docs")
            || text::str_eq(part, "documentation") {
            assert(is_documentation_directory(parts[i as int]));
            return true;
        }
        i = i + 1;
    }
    false
}

fn in_configuration_directory(dirs: &[String]) -> (r: bool)
    ensures
        r == any_part(text::views(dirs@), |part: Seq<char>| is_configuration_directory(part)),
{
    let ghost parts = text::views(dirs@);
    let mut i: usize = 0;
    while i < dirs.len()
        invariant
            i <= dirs@.len(),
            parts == text::views(dirs@),
            forall|k: int| 0 <= k < i ==> !is_configuration_directory(#[trigger] parts[k]),
        decreases dirs@.len() - i,
    {
        let part = dirs[i].as_str();
        assert(parts[i as int] == part@);
        if text::str_eq(part, "config")
            || text::str_eq(part, "configs")
            || text::str_eq(part, "configuration")
            || text::str_eq(part, "scripts")
            || text::str_eq(part, "tools")
            || text::str_eq(part, "build") {
            assert(is_configuration_directory(parts[i as int]));
            return true;
        }
        i = i + 1;
    }
    false
}

fn last_field_of(name: &str) -> (r: String)
    ensures
        r@ == last_field(name@),
{
    let chars = text::chars_of(name);
    let mut i: usize = chars.len();
    while i > 0 && chars[i - 1] != '.'
        invariant
            i <= chars@.len(),
            chars@ == name@,
            paths::last_index(name@, '.', name@.len() as int) == paths::last_index(
                name@,
                '.',
                i as int,
            ),
        decreases i,
    {
        i = i - 1;
    }
    let field = text::string_of(&chars, i, chars.len());
    assert(field@ =~= name@.skip(i as int));
    field
}

fn generated_name(name: &str) -> (r: bool)
    ensures
        r == is_generated_name(name@),
{
    language::for_extension(last_field_of(name).as_str()).is_some() && (text::has_part(
        name,
        ".generated.",
    ) || text::has_part(name, "_generated.") || text::has_part(name, ".g."))
}

fn stem_matches(name: &str, suffix: &str, first: &str, last: &str) -> (r: bool)
    ensures
        r == has_stem(name@, suffix@, first@, last@),
{
    if !text::has_suffix(name, suffix) {
        return false;
    }
    let chars = text::chars_of(name);
    let tail = text::chars_of(suffix);
    let stem = text::string_of(&chars, 0, chars.len() - tail.len());
    assert(stem@ =~= name@.take(name@.len() - suffix@.len()));
    text::has_suffix(stem.as_str(), last) || text::has_prefix(stem.as_str(), first)
}

fn test_name(name: &str) -> (r: bool)
    ensures
        r == is_test_name(name@),
{
    stem_matches(name, ".py", "test_", "_test") || text::has_suffix(name, ".test.ts") || text::has_suffix(name, ".spec.ts") || text::has_suffix(name, ".test.tsx") || text::has_suffix(name, ".spec.tsx") || text::has_suffix(name, ".test.js") || text::has_suffix(name, ".spec.js") || text::has_suffix(name, ".test.jsx") || text::has_suffix(name, ".spec.jsx")
}

fn benchmark_name(name: &str) -> (r: bool)
    ensures
        r == is_benchmark_name(name@),
{
    stem_matches(name, ".rs", "bench_", "_bench") || stem_matches(name, ".py", "bench_", "_bench") || text::has_suffix(name, ".bench.ts") || text::has_suffix(name, ".bench.js") || text::has_suffix(name, ".bench.tsx") || text::has_suffix(name, ".bench.jsx")
}

/// Classify the source role of a repository-relative path.
///
/// Precedence: generated > test > benchmark > example > documentation >
/// configuration > source. Directory conventions use exact component matching
/// only.
pub fn classify_source_role(relative_path: &str) -> (r: SourceRole)
    ensures
        r == role_of(relative_path@),
{
    let mut dirs = paths::components_of(relative_path);
    let ghost parts = text::views(dirs@);
    let name = match dirs.pop() {
        Some(name) => name,
        None => String::new(),
    };
    proof {
        if parts.len() == 0 {
            assert(text::views(dirs@) =~= parts);
            assert(name@ =~= seq![]);
        } else {
            assert(text::views(dirs@) =~= parts.drop_last());
        }
    }
    if in_generated_directory(&dirs) || generated_name(name.as_str()) {
        SourceRole::Generated
    } else if in_test_directory(&dirs) || test_name(name.as_str()) {
        SourceRole::Test
    } else if in_benchmark_directory(&dirs) || benchmark_name(name.as_str()) {
        SourceRole::Benchmark
    } else if in_example_directory(&dirs) {
        SourceRole::Example
    } else if in_documentation_directory(&dirs) {
        SourceRole::Documentation
    } else if in_configuration_directory(&dirs) {
        SourceRole::Configuration
    } else {
        SourceRole::Source
    }
}

/// The role of a path is the role of its normalized form: separators may be `/` or `\`,
/// doubled, leading or trailing.
pub proof fn law_normalization_keeps_the_role(path: Seq<char>)
    ensures
        role_of(paths::normalized(path)) == role_of(path),
{
    paths::law_normalization_is_stable(path);
}

/// Generated code is generated code wherever else it stands.
pub proof fn law_generated_comes_first(path: Seq<char>)
    ensures
        looks_generated(path) <==> role_of(path) == SourceRole::Generated,
{
}

/// What matches no convention is source.
pub proof fn law_source_is_what_is_left(path: Seq<char>)
    ensures
        role_of(path) == SourceRole::Source <==> {
            &&& !looks_generated(path)
            &&& !looks_like_test(path)
            &&& !looks_like_benchmark(path)
            &&& !looks_like_example(path)
            &&& !looks_like_documentation(path)
            &&& !looks_like_configuration(path)
        },
{
}

// ---------------------------------------------------------------------------
// Laws of classification
// ---------------------------------------------------------------------------

/// A directory counts at whatever depth it stands: one for generated code makes the file
/// generated, one for tests makes every file a test that is not generated, and so on in the
/// order benchmark, example, documentation, configuration.
pub proof fn law_directories_count_at_any_depth(path: Seq<char>, i: int)
    requires
        0 <= i < paths::components(path).len() - 1,
    ensures
        ({
            let part = paths::components(path)[i];
            let role = role_of(path);
            let generated = role == SourceRole::Generated;
            let tested = generated || role == SourceRole::Test;
            let measured = tested || role == SourceRole::Benchmark;
            let shown = measured || role == SourceRole::Example;
            let explained = shown || role == SourceRole::Documentation;
            let configured = explained || role == SourceRole::Configuration;
            &&& part == "generated"@ || part == "gen"@ ==> generated
            &&& part == "test"@ || part == "tests"@ || part == "__tests__"@ ==> tested
            &&& part == "bench"@ || part == "benches"@ || part == "benchmark"@ || part
                == "benchmarks"@ ==> measured
            &&& part == "example"@ || part == "examples"@ || part == "samples"@ ==> shown
            &&& part == "doc"@ || part == "docs"@ || part == "documentation"@ ==> explained
            &&& part == "config"@ || part == "configs"@ || part == "configuration"@ || part
                == "scripts"@ || part == "tools"@ || part == "build"@ ==> configured
        }),
{
    let part = paths::components(path)[i];
    assert(directories(path)[i] == part);
}

/// A path with no generated marker is a test if one of its directories, at any depth, is
/// `test`, `tests` or `__tests__`.
pub proof fn law_files_below_tests_are_tests(path: Seq<char>, i: int)
    requires
        0 <= i < paths::components(path).len() - 1,
        paths::components(path)[i] == "test"@ || paths::components(path)[i] == "tests"@
            || paths::components(path)[i] == "__tests__"@,
        forall|k: int|
            0 <= k < paths::components(path).len() - 1 ==> (#[trigger] paths::components(path)[k])
                != "generated"@ && paths::components(path)[k] != "gen"@,
        ({
            let name = paths::components(path).last();
            forall|at: int| !#[trigger] has_marker(name, at)
        }),
    ensures
        role_of(path) == SourceRole::Test,
{
    law_directories_count_at_any_depth(path, i);
    let dirs = directories(path);
    assert forall|k: int| 0 <= k < dirs.len() implies !is_generated_directory(
        #[trigger] dirs[k],
    ) by {
        assert(dirs[k] == paths::components(path)[k]);
    }
    let name = base_name(path);
    if is_generated_name(name) {
        if text::contains(name, ".generated."@) {
            let at = choose|at: int| text::occurs_at(name, ".generated."@, at);
            assert(has_marker(name, at));
        } else if text::contains(name, "_generated."@) {
            let at = choose|at: int| text::occurs_at(name, "_generated."@, at);
            assert(has_marker(name, at));
        } else {
            let at = choose|at: int| text::occurs_at(name, ".g."@, at);
            assert(has_marker(name, at));
        }
    }
}

/// A text stands in another one at a place.
pub open spec fn stands_in(s: Seq<char>, part: Seq<char>, at: int) -> bool {
    0 <= at && at + part.len() <= s.len() && s.subrange(at, at + part.len()) == part
}

/// A marker of generated code stands in a name.
pub open spec fn has_marker(name: Seq<char>, at: int) -> bool {
    stands_in(name, ".generated."@, at) || stands_in(name, "_generated."@, at) || stands_in(
        name,
        ".g."@,
        at,
    )
}

/// A text ends with another one.
pub open spec fn has_end(s: Seq<char>, end: Seq<char>) -> bool {
    stands_in(s, end, s.len() - end.len())
}

/// A source file with a marker of generated code in its name is generated. A file whose name
/// ends as those of tests do, or is that of a Python test, is a test unless it is generated;
/// one whose name ends as those of benchmarks do is a benchmark unless it is either.
pub proof fn law_names_tell_the_role(path: Seq<char>, stem: Seq<char>, at: int)
    requires
        paths::components(path).len() > 0,
    ensures
        ({
            let name = paths::components(path).last();
            let role = role_of(path);
            let generated = role == SourceRole::Generated;
            let tested = generated || role == SourceRole::Test;
            let measured = tested || role == SourceRole::Benchmark;
            &&& is_source_name(name) && (stands_in(name, ".generated."@, at) || stands_in(
                name,
                "_generated."@,
                at,
            ) || stands_in(name, ".g."@, at)) ==> generated
            &&& name == "test_"@ + stem + ".py"@ || name == stem + "_test.py"@ ==> tested
            &&& has_end(name, ".test.ts"@) || has_end(name, ".spec.ts"@) || has_end(
                name,
                ".test.tsx"@,
            ) || has_end(name, ".spec.tsx"@) || has_end(name, ".test.js"@) || has_end(
                name,
                ".spec.js"@,
            ) || has_end(name, ".test.jsx"@) || has_end(name, ".spec.jsx"@) ==> tested
            &&& name == "bench_"@ + stem + ".py"@ || name == stem + "_bench.py"@ ==> measured
            &&& name == "bench_"@ + stem + ".rs"@ || name == stem + "_bench.rs"@ ==> measured
            &&& has_end(name, ".bench.ts"@) || has_end(name, ".bench.js"@) || has_end(
                name,
                ".bench.tsx"@,
            ) || has_end(name, ".bench.jsx"@) ==> measured
        }),
{
    let name = paths::components(path).last();
    assert(base_name(path) == name);
    if stands_in(name, ".generated."@, at) {
        assert(text::occurs_at(name, ".generated."@, at));
    }
    if stands_in(name, "_generated."@, at) {
        assert(text::occurs_at(name, "_generated."@, at));
    }
    if stands_in(name, ".g."@, at) {
        assert(text::occurs_at(name, ".g."@, at));
    }
    reveal_strlit("_test.py");
    reveal_strlit("_test");
    reveal_strlit("_bench.py");
    reveal_strlit("_bench.rs");
    reveal_strlit("_bench");
    reveal_strlit("test_");
    reveal_strlit("bench_");
    reveal_strlit(".py");
    reveal_strlit(".rs");
    assert("_test.py"@ =~= "_test"@ + ".py"@);
    assert("_bench.py"@ =~= "_bench"@ + ".py"@);
    assert("_bench.rs"@ =~= "_bench"@ + ".rs"@);
    lemma_stem(name, "test_"@, stem, "_test"@, ".py"@);
    lemma_stem(name, "bench_"@, stem, "_bench"@, ".py"@);
    lemma_stem(name, "bench_"@, stem, "_bench"@, ".rs"@);
    assert(stem + ("_test"@ + ".py"@) =~= stem + "_test"@ + ".py"@);
    assert(stem + ("_bench"@ + ".py"@) =~= stem + "_bench"@ + ".py"@);
    assert(stem + ("_bench"@ + ".rs"@) =~= stem + "_bench"@ + ".rs"@);
}

proof fn lemma_stem(
    name: Seq<char>,
    first: Seq<char>,
    stem: Seq<char>,
    last: Seq<char>,
    suffix: Seq<char>,
)
    ensures
        name == first + stem + suffix ==> has_stem(name, suffix, first, last),
        name == stem + last + suffix ==> has_stem(name, suffix, first, last),
{
    if name == first + stem + suffix {
        assert(name.subrange(name.len() - suffix.len(), name.len() as int) =~= suffix);
        let head = name.take(name.len() - suffix.len());
        assert(head =~= first + stem);
        assert(head.subrange(0, first.len() as int) =~= first);
    }
    if name == stem + last + suffix {
        assert(name.subrange(name.len() - suffix.len(), name.len() as int) =~= suffix);
        let head = name.take(name.len() - suffix.len());
        assert(head =~= stem + last);
        assert(head.subrange(head.len() - last.len(), head.len() as int) =~= last);
    }
}

/// One of the directories of a path is among some names.
pub open spec fn has_directory(path: Seq<char>, names: Set<Seq<char>>) -> bool {
    exists|i: int|
        0 <= i < paths::components(path).len() - 1 && names.contains(
            #[trigger] paths::components(path)[i],
        )
}

/// No role without a reason: the directories and names that make a role are the only ones
/// that do.
pub proof fn law_every_role_has_a_reason(path: Seq<char>)
    requires
        paths::components(path).len() > 0,
    ensures
        ({
            let role = role_of(path);
            let name = paths::components(path).last();
            &&& role == SourceRole::Generated ==> has_directory(
                path,
                set!["generated"@, "gen"@],
            ) || is_source_name(name) && exists|at: int| #[trigger]
                has_marker(name, at)
            &&& role == SourceRole::Test ==> has_directory(
                path,
                set!["test"@, "tests"@, "__tests__"@],
            ) || has_end(name, ".py"@) || has_end(name, ".test.ts"@) || has_end(name, ".spec.ts"@)
                || has_end(name, ".test.tsx"@) || has_end(name, ".spec.tsx"@) || has_end(
                name,
                ".test.js"@,
            ) || has_end(name, ".spec.js"@) || has_end(name, ".test.jsx"@) || has_end(
                name,
                ".spec.jsx"@,
            )
            &&& role == SourceRole::Test && has_end(name, ".py"@) && !has_directory(
                path,
                set!["test"@, "tests"@, "__tests__"@],
            ) ==> stands_in(name, "test_"@, 0) || has_end(name, "_test.py"@)
            &&& role == SourceRole::Benchmark ==> has_directory(
                path,
                set!["bench"@, "benches"@, "benchmark"@, "benchmarks"@],
            ) || stands_in(name, "bench_"@, 0) || has_end(name, "_bench.rs"@) || has_end(
                name,
                "_bench.py"@,
            ) || has_end(name, ".bench.ts"@) || has_end(name, ".bench.js"@) || has_end(
                name,
                ".bench.tsx"@,
            ) || has_end(name, ".bench.jsx"@)
            &&& role == SourceRole::Example ==> has_directory(
                path,
                set!["example"@, "examples"@, "samples"@],
            )
            &&& role == SourceRole::Documentation ==> has_directory(
                path,
                set!["doc"@, "docs"@, "documentation"@],
            )
            &&& role == SourceRole::Configuration ==> has_directory(
                path,
                set![
                    "config"@,
                    "configs"@,
                    "configuration"@,
                    "scripts"@,
                    "tools"@,
                    "build"@,
                ],
            )
        }),
{
    let dirs = directories(path);
    let parts = paths::components(path);
    let name = base_name(path);
    assert(forall|i: int| 0 <= i < dirs.len() ==> parts[i] == #[trigger] dirs[i]);
    lemma_test_stem(name);
    lemma_bench_stem(name);
    match role_of(path) {
        SourceRole::Generated => {
            let kind = |part: Seq<char>| is_generated_directory(part);
            if any_part(dirs, kind) {
                let i = choose|i: int| 0 <= i < dirs.len() && kind(#[trigger] dirs[i]);
                assert(set!["generated"@, "gen"@].contains(parts[i]));
            } else if text::contains(name, ".generated."@) {
                let at = choose|at: int| text::occurs_at(name, ".generated."@, at);
                assert(has_marker(name, at));
            } else if text::contains(name, "_generated."@) {
                let at = choose|at: int| text::occurs_at(name, "_generated."@, at);
                assert(has_marker(name, at));
            } else {
                let at = choose|at: int| text::occurs_at(name, ".g."@, at);
                assert(has_marker(name, at));
            }
        },
        SourceRole::Test => {
            let kind = |part: Seq<char>| is_test_directory(part);
            if any_part(dirs, kind) {
                let i = choose|i: int| 0 <= i < dirs.len() && kind(#[trigger] dirs[i]);
                assert(set!["test"@, "tests"@, "__tests__"@].contains(parts[i]));
            } else if has_end(name, ".py"@) {
                reveal_strlit(".py");
                reveal_strlit(".test.ts");
                reveal_strlit(".spec.ts");
                reveal_strlit(".test.tsx");
                reveal_strlit(".spec.tsx");
                reveal_strlit(".test.js");
                reveal_strlit(".spec.js");
                reveal_strlit(".test.jsx");
                reveal_strlit(".spec.jsx");
                let last = name.len() - 1;
                assert(name[last] == 'y') by {
                    assert(name.subrange(name.len() - 3, name.len() as int)[2] == 'y');
                }
                lemma_last_char(name, ".test.ts"@);
                lemma_last_char(name, ".spec.ts"@);
                lemma_last_char(name, ".test.tsx"@);
                lemma_last_char(name, ".spec.tsx"@);
                lemma_last_char(name, ".test.js"@);
                lemma_last_char(name, ".spec.js"@);
                lemma_last_char(name, ".test.jsx"@);
                lemma_last_char(name, ".spec.jsx"@);
            }
        },
        SourceRole::Benchmark => {
            let kind = |part: Seq<char>| is_benchmark_directory(part);
            if any_part(dirs, kind) {
                let i = choose|i: int| 0 <= i < dirs.len() && kind(#[trigger] dirs[i]);
                assert(set!["bench"@, "benches"@, "benchmark"@, "benchmarks"@].contains(parts[i]));
            }
        },
        SourceRole::Example => {
            let kind = |part: Seq<char>| is_example_directory(part);
            let i = choose|i: int| 0 <= i < dirs.len() && kind(#[trigger] dirs[i]);
            assert(set!["example"@, "examples"@, "samples"@].contains(parts[i]));
        },
        SourceRole::Documentation => {
            let kind = |part: Seq<char>| is_documentation_directory(part);
            let i = choose|i: int| 0 <= i < dirs.len() && kind(#[trigger] dirs[i]);
            assert(set!["doc"@, "docs"@, "documentation"@].contains(parts[i]));
        },
        SourceRole::Configuration => {
            let kind = |part: Seq<char>| is_configuration_directory(part);
            let i = choose|i: int| 0 <= i < dirs.len() && kind(#[trigger] dirs[i]);
            assert(set![
                "config"@,
                "configs"@,
                "configuration"@,
                "scripts"@,
                "tools"@,
                "build"@,
            ].contains(parts[i]));
        },
        SourceRole::Source => {},
    }
}

proof fn lemma_last_char(name: Seq<char>, end: Seq<char>)
    requires
        end.len() > 0,
    ensures
        text::ends_with(name, end) ==> name.len() > 0 && name.last() == end.last(),
{
    if text::ends_with(name, end) {
        let part = name.subrange(name.len() - end.len(), name.len() as int);
        assert(part[end.len() - 1] == name.last());
    }
}

proof fn lemma_stem_parts(
    name: Seq<char>,
    suffix: Seq<char>,
    first: Seq<char>,
    last: Seq<char>,
    end: Seq<char>,
)
    requires
        has_stem(name, suffix, first, last),
        end == last + suffix,
    ensures
        stands_in(name, first, 0) || has_end(name, end),
{
    let stem = name.take(name.len() - suffix.len());
    if text::starts_with(stem, first) {
        assert(name.subrange(0, first.len() as int) =~= stem.subrange(0, first.len() as int));
    } else {
        let from = stem.len() - last.len();
        assert(stem.subrange(from, stem.len() as int) == last);
        assert(name.subrange(stem.len() as int, name.len() as int) == suffix);
        assert(name.subrange(from, name.len() as int) =~= stem.subrange(from, stem.len() as int)
            + name.subrange(stem.len() as int, name.len() as int));
    }
}

proof fn lemma_test_stem(name: Seq<char>)
    ensures
        has_stem(name, ".py"@, "test_"@, "_test"@) ==> stands_in(name, "test_"@, 0) || has_end(
            name,
            "_test.py"@,
        ),
{
    reveal_strlit("_test.py");
    reveal_strlit("_test");
    reveal_strlit(".py");
    assert("_test.py"@ =~= "_test"@ + ".py"@);
    if has_stem(name, ".py"@, "test_"@, "_test"@) {
        lemma_stem_parts(name, ".py"@, "test_"@, "_test"@, "_test.py"@);
    }
}

proof fn lemma_bench_stem(name: Seq<char>)
    ensures
        has_stem(name, ".py"@, "bench_"@, "_bench"@) ==> stands_in(name, "bench_"@, 0) || has_end(
            name,
            "_bench.py"@,
        ),
        has_stem(name, ".rs"@, "bench_"@, "_bench"@) ==> stands_in(name, "bench_"@, 0) || has_end(
            name,
            "_bench.rs"@,
        ),
{
    reveal_strlit("_bench.py");
    reveal_strlit("_bench.rs");
    reveal_strlit("_bench");
    reveal_strlit(".py");
    reveal_strlit(".rs");
    assert("_bench.py"@ =~= "_bench"@ + ".py"@);
    assert("_bench.rs"@ =~= "_bench"@ + ".rs"@);
    if has_stem(name, ".py"@, "bench_"@, "_bench"@) {
        lemma_stem_parts(name, ".py"@, "bench_"@, "_bench"@, "_bench.py"@);
    }
    if has_stem(name, ".rs"@, "bench_"@, "_bench"@) {
        lemma_stem_parts(name, ".rs"@, "bench_"@, "_bench"@, "_bench.rs"@);
    }
}

/// A further directory in front of a path can only raise its role in the order of
/// precedence, and one that is no convention leaves it as it is. So a test stays a test
/// below any directory that is not for generated code.
pub proof fn law_outer_directories_keep_tests(directory: Seq<char>, path: Seq<char>)
    requires
        directory.len() > 0,
        !directory.contains('/'),
        !directory.contains('\\'),
        paths::components(path).len() > 0,
    ensures
        ({
            let outer = role_of(directory + seq!['/'] + path);
            let inner = role_of(path);
            let plain = directory != "generated"@ && directory != "gen"@;
            &&& inner == SourceRole::Generated ==> outer == SourceRole::Generated
            &&& plain && inner == SourceRole::Test ==> outer == SourceRole::Test
            &&& outer != inner ==> set![
                "generated"@,
                "gen"@,
                "test"@,
                "tests"@,
                "__tests__"@,
                "bench"@,
                "benches"@,
                "benchmark"@,
                "benchmarks"@,
                "example"@,
                "examples"@,
                "samples"@,
                "doc"@,
                "docs"@,
                "documentation"@,
                "config"@,
                "configs"@,
                "configuration"@,
                "scripts"@,
                "tools"@,
                "build"@,
            ].contains(directory)
        }),
{
    let whole = directory + seq!['/'] + path;
    paths::law_components_stand_between_separators(directory, path);
    let (inner, outer) = (paths::components(path), paths::components(whole));
    assert(outer =~= seq![directory] + inner);
    assert(directories(whole) =~= seq![directory] + directories(path));
    assert(base_name(whole) == base_name(path));
    let d = directories(path);
    lemma_one_more_part(d, directory, |part: Seq<char>| is_generated_directory(part));
    lemma_one_more_part(d, directory, |part: Seq<char>| is_test_directory(part));
    lemma_one_more_part(d, directory, |part: Seq<char>| is_benchmark_directory(part));
    lemma_one_more_part(d, directory, |part: Seq<char>| is_example_directory(part));
    lemma_one_more_part(d, directory, |part: Seq<char>| is_documentation_directory(part));
    lemma_one_more_part(d, directory, |part: Seq<char>| is_configuration_directory(part));
}

proof fn lemma_one_more_part(
    parts: Seq<Seq<char>>,
    first: Seq<char>,
    kind: spec_fn(Seq<char>) -> bool,
)
    ensures
        any_part(seq![first] + parts, kind) == (kind(first) || any_part(parts, kind)),
{
    let all = seq![first] + parts;
    if kind(first) {
        assert(kind(all[0]));
    }
    if any_part(parts, kind) {
        let i = choose|i: int| 0 <= i < parts.len() && kind(#[trigger] parts[i]);
        assert(kind(all[i + 1]));
    }
    if any_part(all, kind) {
        let i = choose|i: int| 0 <= i < all.len() && kind(#[trigger] all[i]);
        if i > 0 {
            assert(kind(parts[i - 1]));
        }
    }
}

} // verus!

//! The optional C# language server (csharp-ls).
//!
//! C# tooling is optional and fail-open: it never affects syntax retrieval. The
//! workspace entry point is discovered deterministically.

use crate::config::CSharpLspConfig;
use crate::json::{self, Document, Json};
use crate::lsp::adapter::{self, Provider};
use crate::lsp::transport::{TransportConfig, TransportView};
use crate::{order, paths, text};
use vstd::prelude::*;

verus! {

/// The identifier of the language.
pub const LANGUAGE_IDENTIFIER: &'static str = "csharp";

/// The extension of the source files, without its dot.
pub const EXTENSION: &'static str = "cs";

/// The kind of an entry point of a C# workspace.
#[derive(Debug, Clone, Copy, PartialEq, Eq, Structural)]
pub enum ProjectKind {
    /// A solution file (`.sln`).
    Solution,
    /// A project file (`.csproj`).
    Project,
    /// There is neither: the root itself.
    Root,
}

/// The entry point of a C# workspace.
#[derive(Debug, PartialEq, Eq)]
pub struct CSharpProject {
    /// The path of the solution, the project or the root.
    pub path: String,
    pub kind: ProjectKind,
}

/// Directories that are never searched: build output, dependencies and version control.
pub open spec fn is_skipped(name: Seq<char>) -> bool {
    ||| text::starts_with(name, "."@)
    ||| name == "bin"@
    ||| name == "obj"@
    ||| name == "node_modules"@
    ||| name == "target"@
    ||| name == "packages"@
}

/// Report whether a directory is searched for an entry point, by its name.
pub fn is_searched(name: &str) -> (r: bool)
    ensures
        r == !is_skipped(name@),
{
    !(text::has_prefix(name, ".") || text::str_eq(name, "bin") || text::str_eq(name, "obj")
        || text::str_eq(name, "node_modules") || text::str_eq(name, "target") || text::str_eq(
        name,
        "packages",
    ))
}

/// The kind of entry point that a file is, by its name.
pub open spec fn kind_of(name: Seq<char>) -> Option<ProjectKind> {
    if text::ends_with(name, ".sln"@) {
        Some(ProjectKind::Solution)
    } else if text::ends_with(name, ".csproj"@) {
        Some(ProjectKind::Project)
    } else {
        None
    }
}

/// A file is an entry point of a kind: none of the directories above it is skipped.
pub open spec fn is_entry(parts: Seq<Seq<char>>, kind: ProjectKind) -> bool {
    &&& parts.len() > 0
    &&& kind_of(parts.last()) == Some(kind)
    &&& forall|i: int| 0 <= i < parts.len() - 1 ==> !is_skipped(#[trigger] parts[i])
}

/// The order of paths: by their first different part.
pub open spec fn parts_precede(a: Seq<Seq<char>>, b: Seq<Seq<char>>) -> bool
    decreases a.len(),
{
    if b.len() == 0 {
        false
    } else if a.len() == 0 {
        true
    } else if a[0] == b[0] {
        parts_precede(a.drop_first(), b.drop_first())
    } else {
        order::precedes(a[0], b[0])
    }
}

/// A path is preferred to another one: it is less deep, or as deep and in front of it.
pub open spec fn preferred(a: Seq<Seq<char>>, b: Seq<Seq<char>>) -> bool {
    a.len() < b.len() || (a.len() == b.len() && parts_precede(a, b))
}

proof fn lemma_parts_precede_transitive(a: Seq<Seq<char>>, b: Seq<Seq<char>>, c: Seq<Seq<char>>)
    requires
        parts_precede(a, b),
        parts_precede(b, c),
    ensures
        parts_precede(a, c),
    decreases a.len(),
{
    if a.len() > 0 {
        if a[0] == b[0] && b[0] == c[0] {
            lemma_parts_precede_transitive(a.drop_first(), b.drop_first(), c.drop_first());
        } else if a[0] != b[0] && b[0] != c[0] {
            order::lemma_precedes_transitive(a[0], b[0], c[0]);
            order::lemma_precedes_total(a[0], b[0]);
            order::lemma_precedes_total(b[0], c[0]);
        }
    }
}

/// Which of the files is the entry point of a kind: the preferred one.
pub open spec fn is_best(files: Seq<Seq<char>>, kind: ProjectKind, at: int, upto: int) -> bool {
    &&& 0 <= at < upto
    &&& is_entry(text::split(files[at], '/'), kind)
    &&& forall|k: int|
        0 <= k < upto && is_entry(#[trigger] text::split(files[k], '/'), kind) ==> !preferred(
            text::split(files[k], '/'),
            text::split(files[at], '/'),
        )
}

/// None of the files is an entry point of a kind.
pub open spec fn has_none(files: Seq<Seq<char>>, kind: ProjectKind, upto: int) -> bool {
    forall|k: int| 0 <= k < upto ==> !is_entry(#[trigger] text::split(files[k], '/'), kind)
}

/// The entry point of the workspace `root` with the given files below it.
pub open spec fn is_entry_point(
    project: CSharpProject,
    root: Seq<char>,
    files: Seq<Seq<char>>,
) -> bool {
    let n = files.len() as int;
    match project.kind {
        ProjectKind::Solution => exists|at: int| #[trigger]
            is_best(files, ProjectKind::Solution, at, n) && project.path@ == paths::below(
                root,
                files[at],
            ),
        ProjectKind::Project => has_none(files, ProjectKind::Solution, n) && exists|at: int|
         #[trigger]
            is_best(files, ProjectKind::Project, at, n) && project.path@ == paths::below(
                root,
                files[at],
            ),
        ProjectKind::Root => {
            &&& has_none(files, ProjectKind::Solution, n)
            &&& has_none(files, ProjectKind::Project, n)
            &&& project.path@ == root
        },
    }
}

/// Test the order of two paths, by their parts.
fn parts_in_front(a: &[String], b: &[String]) -> (r: bool)
    ensures
        r == parts_precede(text::views(a@), text::views(b@)),
{
    let ghost va = text::views(a@);
    let ghost vb = text::views(b@);
    let mut i: usize = 0;
    proof {
        assert(va.skip(0) =~= va);
        assert(vb.skip(0) =~= vb);
    }
    while i < a.len() && i < b.len()
        invariant
            i <= a@.len(),
            i <= b@.len(),
            va == text::views(a@),
            vb == text::views(b@),
            parts_precede(va, vb) == parts_precede(va.skip(i as int), vb.skip(i as int)),
        decreases a@.len() - i,
    {
        proof {
            assert(va.skip(i as int)[0] == a@[i as int]@);
            assert(vb.skip(i as int)[0] == b@[i as int]@);
            assert(va.skip(i as int).drop_first() =~= va.skip(i + 1));
            assert(vb.skip(i as int).drop_first() =~= vb.skip(i + 1));
        }
        if !text::str_eq(a[i].as_str(), b[i].as_str()) {
            return order::text_precedes(a[i].as_str(), b[i].as_str());
        }
        i = i + 1;
    }
    i < b.len()
}

/// Report whether a path is preferred to another one.
fn is_preferred(a: &[String], b: &[String]) -> (r: bool)
    ensures
        r == preferred(text::views(a@), text::views(b@)),
{
    a.len() < b.len() || (a.len() == b.len() && parts_in_front(a, b))
}

/// The kind of entry point that a file is, by the parts of its path.
fn entry_kind(parts: &[String]) -> (r: Option<ProjectKind>)
    ensures
        match r {
            Some(kind) => is_entry(text::views(parts@), kind) && (kind == ProjectKind::Solution
                || kind == ProjectKind::Project),
            None => true,
        },
        forall|kind: ProjectKind| #[trigger]
            is_entry(text::views(parts@), kind) ==> r == Some(kind),
{
    let ghost views = text::views(parts@);
    if parts.len() == 0 {
        return None;
    }
    let mut i: usize = 0;
    while i < parts.len() - 1
        invariant
            0 < parts@.len(),
            i <= parts@.len() - 1,
            views == text::views(parts@),
            forall|k: int| 0 <= k < i ==> !is_skipped(#[trigger] views[k]),
        decreases parts@.len() - i,
    {
        assert(views[i as int] == parts@[i as int]@);
        if !is_searched(parts[i].as_str()) {
            return None;
        }
        i = i + 1;
    }
    let name = parts[parts.len() - 1].as_str();
    assert(views.last() == name@);
    if text::has_suffix(name, ".sln") {
        Some(ProjectKind::Solution)
    } else if text::has_suffix(name, ".csproj") {
        Some(ProjectKind::Project)
    } else {
        None
    }
}

proof fn lemma_replaced(
    files: Seq<Seq<char>>,
    kind: ProjectKind,
    at: int,
    next: int,
)
    requires
        0 <= next < files.len(),
        is_best(files, kind, at, next),
        is_entry(text::split(files[next], '/'), kind),
        preferred(text::split(files[next], '/'), text::split(files[at], '/')),
    ensures
        is_best(files, kind, next, next + 1),
{
    let new = text::split(files[next], '/');
    let current = text::split(files[at], '/');
    assert forall|k: int|
        0 <= k < next + 1 && is_entry(#[trigger] text::split(files[k], '/'), kind) implies !preferred(
        text::split(files[k], '/'),
        new,
    ) by {
        let other = text::split(files[k], '/');
        if k == next {
            lemma_parts_precede_irreflexive(new);
        } else if preferred(other, new) {
            if other.len() == new.len() && new.len() == current.len() {
                lemma_parts_precede_transitive(other, new, current);
            }
            assert(preferred(other, current));
        }
    }
}

proof fn lemma_parts_precede_irreflexive(a: Seq<Seq<char>>)
    ensures
        !parts_precede(a, a),
    decreases a.len(),
{
    if a.len() > 0 {
        lemma_parts_precede_irreflexive(a.drop_first());
    }
}

/// The place of the best entry point of a kind among the files.
fn best_entry(files: &[String], kind: ProjectKind) -> (r: Option<usize>)
    ensures
        match r {
            Some(at) => is_best(text::views(files@), kind, at as int, files@.len() as int),
            None => has_none(text::views(files@), kind, files@.len() as int),
        },
{
    let ghost views = text::views(files@);
    let mut best: Option<usize> = None;
    let mut i: usize = 0;
    while i < files.len()
        invariant
            i <= files@.len(),
            views == text::views(files@),
            match best {
                Some(at) => is_best(views, kind, at as int, i as int),
                None => has_none(views, kind, i as int),
            },
        decreases files@.len() - i,
    {
        let parts = text::split_on(files[i].as_str(), '/');
        assert(text::views(parts@) == text::split(views[i as int], '/'));
        let found = match entry_kind(&parts) {
            Some(found) => found == kind,
            None => false,
        };
        assert(found == is_entry(text::split(views[i as int], '/'), kind));
        if found {
            match best {
                None => {
                    proof {
                        lemma_parts_precede_irreflexive(text::split(views[i as int], '/'));
                    }
                    best = Some(i);
                },
                Some(at) => {
                    let current = text::split_on(files[at].as_str(), '/');
                    if is_preferred(&parts, &current) {
                        proof {
                            lemma_replaced(views, kind, at as int, i as int);
                        }
                        best = Some(i);
                    }
                },
            }
        }
        i = i + 1;
    }
    best
}

/// Discover the entry point of the workspace `root`, given the paths of the files below
/// it. A solution is preferred to a project; among those of one kind the least deep one
/// wins, and among those as deep the first one in the order of paths. Where there is
/// neither, the root itself is the entry point.
pub fn discover_project(root: &str, files: &[String]) -> (r: CSharpProject)
    ensures
        is_entry_point(r, root@, text::views(files@)),
{
    let ghost views = text::views(files@);
    if let Some(at) = best_entry(files, ProjectKind::Solution) {
        assert(is_best(views, ProjectKind::Solution, at as int, views.len() as int));
        let path = paths::join_path(root, files[at].as_str());
        assert(path@ == paths::below(root@, views[at as int]));
        return CSharpProject { path, kind: ProjectKind::Solution };
    }
    if let Some(at) = best_entry(files, ProjectKind::Project) {
        assert(is_best(views, ProjectKind::Project, at as int, views.len() as int));
        let path = paths::join_path(root, files[at].as_str());
        assert(path@ == paths::below(root@, views[at as int]));
        return CSharpProject { path, kind: ProjectKind::Project };
    }
    CSharpProject { path: root.to_owned(), kind: ProjectKind::Root }
}

/// The entry point does not depend on the order in which the files are listed, nor on
/// anything but the files: two discoveries over the same files agree.
pub proof fn law_discovery_is_deterministic(
    root: Seq<char>,
    files: Seq<Seq<char>>,
    others: Seq<Seq<char>>,
    first: CSharpProject,
    second: CSharpProject,
)
    requires
        forall|file: Seq<char>| files.contains(file) <==> others.contains(file),
        is_entry_point(first, root, files),
        is_entry_point(second, root, others),
    ensures
        first.kind == second.kind,
        first.path@ == second.path@,
{
    lemma_same_entries(files, others, ProjectKind::Solution);
    lemma_same_entries(files, others, ProjectKind::Project);
    let n = files.len() as int;
    let m = others.len() as int;
    if first.kind == ProjectKind::Solution {
        let a = choose|at: int| #[trigger]
            is_best(files, ProjectKind::Solution, at, n) && first.path@ == paths::below(
                root,
                files[at],
            );
        lemma_best_is_not_none(files, ProjectKind::Solution, a);
        let b = choose|at: int| #[trigger]
            is_best(others, ProjectKind::Solution, at, m) && second.path@ == paths::below(
                root,
                others[at],
            );
        lemma_one_best(files, others, ProjectKind::Solution, a, b);
    } else if second.kind == ProjectKind::Solution {
        let b = choose|at: int| #[trigger]
            is_best(others, ProjectKind::Solution, at, m) && second.path@ == paths::below(
                root,
                others[at],
            );
        lemma_best_is_not_none(others, ProjectKind::Solution, b);
    } else if first.kind == ProjectKind::Project {
        let a = choose|at: int| #[trigger]
            is_best(files, ProjectKind::Project, at, n) && first.path@ == paths::below(
                root,
                files[at],
            );
        lemma_best_is_not_none(files, ProjectKind::Project, a);
        let b = choose|at: int| #[trigger]
            is_best(others, ProjectKind::Project, at, m) && second.path@ == paths::below(
                root,
                others[at],
            );
        lemma_one_best(files, others, ProjectKind::Project, a, b);
    } else if second.kind == ProjectKind::Project {
        let b = choose|at: int| #[trigger]
            is_best(others, ProjectKind::Project, at, m) && second.path@ == paths::below(
                root,
                others[at],
            );
        lemma_best_is_not_none(others, ProjectKind::Project, b);
    }
}

proof fn lemma_best_is_not_none(files: Seq<Seq<char>>, kind: ProjectKind, at: int)
    requires
        is_best(files, kind, at, files.len() as int),
    ensures
        !has_none(files, kind, files.len() as int),
{
    assert(is_entry(text::split(files[at], '/'), kind));
}

proof fn lemma_same_entries(files: Seq<Seq<char>>, others: Seq<Seq<char>>, kind: ProjectKind)
    requires
        forall|file: Seq<char>| files.contains(file) <==> others.contains(file),
    ensures
        has_none(files, kind, files.len() as int) == has_none(others, kind, others.len() as int),
{
    if has_none(files, kind, files.len() as int) {
        assert forall|k: int| 0 <= k < others.len() implies !is_entry(
            #[trigger] text::split(others[k], '/'),
            kind,
        ) by {
            assert(others.contains(others[k]));
            let j = files.index_of(others[k]);
            assert(!is_entry(text::split(files[j], '/'), kind));
        }
    }
    if has_none(others, kind, others.len() as int) {
        assert forall|k: int| 0 <= k < files.len() implies !is_entry(
            #[trigger] text::split(files[k], '/'),
            kind,
        ) by {
            assert(files.contains(files[k]));
            let j = others.index_of(files[k]);
            assert(!is_entry(text::split(others[j], '/'), kind));
        }
    }
}

proof fn lemma_one_best(
    files: Seq<Seq<char>>,
    others: Seq<Seq<char>>,
    kind: ProjectKind,
    a: int,
    b: int,
)
    requires
        forall|file: Seq<char>| files.contains(file) <==> others.contains(file),
        is_best(files, kind, a, files.len() as int),
        is_best(others, kind, b, others.len() as int),
    ensures
        files[a] == others[b],
{
    let x = text::split(files[a], '/');
    let y = text::split(others[b], '/');
    assert(files.contains(files[a]));
    assert(others.contains(others[b]));
    let i = others.index_of(files[a]);
    let j = files.index_of(others[b]);
    assert(!preferred(text::split(files[j], '/'), x));
    assert(!preferred(text::split(others[i], '/'), y));
    lemma_parts_precede_total(x, y);
    paths::lemma_split_is_injective(files[a], others[b], '/');
}

proof fn lemma_parts_precede_total(a: Seq<Seq<char>>, b: Seq<Seq<char>>)
    requires
        a.len() == b.len(),
    ensures
        a == b || parts_precede(a, b) || parts_precede(b, a),
    decreases a.len(),
{
    if a.len() == 0 {
        assert(a =~= b);
    } else if a[0] == b[0] {
        lemma_parts_precede_total(a.drop_first(), b.drop_first());
        if a.drop_first() == b.drop_first() {
            assert(a =~= seq![a[0]] + a.drop_first());
            assert(b =~= seq![b[0]] + b.drop_first());
        }
    } else {
        order::lemma_precedes_total(a[0], b[0]);
    }
}

/// The server as it is configured. It says how it is started and initialized; it is no
/// process.
#[derive(Debug)]
pub struct CSharpServer {
    pub config: CSharpLspConfig,
    pub timeout_seconds: u64,
}

impl CSharpServer {
    /// The server of a configuration. The timeout is the one that all servers share.
    pub fn new(config: &CSharpLspConfig, timeout_seconds: u64) -> (r: Self)
        ensures
            r.config.path == config.path,
            text::views(r.config.args@) == text::views(config.args@),
            r.config.disabled == config.disabled,
            r.timeout_seconds == timeout_seconds,
    {
        CSharpServer { config: config.clone(), timeout_seconds }
    }

    /// The identifier of the language.
    pub fn language_identifier(&self) -> (r: &'static str)
        ensures
            r@ == "csharp"@,
    {
        LANGUAGE_IDENTIFIER
    }

    /// The extension of the source files, without its dot.
    pub fn extension(&self) -> (r: &'static str)
        ensures
            r@ == "cs"@,
    {
        EXTENSION
    }

    /// The name of the server.
    pub fn provider(&self) -> (r: &'static str)
        ensures
            r@ == Provider::CSharpLs.name(),
    {
        Provider::CSharpLs.as_str()
    }

    /// The identifiers of the languages that the server can navigate.
    pub fn languages(&self) -> (r: Vec<&'static str>)
        ensures
            adapter::names_of(r@) == Provider::CSharpLs.navigates(),
    {
        Provider::CSharpLs.languages()
    }

    /// The server is configured and not explicitly disabled.
    pub open spec fn is_enabled(self) -> bool {
        !self.config.disabled && crate::config::has_path(self.config.path)
    }

    /// Whether the server is configured and not explicitly disabled.
    pub fn enabled(&self) -> (r: bool)
        ensures
            r == self.is_enabled(),
    {
        self.config.enabled()
    }

    /// The configured executable.
    pub fn executable(&self) -> (r: Option<&str>)
        ensures
            match r {
                Some(path) => self.config.path is Some && path@ == self.config.path->0@,
                None => self.config.path is None,
            },
    {
        match &self.config.path {
            Some(path) => Some(path.as_str()),
            None => None,
        }
    }

    /// The configured arguments.
    pub fn args(&self) -> (r: &[String])
        ensures
            r@ == self.config.args@,
    {
        &self.config.args
    }

    /// The timeout of a request, in seconds.
    pub fn timeout(&self) -> (r: u64)
        ensures
            r == self.timeout_seconds,
    {
        self.timeout_seconds
    }

    /// The configured command.
    pub fn configured_command(&self) -> (r: Option<String>)
        ensures
            r == self.config.path,
    {
        text::clone_option(&self.config.path)
    }

    /// The name of the readiness component of the server.
    pub fn readiness_component_name(&self) -> (r: &'static str)
        ensures
            r@ == Provider::CSharpLs.component(),
    {
        Provider::CSharpLs.readiness_component_name()
    }

    /// How the server is started in `root`.
    pub open spec fn transport(self, root: Seq<char>) -> Option<TransportView> {
        adapter::server_transport(
            Provider::CSharpLs,
            self.config.path,
            text::views(self.config.args@),
            self.config.disabled,
            root,
            self.timeout_seconds,
        )
    }

    /// How the server is started in `root`; `None` where it is not enabled.
    pub fn transport_config(&self, root: &str) -> (r: Option<TransportConfig>)
        ensures
            match r {
                Some(transport) => self.transport(root@) == Some(transport@),
                None => self.transport(root@) is None,
            },
    {
        adapter::optional_transport(
            Provider::CSharpLs,
            &self.config.path,
            &self.config.args,
            self.config.disabled,
            root,
            self.timeout_seconds,
        )
    }

    /// The parameters of the `initialize` request for a workspace with a given address and
    /// entry point.
    pub open spec fn initialization(
        self,
        project: Seq<char>,
        root_uri: Seq<char>,
        process_id: u32,
    ) -> Option<Document> {
        if self.is_enabled() {
            Some(
                adapter::handshake(
                    process_id,
                    root_uri,
                    adapter::folder_name(project),
                    adapter::symbol_capabilities(),
                    json::single("csharpLspProject"@, Document::Text(project)),
                ),
            )
        } else {
            None
        }
    }

    /// The parameters of the `initialize` request for a workspace with a given address and
    /// entry point; `None` where the server is not enabled. The entry point is metadata:
    /// the root stays the workspace itself.
    pub fn initialize_with(
        &self,
        project: &CSharpProject,
        root_uri: &str,
        process_id: u32,
    ) -> (r: Option<Json>)
        ensures
            match r {
                Some(params) => self.initialization(project.path@, root_uri@, process_id) == Some(
                    json::document(params),
                ),
                None => self.initialization(project.path@, root_uri@, process_id) is None,
            },
    {
        if !self.enabled() {
            return None;
        }
        let name = adapter::folder_name_of(project.path.as_str());
        Some(
            adapter::handshake_of(
                process_id,
                root_uri,
                name.as_str(),
                adapter::symbol_capabilities_of(),
                json::object("csharpLspProject", Json::text(project.path.as_str())),
            ),
        )
    }

    /// The parameters of the `initialize` request for a workspace with the given files;
    /// `None` where the server is not enabled or the platform has no address for the
    /// workspace.
    pub fn initialize_params(&self, root: &str, files: &[String], process_id: u32) -> (r: Option<
        Json,
    >)
        ensures
            !self.is_enabled() ==> r is None,
            self.is_enabled() ==> exists|project: CSharpProject, answer: Option<Seq<char>>|
                #[trigger] is_entry_point(project, root@, text::views(files@)) && #[trigger]
                adapter::is_directory_answer(root@, answer) && json::opt_document(r) == (
                match answer {
                    Some(root_uri) => self.initialization(project.path@, root_uri, process_id),
                    None => None,
                }),
    {
        if !self.enabled() {
            return None;
        }
        let project = discover_project(root, files);
        let address = adapter::directory_address(root);
        assert(adapter::is_directory_answer(root@, paths::opt_view(address)));
        match address {
            Some(root_uri) => self.initialize_with(&project, root_uri.as_str(), process_id),
            None => None,
        }
    }
}

/// The entry point of a workspace is a solution where there is one, else a project, and else
/// the workspace itself. It is one of the files, in no directory that is skipped, and none of
/// its kind is less deep.
pub proof fn law_the_entry_point_is_the_least_deep(
    project: CSharpProject,
    root: Seq<char>,
    files: Seq<Seq<char>>,
    k: int,
)
    requires
        is_entry_point(project, root, files),
        0 <= k < files.len(),
    ensures
        ({
            let parts = text::split(files[k], '/');
            let open = forall|i: int|
                0 <= i < parts.len() - 1 ==> !is_skipped(#[trigger] parts[i]);
            let solution = parts.len() > 0 && open && text::ends_with(parts.last(), ".sln"@);
            let other = parts.len() > 0 && open && text::ends_with(parts.last(), ".csproj"@)
                && !text::ends_with(parts.last(), ".sln"@);
            match project.kind {
                ProjectKind::Solution => exists|at: int|
                    {
                        &&& 0 <= at < files.len()
                        &&& project.path@ == paths::below(root, #[trigger] files[at])
                        &&& text::ends_with(text::split(files[at], '/').last(), ".sln"@)
                        &&& solution ==> text::split(files[at], '/').len() <= parts.len()
                    },
                ProjectKind::Project => !solution && exists|at: int|
                    {
                        &&& 0 <= at < files.len()
                        &&& project.path@ == paths::below(root, #[trigger] files[at])
                        &&& text::ends_with(text::split(files[at], '/').last(), ".csproj"@)
                        &&& other ==> text::split(files[at], '/').len() <= parts.len()
                    },
                ProjectKind::Root => !solution && !other && project.path@ == root,
            }
        }),
{
    let n = files.len() as int;
    let parts = text::split(files[k], '/');
    match project.kind {
        ProjectKind::Solution => {
            let at = choose|at: int| #[trigger]
                is_best(files, ProjectKind::Solution, at, n) && project.path@ == paths::below(
                    root,
                    files[at],
                );
            assert(is_entry(text::split(files[at], '/'), ProjectKind::Solution));
            if is_entry(parts, ProjectKind::Solution) {
                assert(!preferred(parts, text::split(files[at], '/')));
            }
            assert(project.path@ == paths::below(root, files[at]));
        },
        ProjectKind::Project => {
            let at = choose|at: int| #[trigger]
                is_best(files, ProjectKind::Project, at, n) && project.path@ == paths::below(
                    root,
                    files[at],
                );
            assert(is_entry(text::split(files[at], '/'), ProjectKind::Project));
            if is_entry(parts, ProjectKind::Project) {
                assert(!preferred(parts, text::split(files[at], '/')));
            }
            assert(!is_entry(parts, ProjectKind::Solution));
            assert(project.path@ == paths::below(root, files[at]));
        },
        ProjectKind::Root => {
            assert(!is_entry(parts, ProjectKind::Solution));
            assert(!is_entry(parts, ProjectKind::Project));
        },
    }
}

/// Directories of build output and dependencies are skipped, and so are those whose name
/// starts with a dot. All others are searched.
pub proof fn law_output_and_dependencies_are_skipped(name: Seq<char>)
    ensures
        is_skipped(name) <==> (name.len() > 0 && name[0] == '.') || seq![
            "bin"@,
            "obj"@,
            "node_modules"@,
            "target"@,
            "packages"@,
        ].contains(name),
{
    let list = seq!["bin"@, "obj"@, "node_modules"@, "target"@, "packages"@];
    reveal_strlit(".");
    assert("."@ =~= seq!['.']);
    if name.len() > 0 {
        assert(name.subrange(0, 1) =~= seq![name[0]]);
        assert(seq![name[0]][0] == name[0] && seq!['.'][0] == '.');
    }
    assert(list[0] == "bin"@ && list[1] == "obj"@ && list[2] == "node_modules"@ && list[3]
        == "target"@ && list[4] == "packages"@);
    if list.contains(name) {
        let i = choose|i: int| 0 <= i < list.len() && list[i] == name;
        assert(i == 0 || i == 1 || i == 2 || i == 3 || i == 4);
    }
}

/// Where two lists of names differ first, the first one has the lesser name.
pub open spec fn in_front(a: Seq<Seq<char>>, b: Seq<Seq<char>>) -> bool {
    exists|d: int|
        {
            &&& 0 <= d < a.len()
            &&& d < b.len()
            &&& a.take(d) == b.take(d)
            &&& order::precedes(#[trigger] a[d], b[d])
        }
}

proof fn lemma_in_front(a: Seq<Seq<char>>, b: Seq<Seq<char>>)
    requires
        a.len() == b.len(),
        a != b,
        !parts_precede(b, a),
    ensures
        in_front(a, b),
    decreases a.len(),
{
    if a.len() == 0 {
        assert(a =~= b);
    } else if a[0] == b[0] {
        let (x, y) = (a.drop_first(), b.drop_first());
        if x == y {
            assert(a =~= seq![a[0]] + x);
            assert(b =~= seq![b[0]] + y);
        }
        lemma_in_front(x, y);
        let d = choose|d: int|
            {
                &&& 0 <= d < x.len()
                &&& d < y.len()
                &&& x.take(d) == y.take(d)
                &&& order::precedes(#[trigger] x[d], y[d])
            };
        assert(a.take(d + 1) =~= seq![a[0]] + x.take(d));
        assert(b.take(d + 1) =~= seq![b[0]] + y.take(d));
        assert(x[d] == a[d + 1] && y[d] == b[d + 1]);
        assert(order::precedes(a[d + 1], b[d + 1]));
    } else {
        order::lemma_precedes_total(a[0], b[0]);
        assert(a.take(0) =~= b.take(0));
        assert(order::precedes(a[0], b[0]));
    }
}

/// Of equally deep entry points the first one by name is chosen.
pub proof fn law_equally_deep_entry_points_go_by_name(
    project: CSharpProject,
    root: Seq<char>,
    files: Seq<Seq<char>>,
)
    requires
        is_entry_point(project, root, files),
        project.kind != ProjectKind::Root,
    ensures
        exists|at: int|
            {
                &&& 0 <= at < files.len()
                &&& project.path@ == paths::below(root, #[trigger] files[at])
                &&& forall|k: int|
                    0 <= k < files.len() && is_entry(
                        #[trigger] text::split(files[k], '/'),
                        project.kind,
                    ) && text::split(files[k], '/').len() == text::split(files[at], '/').len()
                        && text::split(files[k], '/') != text::split(files[at], '/') ==> in_front(
                        text::split(files[at], '/'),
                        text::split(files[k], '/'),
                    )
            },
{
    let n = files.len() as int;
    let at = choose|at: int| #[trigger]
        is_best(files, project.kind, at, n) && project.path@ == paths::below(root, files[at]);
    assert(is_best(files, project.kind, at, n));
    assert forall|k: int|
        0 <= k < files.len() && is_entry(#[trigger] text::split(files[k], '/'), project.kind)
            && text::split(files[k], '/').len() == text::split(files[at], '/').len()
            && text::split(files[k], '/') != text::split(files[at], '/') implies in_front(
        text::split(files[at], '/'),
        text::split(files[k], '/'),
    ) by {
        lemma_in_front(text::split(files[at], '/'), text::split(files[k], '/'));
    }
    assert(project.path@ == paths::below(root, files[at]));
}

/// The server is told about the workspace if and only if it is configured: who the client
/// is, where the workspace is, and what its entry point is.
pub proof fn law_the_server_is_told_about_the_entry_point(
    server: CSharpServer,
    project: Seq<char>,
    root_uri: Seq<char>,
    process_id: u32,
)
    ensures
        server.initialization(project, root_uri, process_id) is Some <==> !server.config.disabled
            && server.config.path is Some && !text::blank(server.config.path->0@),
        server.initialization(project, root_uri, process_id) matches Some(told) ==> {
            &&& told.field("processId"@) == Document::Unsigned(process_id as u64)
            &&& told.field("rootUri"@) == Document::Text(root_uri)
            &&& told.field("initializationOptions"@).field("csharpLspProject"@) == Document::Text(
                project,
            )
        },
{
    let options = json::single("csharpLspProject"@, Document::Text(project));
    adapter::law_the_handshake_tells_where_the_workspace_is(
        process_id,
        root_uri,
        adapter::folder_name(project),
        adapter::symbol_capabilities(),
        options,
    );
    reveal_with_fuel(json::place, 2);
    assert(json::place(options->Object_0, "csharpLspProject"@, 0) == 0);
}

} // verus!

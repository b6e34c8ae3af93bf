//! What the language servers have in common.

use crate::config::{self, Config};
use crate::json::{self, Document, Json};
use crate::lsp::transport::{TransportConfig, TransportView};
use crate::{paths, text};
use vstd::prelude::*;

verus! {

/// A language server that the application knows.
#[derive(Debug, Clone, Copy, PartialEq, Eq, Structural)]
pub enum Provider {
    RustAnalyzer,
    CSharpLs,
    TypeScriptLanguageServer,
    Pyright,
    Gopls,
    Jdtls,
    Clangd,
}

/// The views of a list of string literals.
pub open spec fn names_of(list: Seq<&'static str>) -> Seq<Seq<char>> {
    list.map_values(|name: &'static str| name@)
}

impl Provider {
    /// The name of the server in locations, warnings and readiness details.
    pub open spec fn name(self) -> Seq<char> {
        match self {
            Provider::RustAnalyzer => "rust-analyzer"@,
            Provider::CSharpLs => "csharp-ls"@,
            Provider::TypeScriptLanguageServer => "typescript-language-server"@,
            Provider::Pyright => "pyright"@,
            Provider::Gopls => "gopls"@,
            Provider::Jdtls => "jdtls"@,
            Provider::Clangd => "clangd"@,
        }
    }

    /// The identifiers of the languages that the server can navigate.
    pub open spec fn navigates(self) -> Seq<Seq<char>> {
        match self {
            Provider::RustAnalyzer => seq!["rust"@],
            Provider::CSharpLs => seq!["csharp"@],
            Provider::TypeScriptLanguageServer => seq![
                "typescript"@,
                "tsx"@,
                "javascript"@,
                "jsx"@,
            ],
            Provider::Pyright => seq!["python"@],
            Provider::Gopls => seq!["go"@],
            Provider::Jdtls => seq!["java"@],
            Provider::Clangd => seq!["c"@, "cpp"@],
        }
    }

    /// The name of the readiness component of the server.
    pub open spec fn component(self) -> Seq<char> {
        match self {
            Provider::RustAnalyzer => "rust_analyzer_available"@,
            Provider::CSharpLs => "csharp_language_server_available"@,
            Provider::TypeScriptLanguageServer => "typescript_language_server_available"@,
            Provider::Pyright => "python_language_server_available"@,
            Provider::Gopls => "go_language_server_available"@,
            Provider::Jdtls => "java_language_server_available"@,
            Provider::Clangd => "clangd_available"@,
        }
    }

    /// The flag that the server is always started with, in front of the configured
    /// arguments: the servers that would not speak over standard input and output without
    /// it.
    pub open spec fn leading(self) -> Seq<Seq<char>> {
        match self {
            Provider::TypeScriptLanguageServer | Provider::Pyright => seq!["--stdio"@],
            _ => seq![],
        }
    }

    /// The name of the server in locations, warnings and readiness details.
    pub fn as_str(self) -> (r: &'static str)
        ensures
            r@ == self.name(),
    {
        match self {
            Provider::RustAnalyzer => "rust-analyzer",
            Provider::CSharpLs => "csharp-ls",
            Provider::TypeScriptLanguageServer => "typescript-language-server",
            Provider::Pyright => "pyright",
            Provider::Gopls => "gopls",
            Provider::Jdtls => "jdtls",
            Provider::Clangd => "clangd",
        }
    }

    /// The identifiers of the languages that the server can navigate.
    pub fn languages(self) -> (r: Vec<&'static str>)
        ensures
            names_of(r@) == self.navigates(),
    {
        let mut out: Vec<&'static str> = Vec::new();
        match self {
            Provider::RustAnalyzer => out.push("rust"),
            Provider::CSharpLs => out.push("csharp"),
            Provider::TypeScriptLanguageServer => {
                out.push("typescript");
                out.push("tsx");
                out.push("javascript");
                out.push("jsx");
            },
            Provider::Pyright => out.push("python"),
            Provider::Gopls => out.push("go"),
            Provider::Jdtls => out.push("java"),
            Provider::Clangd => {
                out.push("c");
                out.push("cpp");
            },
        }
        assert(names_of(out@) =~= self.navigates());
        out
    }

    /// The name of the readiness component of the server.
    pub fn readiness_component_name(self) -> (r: &'static str)
        ensures
            r@ == self.component(),
    {
        match self {
            Provider::RustAnalyzer => "rust_analyzer_available",
            Provider::CSharpLs => "csharp_language_server_available",
            Provider::TypeScriptLanguageServer => "typescript_language_server_available",
            Provider::Pyright => "python_language_server_available",
            Provider::Gopls => "go_language_server_available",
            Provider::Jdtls => "java_language_server_available",
            Provider::Clangd => "clangd_available",
        }
    }

    /// Report whether the server can navigate a language.
    pub fn knows(self, language: &str) -> (r: bool)
        ensures
            r == self.navigates().contains(language@),
    {
        let list = self.languages();
        let mut i: usize = 0;
        while i < list.len()
            invariant
                i <= list@.len(),
                names_of(list@) == self.navigates(),
                forall|k: int| 0 <= k < i ==> #[trigger] self.navigates()[k] != language@,
            decreases list@.len() - i,
        {
            assert(self.navigates()[i as int] == list@[i as int]@);
            if text::str_eq(list[i], language) {
                return true;
            }
            i = i + 1;
        }
        false
    }
}

/// A language server as it is configured.
#[derive(Debug)]
pub struct AdapterInfo {
    pub provider: Provider,
    /// The server is configured and not explicitly disabled.
    pub enabled: bool,
    /// The configured command.
    pub command: Option<String>,
}

/// A server that runs where it is configured and not disabled.
pub open spec fn optional_server(
    provider: Provider,
    path: Option<String>,
    disabled: bool,
) -> AdapterInfo {
    AdapterInfo { provider, enabled: !disabled && config::has_path(path), command: path }
}

/// The language servers of a configuration.
pub open spec fn registry(config: Config) -> Seq<AdapterInfo> {
    seq![
        AdapterInfo {
            provider: Provider::RustAnalyzer,
            enabled: true,
            command: Some(config.rust_analyzer_path),
        },
        optional_server(Provider::CSharpLs, config.csharp.path, config.csharp.disabled),
        optional_server(
            Provider::TypeScriptLanguageServer,
            config.typescript.path,
            config.typescript.disabled,
        ),
        optional_server(Provider::Pyright, config.python.path, config.python.disabled),
    ]
}

/// The language servers of a configuration. rust-analyzer is always enabled; the others
/// are where they are configured and not disabled.
pub fn adapters(config: &Config) -> (r: Vec<AdapterInfo>)
    ensures
        r@ == registry(*config),
{
    let mut out: Vec<AdapterInfo> = Vec::new();
    out.push(
        AdapterInfo {
            provider: Provider::RustAnalyzer,
            enabled: true,
            command: Some(config.rust_analyzer_path.clone()),
        },
    );
    out.push(
        AdapterInfo {
            provider: Provider::CSharpLs,
            enabled: config.csharp.enabled(),
            command: text::clone_option(&config.csharp.path),
        },
    );
    out.push(
        AdapterInfo {
            provider: Provider::TypeScriptLanguageServer,
            enabled: config.typescript.enabled(),
            command: text::clone_option(&config.typescript.path),
        },
    );
    out.push(
        AdapterInfo {
            provider: Provider::Pyright,
            enabled: config.python.enabled(),
            command: text::clone_option(&config.python.path),
        },
    );
    assert(out@ =~= registry(*config));
    out
}

/// The places of the first `upto` servers that can navigate a language.
pub open spec fn navigators(
    list: Seq<AdapterInfo>,
    language: Seq<char>,
    upto: nat,
) -> Seq<usize>
    decreases upto,
{
    if upto == 0 || upto > list.len() {
        seq![]
    } else {
        let before = navigators(list, language, (upto - 1) as nat);
        if list[upto - 1].provider.navigates().contains(language) {
            before.push((upto - 1) as usize)
        } else {
            before
        }
    }
}

/// The places of the servers that can navigate a language.
pub fn adapters_for_language(list: &[AdapterInfo], language: &str) -> (r: Vec<usize>)
    ensures
        r@ == navigators(list@, language@, list@.len()),
{
    let mut out: Vec<usize> = Vec::new();
    let mut i: usize = 0;
    while i < list.len()
        invariant
            i <= list@.len(),
            out@ == navigators(list@, language@, i as nat),
        decreases list@.len() - i,
    {
        if list[i].provider.knows(language) {
            out.push(i);
        }
        i = i + 1;
    }
    out
}

/// A server navigates a language if and only if its place is found for it.
pub proof fn law_the_navigators_of_a_language(
    list: Seq<AdapterInfo>,
    language: Seq<char>,
    upto: nat,
    at: usize,
)
    requires
        upto <= list.len() <= usize::MAX,
    ensures
        navigators(list, language, upto).contains(at) <==> (at < upto
            && list[at as int].provider.navigates().contains(language)),
    decreases upto,
{
    if upto > 0 {
        law_the_navigators_of_a_language(list, language, (upto - 1) as nat, at);
        let before = navigators(list, language, (upto - 1) as nat);
        let last = (upto - 1) as usize;
        assert(before.push(last).contains(at) <==> before.contains(at) || at == last) by {
            if before.contains(at) {
                let k = before.index_of(at);
                assert(before.push(last)[k] == at);
            }
            if at == last {
                assert(before.push(last)[before.len() as int] == at);
            }
        }
    } else {
        assert(!navigators(list, language, 0).contains(at));
    }
}

/// An enabled server navigates one of the languages.
pub open spec fn is_applicable(server: AdapterInfo, languages: Seq<Seq<char>>) -> bool {
    server.enabled && exists|i: int|
        0 <= i < languages.len() && server.provider.navigates().contains(#[trigger] languages[i])
}

/// The places of the first `upto` servers that apply to the languages.
pub open spec fn applicable(
    list: Seq<AdapterInfo>,
    languages: Seq<Seq<char>>,
    upto: nat,
) -> Seq<usize>
    decreases upto,
{
    if upto == 0 || upto > list.len() {
        seq![]
    } else {
        let before = applicable(list, languages, (upto - 1) as nat);
        if is_applicable(list[upto - 1], languages) {
            before.push((upto - 1) as usize)
        } else {
            before
        }
    }
}

fn applies(server: &AdapterInfo, languages: &[String]) -> (r: bool)
    ensures
        r == is_applicable(*server, text::views(languages@)),
{
    if !server.enabled {
        return false;
    }
    let ghost views = text::views(languages@);
    let mut i: usize = 0;
    while i < languages.len()
        invariant
            i <= languages@.len(),
            views == text::views(languages@),
            forall|k: int|
                0 <= k < i ==> !server.provider.navigates().contains(#[trigger] views[k]),
            server.enabled,
        decreases languages@.len() - i,
    {
        assert(views[i as int] == languages@[i as int]@);
        if server.provider.knows(languages[i].as_str()) {
            return true;
        }
        i = i + 1;
    }
    false
}

/// The places of the enabled servers that navigate one of the languages.
pub fn applicable_adapters(list: &[AdapterInfo], languages: &[String]) -> (r: Vec<usize>)
    ensures
        r@ == applicable(list@, text::views(languages@), list@.len()),
{
    let mut out: Vec<usize> = Vec::new();
    let mut i: usize = 0;
    while i < list.len()
        invariant
            i <= list@.len(),
            out@ == applicable(list@, text::views(languages@), i as nat),
        decreases list@.len() - i,
    {
        if applies(&list[i], languages) {
            out.push(i);
        }
        i = i + 1;
    }
    out
}

// ---------------------------------------------------------------------------
// Starting a server
// ---------------------------------------------------------------------------

/// How a server is started that runs where it is configured and not disabled.
pub open spec fn server_transport(
    provider: Provider,
    path: Option<String>,
    args: Seq<Seq<char>>,
    disabled: bool,
    root: Seq<char>,
    timeout_seconds: u64,
) -> Option<TransportView> {
    if !disabled && config::has_path(path) {
        Some(
            TransportView {
                executable: path->0@,
                args: provider.leading() + args,
                working_dir: root,
                timeout_seconds,
                label: provider.name(),
            },
        )
    } else {
        None
    }
}

/// How a server is started that runs where it is configured and not disabled.
pub fn optional_transport(
    provider: Provider,
    path: &Option<String>,
    args: &[String],
    disabled: bool,
    root: &str,
    timeout_seconds: u64,
) -> (r: Option<TransportConfig>)
    ensures
        match r {
            Some(transport) => server_transport(
                provider,
                *path,
                text::views(args@),
                disabled,
                root@,
                timeout_seconds,
            ) == Some(transport@),
            None => server_transport(
                provider,
                *path,
                text::views(args@),
                disabled,
                root@,
                timeout_seconds,
            ) is None,
        },
{
    if disabled || !config::path_is_set(path) {
        return None;
    }
    let executable = match path {
        Some(executable) => executable.clone(),
        None => {
            return None;
        },
    };
    let mut all: Vec<String> = Vec::new();
    match provider {
        Provider::TypeScriptLanguageServer | Provider::Pyright => {
            all.push("--stdio".to_owned());
        },
        _ => {},
    }
    let mut configured = text::clone_texts(args);
    let ghost leading = all@;
    let ghost behind = configured@;
    all.append(&mut configured);
    proof {
        assert(text::views(leading) =~= provider.leading());
        assert(text::views(all@) =~= text::views(leading) + text::views(behind));
    }
    Some(
        TransportConfig {
            executable,
            args: all,
            working_dir: root.to_owned(),
            timeout_seconds,
            label: provider.as_str().to_owned(),
        },
    )
}

/// What platforms answer for the address of a directory: one of them may have an address
/// where another has none.
pub uninterp spec fn directory_answers(path: Seq<char>) -> Set<Option<Seq<char>>>;

/// A platform may answer this for the address of a directory. An address is one of a file,
/// with a slash at its end.
pub open spec fn is_directory_answer(path: Seq<char>, answer: Option<Seq<char>>) -> bool {
    &&& directory_answers(path).contains(answer)
    &&& answer is Some ==> text::starts_with(answer->0, "file://"@) && text::ends_with(
        answer->0,
        "/"@,
    )
}

/// Calls `reqwest::Url::from_directory_path`. Which paths are absolute, and the address of
/// one that is, depend on the path and the platform: the answer is one of those that
/// platforms give for the path, and which of them is left open. An address has the scheme
/// `file` and a slash at its end.
#[verifier::external_body]
pub(crate) fn directory_address(path: &str) -> (r: Option<String>)
    ensures
        directory_answers(path@).contains(paths::opt_view(r)),
        r is Some ==> text::starts_with(r->0@, "file://"@) && text::ends_with(r->0@, "/"@),
{
    Some(reqwest::Url::from_directory_path(path).ok()?.to_string())
}

/// The name of a workspace folder: the last name of its path.
pub open spec fn folder_name(path: Seq<char>) -> Seq<char> {
    match paths::file_name(path) {
        Some(name) => name,
        None => "workspace"@,
    }
}

/// The name of a workspace folder: the last name of its path.
pub fn folder_name_of(path: &str) -> (r: String)
    ensures
        r@ == folder_name(path@),
{
    match paths::file_name_of(path) {
        Some(name) => name,
        None => "workspace".to_owned(),
    }
}

/// The parameters of the `initialize` request.
pub open spec fn handshake(
    process_id: u32,
    root_uri: Seq<char>,
    name: Seq<char>,
    capabilities: Document,
    options: Document,
) -> Document {
    Document::Object(
        seq![
            ("processId"@, Document::Unsigned(process_id as u64)),
            ("rootUri"@, Document::Text(root_uri)),
            ("capabilities"@, capabilities),
            (
                "workspaceFolders"@,
                Document::List(
                    seq![
                        Document::Object(
                            seq![
                                ("uri"@, Document::Text(root_uri)),
                                ("name"@, Document::Text(name)),
                            ],
                        ),
                    ],
                ),
            ),
            ("initializationOptions"@, options),
        ],
    )
}

/// The parameters of the `initialize` request.
pub fn handshake_of(
    process_id: u32,
    root_uri: &str,
    name: &str,
    capabilities: Json,
    options: Json,
) -> (r: Json)
    ensures
        json::document(r) == handshake(
            process_id,
            root_uri@,
            name@,
            json::document(capabilities),
            json::document(options),
        ),
{
    let folder = json::with(json::object("uri", Json::text(root_uri)), "name", Json::text(name));
    let ghost folder_says = json::document(folder);
    let folders = json::list_of(folder);
    let first = json::object("processId", Json::Unsigned(process_id as u64));
    let second = json::with(first, "rootUri", Json::text(root_uri));
    let third = json::with(second, "capabilities", capabilities);
    let fourth = json::with(third, "workspaceFolders", folders);
    let r = json::with(fourth, "initializationOptions", options);
    proof {
        let uri_and_name = seq![
            ("uri"@, Document::Text(root_uri@)),
            ("name"@, Document::Text(name@)),
        ];
        assert(folder_says->Object_0 =~= uri_and_name);
        assert(json::document(r)->Object_0 =~= handshake(
            process_id,
            root_uri@,
            name@,
            json::document(capabilities),
            json::document(options),
        )->Object_0);
    }
    r
}

/// The capabilities of a client that asks for definitions and references in open
/// documents.
pub open spec fn position_capabilities(configuration: bool) -> Document {
    let none = Document::Object(seq![]);
    let workspace = seq![("symbol"@, none), ("workspaceFolders"@, Document::Bool(true))];
    Document::Object(
        seq![
            (
                "textDocument"@,
                Document::Object(
                    seq![("definition"@, none), ("references"@, none), ("synchronization"@, none)],
                ),
            ),
            (
                "workspace"@,
                Document::Object(
                    if configuration {
                        workspace.push(("configuration"@, Document::Bool(true)))
                    } else {
                        workspace
                    },
                ),
            ),
        ],
    )
}

/// The capabilities of a client that asks for definitions and references in open
/// documents.
pub fn position_capabilities_of(configuration: bool) -> (r: Json)
    ensures
        json::document(r) == position_capabilities(configuration),
{
    let documents = json::with(
        json::with(
            json::object("definition", json::empty_object()),
            "references",
            json::empty_object(),
        ),
        "synchronization",
        json::empty_object(),
    );
    let mut workspace = json::with(
        json::object("symbol", json::empty_object()),
        "workspaceFolders",
        Json::Bool(true),
    );
    if configuration {
        workspace = json::with(workspace, "configuration", Json::Bool(true));
    }
    let ghost document_says = json::document(documents);
    let ghost workspace_says = json::document(workspace);
    let r = json::with(json::object("textDocument", documents), "workspace", workspace);
    proof {
        let says = position_capabilities(configuration)->Object_0;
        assert(document_says->Object_0 =~= says[0].1->Object_0);
        assert(workspace_says->Object_0 =~= says[1].1->Object_0);
        assert(json::document(r)->Object_0 =~= says);
    }
    r
}

/// The capabilities of a client that asks for workspace symbols with their ranges.
pub open spec fn symbol_capabilities() -> Document {
    json::single(
        "workspace"@,
        json::single(
            "symbol"@,
            json::single(
                "resolveSupport"@,
                json::single(
                    "properties"@,
                    Document::List(seq![Document::Text("location.range"@)]),
                ),
            ),
        ),
    )
}

/// The capabilities of a client that asks for workspace symbols with their ranges.
pub fn symbol_capabilities_of() -> (r: Json)
    ensures
        json::document(r) == symbol_capabilities(),
{
    json::object(
        "workspace",
        json::object(
            "symbol",
            json::object(
                "resolveSupport",
                json::object("properties", json::list_of(Json::text("location.range"))),
            ),
        ),
    )
}

/// The notification that opens a document in a server.
pub open spec fn opened_document(
    uri: Seq<char>,
    language_id: Seq<char>,
    content: Seq<char>,
) -> Document {
    json::single(
        "textDocument"@,
        Document::Object(
            seq![
                ("uri"@, Document::Text(uri)),
                ("languageId"@, Document::Text(language_id)),
                ("version"@, Document::Unsigned(1)),
                ("text"@, Document::Text(content)),
            ],
        ),
    )
}

/// The parameters of the `textDocument/didOpen` notification.
pub fn open_document(uri: &str, language_id: &str, content: &str) -> (r: Json)
    ensures
        json::document(r) == opened_document(uri@, language_id@, content@),
{
    let with_language = json::with(
        json::object("uri", Json::text(uri)),
        "languageId",
        Json::text(language_id),
    );
    let with_version = json::with(with_language, "version", Json::Unsigned(1));
    let item = json::with(with_version, "text", Json::text(content));
    proof {
        let says = opened_document(uri@, language_id@, content@)->Object_0[0].1;
        assert(json::document(item)->Object_0 =~= says->Object_0);
    }
    json::object("textDocument", item)
}

/// How many seconds a server is given between the opening of a document and a request.
pub open spec fn head_start(timeout_seconds: u64, limit: u64) -> u64 {
    if timeout_seconds < limit {
        timeout_seconds
    } else {
        limit
    }
}

/// How many seconds a server is given before a request: its timeout, at most `limit`.
pub fn head_start_of(timeout_seconds: u64, limit: u64) -> (r: u64)
    ensures
        r == head_start(timeout_seconds, limit),
{
    if timeout_seconds < limit {
        timeout_seconds
    } else {
        limit
    }
}

/// A server applies if and only if it is enabled and navigates one of the languages; the
/// servers that apply stand as in the registry, each once.
pub proof fn law_the_servers_that_apply(
    list: Seq<AdapterInfo>,
    languages: Seq<Seq<char>>,
    upto: nat,
    at: usize,
)
    requires
        upto <= list.len() <= usize::MAX,
    ensures
        applicable(list, languages, upto).contains(at) <==> (at < upto && list[at as int].enabled
            && exists|i: int|
            0 <= i < languages.len() && list[at as int].provider.navigates().contains(
                #[trigger] languages[i],
            )),
        forall|a: int, b: int|
            0 <= a < b < applicable(list, languages, upto).len() ==> (#[trigger] applicable(
                list,
                languages,
                upto,
            )[a]) < (#[trigger] applicable(list, languages, upto)[b]),
        forall|a: int|
            0 <= a < applicable(list, languages, upto).len() ==> (#[trigger] applicable(
                list,
                languages,
                upto,
            )[a]) < upto,
    decreases upto,
{
    if upto > 0 {
        law_the_servers_that_apply(list, languages, (upto - 1) as nat, at);
        let before = applicable(list, languages, (upto - 1) as nat);
        let out = applicable(list, languages, upto);
        let last = (upto - 1) as usize;
        if before.contains(at) {
            let k = before.index_of(at);
            assert(out[k] == at);
        }
        if out.contains(at) {
            let k = out.index_of(at);
            if k < before.len() {
                assert(before[k] == at);
            }
        }
        if at == last && is_applicable(list[upto - 1], languages) {
            assert(out[out.len() - 1] == at);
        }
        assert forall|a: int| 0 <= a < out.len() implies (#[trigger] out[a]) < upto by {
            if a < before.len() {
                assert(out[a] == before[a]);
            }
        }
        assert forall|a: int, b: int| 0 <= a < b < out.len() implies (#[trigger] out[a]) < (
        #[trigger] out[b]) by {
            assert(out[a] == before[a]);
            if b < before.len() {
                assert(out[b] == before[b]);
            }
        }
    }
}

/// A server is started if and only if it is not disabled and its program is named: that
/// program, with the configured arguments behind its own, in the workspace.
pub proof fn law_servers_are_started_as_configured(
    provider: Provider,
    path: Option<String>,
    args: Seq<Seq<char>>,
    disabled: bool,
    root: Seq<char>,
    timeout_seconds: u64,
)
    ensures
        ({
            let start = server_transport(provider, path, args, disabled, root, timeout_seconds);
            &&& start is Some <==> !disabled && path is Some && !text::blank(path->0@)
            &&& start matches Some(how) ==> {
                &&& how.executable == path->0@
                &&& how.args.len() == provider.leading().len() + args.len()
                &&& how.args.skip(provider.leading().len() as int) == args
                &&& how.working_dir == root
                &&& how.timeout_seconds == timeout_seconds
            }
        }),
{
    assert((provider.leading() + args).skip(provider.leading().len() as int) =~= args);
}

/// A server that is optional is enabled if and only if it is configured with a program that
/// is named, and not disabled. The one for Rust is always enabled.
pub proof fn law_servers_are_enabled_as_configured(config: Config)
    ensures
        ({
            let list = registry(config);
            let named = |path: Option<String>| path is Some && !text::blank(path->0@);
            &&& list.len() == 4
            &&& list[0].provider == Provider::RustAnalyzer && list[0].enabled
            &&& list[0].command == Some(config.rust_analyzer_path)
            &&& list[1].provider == Provider::CSharpLs
            &&& list[1].enabled == (!config.csharp.disabled && named(config.csharp.path))
            &&& list[1].command == config.csharp.path
            &&& list[2].provider == Provider::TypeScriptLanguageServer
            &&& list[2].enabled == (!config.typescript.disabled && named(config.typescript.path))
            &&& list[2].command == config.typescript.path
            &&& list[3].provider == Provider::Pyright
            &&& list[3].enabled == (!config.python.disabled && named(config.python.path))
            &&& list[3].command == config.python.path
        }),
{
}

/// No two servers navigate one language, and a language that one navigates is not empty.
pub proof fn law_languages_have_one_server(a: Provider, b: Provider, language: Seq<char>)
    ensures
        a.navigates().contains(language) && b.navigates().contains(language) ==> a == b,
{
    reveal_strlit("rust");
    reveal_strlit("csharp");
    reveal_strlit("typescript");
    reveal_strlit("tsx");
    reveal_strlit("javascript");
    reveal_strlit("jsx");
    reveal_strlit("python");
    reveal_strlit("go");
    reveal_strlit("java");
    reveal_strlit("c");
    reveal_strlit("cpp");
    let (x, y) = (a.navigates(), b.navigates());
    if x.contains(language) && y.contains(language) {
        let i = choose|i: int| 0 <= i < x.len() && x[i] == language;
        let j = choose|j: int| 0 <= j < y.len() && y[j] == language;
        assert(x[i].len() == y[j].len() && x[i][0] == y[j][0]);
        assert(x[i].len() > 1 ==> x[i][1] == y[j][1]);
    }
}

/// The wait in front of a request is as long as its limit, and no longer than the timeout.
pub proof fn law_the_head_start_is_bounded(timeout_seconds: u64, limit: u64)
    ensures
        head_start(timeout_seconds, limit) <= timeout_seconds,
        head_start(timeout_seconds, limit) <= limit,
        head_start(timeout_seconds, limit) == timeout_seconds || head_start(timeout_seconds, limit)
            == limit,
{
}

/// The handshake tells the server who its client is, where the workspace is and what it is
/// called, what the client can do, and the options of the server.
pub proof fn law_the_handshake_tells_where_the_workspace_is(
    process_id: u32,
    root_uri: Seq<char>,
    name: Seq<char>,
    capabilities: Document,
    options: Document,
)
    ensures
        ({
            let told = handshake(process_id, root_uri, name, capabilities, options);
            let folders = told.field("workspaceFolders"@);
            &&& told.field("processId"@) == Document::Unsigned(process_id as u64)
            &&& told.field("rootUri"@) == Document::Text(root_uri)
            &&& told.field("capabilities"@) == capabilities
            &&& told.field("initializationOptions"@) == options
            &&& folders is List && folders->List_0.len() == 1
            &&& folders->List_0[0].field("uri"@) == Document::Text(root_uri)
            &&& folders->List_0[0].field("name"@) == Document::Text(name)
        }),
{
    reveal_strlit("processId");
    reveal_strlit("rootUri");
    reveal_strlit("capabilities");
    reveal_strlit("workspaceFolders");
    reveal_strlit("initializationOptions");
    reveal_strlit("uri");
    reveal_strlit("name");
    reveal_with_fuel(json::place, 6);
    let list = handshake(process_id, root_uri, name, capabilities, options)->Object_0;
    assert("processId"@.len() == 9 && "rootUri"@.len() == 7 && "capabilities"@.len() == 12
        && "workspaceFolders"@.len() == 16 && "initializationOptions"@.len() == 21);
    assert(json::place(list, "processId"@, 0) == 0);
    assert(json::place(list, "rootUri"@, 0) == 1);
    assert(json::place(list, "capabilities"@, 0) == 2);
    assert(json::place(list, "workspaceFolders"@, 0) == 3);
    assert(json::place(list, "initializationOptions"@, 0) == 4);
    let folder = list[3].1->List_0[0]->Object_0;
    assert("uri"@.len() != "name"@.len());
    assert(json::place(folder, "uri"@, 0) == 0);
    assert(json::place(folder, "name"@, 0) == 1);
}

/// A document is opened under its address, in its language and with its content.
pub proof fn law_documents_are_opened_as_they_are(
    uri: Seq<char>,
    language_id: Seq<char>,
    content: Seq<char>,
)
    ensures
        ({
            let told = opened_document(uri, language_id, content).field("textDocument"@);
            &&& told.field("uri"@) == Document::Text(uri)
            &&& told.field("languageId"@) == Document::Text(language_id)
            &&& told.field("text"@) == Document::Text(content)
            &&& told.field("version"@) is Unsigned
        }),
{
    reveal_strlit("textDocument");
    reveal_strlit("uri");
    reveal_strlit("languageId");
    reveal_strlit("version");
    reveal_strlit("text");
    reveal_with_fuel(json::place, 5);
    let outer = opened_document(uri, language_id, content)->Object_0;
    assert(json::place(outer, "textDocument"@, 0) == 0);
    let list = outer[0].1->Object_0;
    assert("uri"@.len() == 3 && "languageId"@.len() == 10 && "version"@.len() == 7 && "text"@.len()
        == 4);
    assert(json::place(list, "uri"@, 0) == 0);
    assert(json::place(list, "languageId"@, 0) == 1);
    assert(json::place(list, "version"@, 0) == 2);
    assert(json::place(list, "text"@, 0) == 3);
}

/// A client says that it asks for definitions and references in open documents and for
/// symbols, that it has workspace folders, and, where it does, that it answers requests for
/// the configuration.
pub proof fn law_clients_say_what_they_ask_for(configuration: bool)
    ensures
        ({
            let told = position_capabilities(configuration);
            let workspace = told.field("workspace"@);
            &&& told.field("textDocument"@).field("definition"@) is Object
            &&& told.field("textDocument"@).field("references"@) is Object
            &&& told.field("textDocument"@).field("synchronization"@) is Object
            &&& workspace.field("symbol"@) is Object
            &&& workspace.field("workspaceFolders"@) == Document::Bool(true)
            &&& configuration ==> workspace.field("configuration"@) == Document::Bool(true)
            &&& !configuration ==> workspace.field("configuration"@) == Document::Null
        }),
{
    reveal_strlit("textDocument");
    reveal_strlit("workspace");
    reveal_strlit("definition");
    reveal_strlit("references");
    reveal_strlit("synchronization");
    reveal_strlit("symbol");
    reveal_strlit("workspaceFolders");
    reveal_strlit("configuration");
    reveal_with_fuel(json::place, 5);
    let list = position_capabilities(configuration)->Object_0;
    assert("textDocument"@.len() == 12 && "workspace"@.len() == 9);
    assert(json::place(list, "textDocument"@, 0) == 0);
    assert(json::place(list, "workspace"@, 0) == 1);
    let documents = list[0].1->Object_0;
    assert("definition"@[0] == 'd' && "references"@[0] == 'r' && "synchronization"@[0] == 's');
    assert(json::place(documents, "definition"@, 0) == 0);
    assert(json::place(documents, "references"@, 0) == 1);
    assert(json::place(documents, "synchronization"@, 0) == 2);
    let workspace = list[1].1->Object_0;
    assert("symbol"@.len() == 6 && "workspaceFolders"@.len() == 16 && "configuration"@.len() == 13);
    assert(json::place(workspace, "symbol"@, 0) == 0);
    assert(json::place(workspace, "workspaceFolders"@, 0) == 1);
    if configuration {
        assert(json::place(workspace, "configuration"@, 0) == 2);
    } else {
        assert(json::place(workspace, "configuration"@, 0) == workspace.len());
    }
}

/// A workspace folder has the name of its directory.
pub proof fn law_folders_have_the_names_of_their_directories(path: Seq<char>)
    ensures
        paths::file_name(path) matches Some(name) ==> folder_name(path) == name,
        paths::file_name(path) is None ==> folder_name(path) == "workspace"@,
{
}

} // verus!

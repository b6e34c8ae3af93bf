//! rust-analyzer. Rust navigation has no enable/disable knob: the path of the server
//! always has a value, so it is always enabled. Whether it is installed shows when it is
//! asked.

use crate::config::Config;
use crate::json::{self, Document, Json};
use crate::lsp::adapter::{self, Provider};
use crate::lsp::transport::{Readiness, TransportConfig, TransportView};
use crate::{paths, text};
use vstd::prelude::*;

verus! {

/// The identifier of the language.
pub const LANGUAGE_IDENTIFIER: &'static str = "rust";

/// The server as it is configured. It says how it is started and initialized; it is no
/// process.
#[derive(Debug)]
pub struct RustServer {
    pub path: String,
    pub timeout_seconds: u64,
}

/// The capabilities of a client that asks for workspace symbols with their ranges and for
/// the status of the server.
pub open spec fn capabilities() -> Document {
    json::extended(
        adapter::symbol_capabilities(),
        "experimental"@,
        json::single("serverStatusNotification"@, Document::Bool(true)),
    )
}

/// The options that make the server search all symbols of the workspace.
pub open spec fn options() -> Document {
    json::single(
        "workspace"@,
        json::single(
            "symbol"@,
            json::single(
                "search"@,
                Document::Object(
                    seq![
                        ("scope"@, Document::Text("workspace"@)),
                        ("kind"@, Document::Text("all_symbols"@)),
                        ("limit"@, Document::Unsigned(256)),
                    ],
                ),
            ),
        ),
    )
}

fn search_options() -> (r: Json)
    ensures
        json::document(r) == options(),
{
    let head = json::with(
        json::object("scope", Json::text("workspace")),
        "kind",
        Json::text("all_symbols"),
    );
    let search = json::with(head, "limit", Json::Unsigned(256));
    proof {
        let says = seq![
            ("scope"@, Document::Text("workspace"@)),
            ("kind"@, Document::Text("all_symbols"@)),
            ("limit"@, Document::Unsigned(256)),
        ];
        assert(json::document(search)->Object_0 =~= says);
    }
    json::object("workspace", json::object("symbol", json::object("search", search)))
}

impl RustServer {
    /// The server of a configuration.
    pub fn new(config: &Config) -> (r: Self)
        ensures
            r.path@ == config.rust_analyzer_path@,
            r.timeout_seconds == config.lsp_timeout_seconds,
    {
        RustServer {
            path: config.rust_analyzer_path.clone(),
            timeout_seconds: config.lsp_timeout_seconds,
        }
    }

    /// The name of the server.
    pub fn provider(&self) -> (r: &'static str)
        ensures
            r@ == Provider::RustAnalyzer.name(),
    {
        Provider::RustAnalyzer.as_str()
    }

    /// The identifiers of the languages that the server can navigate.
    pub fn languages(&self) -> (r: Vec<&'static str>)
        ensures
            adapter::names_of(r@) == Provider::RustAnalyzer.navigates(),
    {
        Provider::RustAnalyzer.languages()
    }

    /// The server is always enabled.
    pub fn enabled(&self) -> (r: bool)
        ensures
            r,
    {
        true
    }

    /// The configured command.
    pub fn configured_command(&self) -> (r: Option<String>)
        ensures
            r == Some(self.path),
    {
        Some(self.path.clone())
    }

    /// The name of the readiness component of the server.
    pub fn readiness_component_name(&self) -> (r: &'static str)
        ensures
            r@ == Provider::RustAnalyzer.component(),
    {
        Provider::RustAnalyzer.readiness_component_name()
    }

    /// How the server is started in `root`.
    pub fn transport_config(&self, root: &str) -> (r: Option<TransportConfig>)
        ensures
            r is Some,
            r->0@ == (TransportView {
                executable: self.path@,
                args: seq![],
                working_dir: root@,
                timeout_seconds: self.timeout_seconds,
                label: Provider::RustAnalyzer.name(),
            }),
    {
        let args: Vec<String> = Vec::new();
        assert(text::views(args@) =~= seq![]);
        Some(
            TransportConfig {
                executable: self.path.clone(),
                args,
                working_dir: root.to_owned(),
                timeout_seconds: self.timeout_seconds,
                label: Provider::RustAnalyzer.as_str().to_owned(),
            },
        )
    }

    /// The parameters of the `initialize` request for a workspace with a given address.
    pub fn initialize_with(&self, root: &str, root_uri: &str, process_id: u32) -> (r: Json)
        ensures
            json::document(r) == adapter::handshake(
                process_id,
                root_uri@,
                adapter::folder_name(root@),
                capabilities(),
                options(),
            ),
    {
        let name = adapter::folder_name_of(root);
        let status = json::object("serverStatusNotification", Json::Bool(true));
        adapter::handshake_of(
            process_id,
            root_uri,
            name.as_str(),
            json::with(adapter::symbol_capabilities_of(), "experimental", status),
            search_options(),
        )
    }

    /// The parameters of the `initialize` request; `None` where the platform has no address
    /// for the workspace.
    pub fn initialize_params(&self, root: &str, process_id: u32) -> (r: Option<Json>)
        ensures
            exists|answer: Option<Seq<char>>| #[trigger]
                adapter::is_directory_answer(root@, answer) && json::opt_document(r) == (
                match answer {
                    Some(root_uri) => Some(
                        adapter::handshake(
                            process_id,
                            root_uri,
                            adapter::folder_name(root@),
                            capabilities(),
                            options(),
                        ),
                    ),
                    None => None,
                }),
    {
        let address = adapter::directory_address(root);
        assert(adapter::is_directory_answer(root@, paths::opt_view(address)));
        match address {
            Some(root_uri) => Some(self.initialize_with(root, root_uri.as_str(), process_id)),
            None => None,
        }
    }

    /// The notification by which the server says that it is ready.
    pub fn ready_predicate(&self) -> (r: Readiness)
        ensures
            r == Readiness::Quiescent,
    {
        Readiness::Quiescent
    }

    /// How many seconds the server is waited for behind its initialization, where it has
    /// not said that it is ready: some builds never do.
    pub fn readiness_wait(&self, is_ready: bool) -> (r: Option<u64>)
        ensures
            r == (if is_ready {
                None::<u64>
            } else {
                Some(adapter::head_start(self.timeout_seconds, 10))
            }),
    {
        if is_ready {
            None
        } else {
            Some(adapter::head_start_of(self.timeout_seconds, 10))
        }
    }
}

/// The server is asked to tell its status, and to search all symbols of the workspace.
pub proof fn law_the_server_searches_all_symbols()
    ensures
        capabilities().field("experimental"@).field("serverStatusNotification"@) == Document::Bool(
            true,
        ),
        capabilities().field("workspace"@) == adapter::symbol_capabilities().field("workspace"@),
        ({
            let search = options().field("workspace"@).field("symbol"@).field("search"@);
            &&& search.field("scope"@) == Document::Text("workspace"@)
            &&& search.field("kind"@) == Document::Text("all_symbols"@)
            &&& search.field("limit"@) == Document::Unsigned(256)
        }),
{
    reveal_strlit("workspace");
    reveal_strlit("experimental");
    reveal_strlit("scope");
    reveal_strlit("kind");
    reveal_strlit("limit");
    reveal_with_fuel(json::place, 5);
    let told = capabilities()->Object_0;
    assert("workspace"@.len() == 9 && "experimental"@.len() == 12);
    assert(json::place(told, "workspace"@, 0) == 0);
    assert(json::place(told, "experimental"@, 0) == 1);
    let status = told[1].1->Object_0;
    assert(json::place(status, "serverStatusNotification"@, 0) == 0);
    let plain = adapter::symbol_capabilities()->Object_0;
    assert(json::place(plain, "workspace"@, 0) == 0);
    let outer = options()->Object_0;
    assert(json::place(outer, "workspace"@, 0) == 0);
    let middle = outer[0].1->Object_0;
    assert(json::place(middle, "symbol"@, 0) == 0);
    let inner = middle[0].1->Object_0;
    assert(json::place(inner, "search"@, 0) == 0);
    let search = inner[0].1->Object_0;
    assert("scope"@[0] == 's' && "kind"@[0] == 'k' && "limit"@[0] == 'l');
    assert(json::place(search, "scope"@, 0) == 0);
    assert(json::place(search, "kind"@, 0) == 1);
    assert(json::place(search, "limit"@, 0) == 2);
}

} // verus!

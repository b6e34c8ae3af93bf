//! The optional Python language server (pyright).

use crate::config::PythonLspConfig;
use crate::json::{self, Document, Json};
use crate::lsp::adapter::{self, Provider};
use crate::lsp::transport::{TransportConfig, TransportView};
use crate::{paths, text};
use vstd::prelude::*;

verus! {

/// The identifier of the language.
pub const LANGUAGE_IDENTIFIER: &'static str = "python";

/// The server as it is configured. It says how it is started and initialized; it is no
/// process.
#[derive(Debug)]
pub struct PythonServer {
    pub config: PythonLspConfig,
    pub timeout_seconds: u64,
}

impl PythonServer {
    /// The server of a configuration. The timeout is the one that all servers share.
    pub fn new(config: &PythonLspConfig, timeout_seconds: u64) -> (r: Self)
        ensures
            r.config.path == config.path,
            text::views(r.config.args@) == text::views(config.args@),
            r.config.disabled == config.disabled,
            r.timeout_seconds == timeout_seconds,
    {
        PythonServer { config: config.clone(), timeout_seconds }
    }

    /// The name of the server.
    pub fn provider(&self) -> (r: &'static str)
        ensures
            r@ == Provider::Pyright.name(),
    {
        Provider::Pyright.as_str()
    }

    /// The identifiers of the languages that the server can navigate.
    pub fn languages(&self) -> (r: Vec<&'static str>)
        ensures
            adapter::names_of(r@) == Provider::Pyright.navigates(),
    {
        Provider::Pyright.languages()
    }

    /// Whether the server is configured and not explicitly disabled.
    pub fn enabled(&self) -> (r: bool)
        ensures
            r == self.is_enabled(),
    {
        self.config.enabled()
    }

    /// The server is configured and not explicitly disabled.
    pub open spec fn is_enabled(self) -> bool {
        !self.config.disabled && crate::config::has_path(self.config.path)
    }

    /// The configured command.
    pub fn configured_command(&self) -> (r: Option<String>)
        ensures
            r == self.config.path,
    {
        text::clone_option(&self.config.path)
    }

    /// The name of the readiness component of the server.
    pub fn readiness_component_name(&self) -> (r: &'static str)
        ensures
            r@ == Provider::Pyright.component(),
    {
        Provider::Pyright.readiness_component_name()
    }

    /// How the server is started in `root`.
    pub open spec fn transport(self, root: Seq<char>) -> Option<TransportView> {
        adapter::server_transport(
            Provider::Pyright,
            self.config.path,
            text::views(self.config.args@),
            self.config.disabled,
            root,
            self.timeout_seconds,
        )
    }

    /// How the server is started in `root`; `None` where it is not enabled.
    pub fn transport_config(&self, root: &str) -> (r: Option<TransportConfig>)
        ensures
            match r {
                Some(transport) => self.transport(root@) == Some(transport@),
                None => self.transport(root@) is None,
            },
    {
        adapter::optional_transport(
            Provider::Pyright,
            &self.config.path,
            &self.config.args,
            self.config.disabled,
            root,
            self.timeout_seconds,
        )
    }

    /// The parameters of the `initialize` request for a workspace with a given address.
    pub open spec fn initialization(
        self,
        root: Seq<char>,
        root_uri: Seq<char>,
        process_id: u32,
    ) -> Option<Document> {
        if self.is_enabled() {
            Some(
                adapter::handshake(
                    process_id,
                    root_uri,
                    adapter::folder_name(root),
                    adapter::position_capabilities(true),
                    Document::Object(seq![]),
                ),
            )
        } else {
            None
        }
    }

    /// The parameters of the `initialize` request for a workspace with a given address;
    /// `None` where the server is not enabled.
    pub fn initialize_with(&self, root: &str, root_uri: &str, process_id: u32) -> (r: Option<Json>)
        ensures
            match r {
                Some(params) => self.initialization(root@, root_uri@, process_id) == Some(
                    json::document(params),
                ),
                None => self.initialization(root@, root_uri@, process_id) is None,
            },
    {
        if !self.enabled() {
            return None;
        }
        let name = adapter::folder_name_of(root);
        Some(
            adapter::handshake_of(
                process_id,
                root_uri,
                name.as_str(),
                adapter::position_capabilities_of(true),
                json::empty_object(),
            ),
        )
    }

    /// The parameters of the `initialize` request; `None` where the server is not enabled
    /// or the platform has no address for the workspace.
    pub fn initialize_params(&self, root: &str, process_id: u32) -> (r: Option<Json>)
        ensures
            !self.is_enabled() ==> r is None,
            exists|answer: Option<Seq<char>>| #[trigger]
                adapter::is_directory_answer(root@, answer) && json::opt_document(r) == (
                match answer {
                    Some(root_uri) => self.initialization(root@, root_uri, process_id),
                    None => None,
                }),
    {
        let address = adapter::directory_address(root);
        assert(adapter::is_directory_answer(root@, paths::opt_view(address)));
        match address {
            Some(root_uri) => self.initialize_with(root, root_uri.as_str(), process_id),
            None => None,
        }
    }
}

/// The server is told about the workspace if and only if it is configured: who the client
/// is, where the workspace is, and that the client
/// answers requests for the configuration.
pub proof fn law_the_server_is_told_about_the_workspace(
    server: PythonServer,
    root: Seq<char>,
    root_uri: Seq<char>,
    process_id: u32,
)
    ensures
        server.initialization(root, root_uri, process_id) is Some <==> !server.config.disabled
            && server.config.path is Some && !text::blank(server.config.path->0@),
        server.initialization(root, root_uri, process_id) matches Some(told) ==> {
            &&& told.field("processId"@) == Document::Unsigned(process_id as u64)
            &&& told.field("rootUri"@) == Document::Text(root_uri)
            &&& told.field("capabilities"@).field("workspace"@).field("configuration"@)
                == Document::Bool(true)
        },
{
    adapter::law_clients_say_what_they_ask_for(true);
    adapter::law_the_handshake_tells_where_the_workspace_is(
        process_id,
        root_uri,
        adapter::folder_name(root),
        adapter::position_capabilities(true),
        Document::Object(seq![]),
    );
}

} // verus!

//! The optional Java language server (jdtls). `java` itself is started, with the
//! launcher of the installation and its configuration for the platform.

use crate::config::{Config, JavaLspConfig};
use crate::json::{self, Document, Json};
use crate::lsp::adapter::{self, Provider};
use crate::lsp::transport::{Readiness, TransportConfig, TransportView};
use crate::{paths, text, workspace};
use vstd::prelude::*;

verus! {

/// The identifier of the language.
pub const LANGUAGE_IDENTIFIER: &'static str = "java";

/// The platforms that an installation holds a configuration for.
#[derive(Debug, Clone, Copy, PartialEq, Eq, Structural)]
pub enum Platform {
    Windows,
    MacOs,
    Other,
}

/// The server as it is configured. It says how it is started and initialized; it is no
/// process.
#[derive(Debug)]
pub struct JavaServer {
    pub config: JavaLspConfig,
    pub data_dir: String,
    pub timeout_seconds: u64,
}

/// What the directory of the plugins of an installation holds.
#[derive(Debug)]
pub struct Plugins {
    /// The launcher without a version is a file there.
    pub unversioned: bool,
    /// The names of the entries, in the order of the directory.
    pub entries: Vec<String>,
}

/// A name is that of a launcher with a version.
pub open spec fn is_launcher(name: Seq<char>) -> bool {
    text::starts_with(name, "org.eclipse.equinox.launcher_"@) && text::ends_with(name, ".jar"@)
}

/// The place of the first launcher with a version; the number of the entries where there
/// is none.
pub open spec fn first_launcher(entries: Seq<Seq<char>>, from: int) -> int
    decreases entries.len() - from,
{
    if from < 0 || from >= entries.len() {
        entries.len() as int
    } else if is_launcher(entries[from]) {
        from
    } else {
        first_launcher(entries, from + 1)
    }
}

/// The launcher of an installation: the one without a version, or the first with one.
pub open spec fn launcher(jdtls_dir: Seq<char>, plugins: Plugins) -> Option<Seq<char>> {
    let dir = paths::below(jdtls_dir, "plugins"@);
    let entries = text::views(plugins.entries@);
    let at = first_launcher(entries, 0);
    if plugins.unversioned {
        Some(paths::below(dir, "org.eclipse.equinox.launcher.jar"@))
    } else if at < entries.len() {
        Some(paths::below(dir, entries[at]))
    } else {
        None
    }
}

/// Find the launcher of an installation.
pub fn find_launcher_jar(jdtls_dir: &str, plugins: &Plugins) -> (r: Option<String>)
    ensures
        paths::opt_view(r) == launcher(jdtls_dir@, *plugins),
{
    let dir = paths::join_path(jdtls_dir, "plugins");
    if plugins.unversioned {
        return Some(paths::join_path(dir.as_str(), "org.eclipse.equinox.launcher.jar"));
    }
    let ghost entries = text::views(plugins.entries@);
    let mut i: usize = 0;
    while i < plugins.entries.len()
        invariant
            i <= plugins.entries@.len(),
            entries == text::views(plugins.entries@),
            !plugins.unversioned,
            dir@ == paths::below(jdtls_dir@, "plugins"@),
            first_launcher(entries, 0) == first_launcher(entries, i as int),
        decreases plugins.entries@.len() - i,
    {
        let name = plugins.entries[i].as_str();
        assert(entries[i as int] == name@);
        if text::has_prefix(name, "org.eclipse.equinox.launcher_") && text::has_suffix(
            name,
            ".jar",
        ) {
            return Some(paths::join_path(dir.as_str(), name));
        }
        i = i + 1;
    }
    None
}

/// The shared configuration of an installation for a platform.
pub open spec fn shared_config(jdtls_dir: Seq<char>, platform: Platform) -> Seq<char> {
    paths::below(
        jdtls_dir,
        match platform {
            Platform::Windows => "config_win"@,
            Platform::MacOs => "config_mac"@,
            Platform::Other => "config_linux"@,
        },
    )
}

/// The shared configuration of an installation for a platform.
pub fn shared_config_dir(jdtls_dir: &str, platform: Platform) -> (r: String)
    ensures
        r@ == shared_config(jdtls_dir@, platform),
{
    let name = match platform {
        Platform::Windows => "config_win",
        Platform::MacOs => "config_mac",
        Platform::Other => "config_linux",
    };
    paths::join_path(jdtls_dir, name)
}

/// The arguments that `java` is started with, in front of the configured ones.
pub open spec fn java_arguments(
    config_dir: Seq<char>,
    launcher_jar: Seq<char>,
    data_dir: Seq<char>,
) -> Seq<Seq<char>> {
    seq![
        "-Declipse.application=org.eclipse.jdt.ls.core.id1"@,
        "-Dosgi.bundles.defaultStartLevel=4"@,
        "-Declipse.product=org.eclipse.jdt.ls.core.product"@,
        "-Dosgi.checkConfiguration=true"@,
        "-Dosgi.sharedConfiguration.area="@ + config_dir,
        "-Dosgi.sharedConfiguration.area.readOnly=true"@,
        "-Dosgi.configuration.cascaded=true"@,
        "-Xms1G"@,
        "--add-modules=ALL-SYSTEM"@,
        "--add-opens"@,
        "java.base/java.util=ALL-UNNAMED"@,
        "--add-opens"@,
        "java.base/java.lang=ALL-UNNAMED"@,
        "-jar"@,
        launcher_jar,
        "-data"@,
        data_dir,
    ]
}

fn arguments(config_dir: &str, launcher_jar: String, data_dir: String) -> (r: Vec<String>)
    ensures
        text::views(r@) == java_arguments(config_dir@, launcher_jar@, data_dir@),
{
    let mut out: Vec<String> = Vec::new();
    out.push("-Declipse.application=org.eclipse.jdt.ls.core.id1".to_owned());
    out.push("-Dosgi.bundles.defaultStartLevel=4".to_owned());
    out.push("-Declipse.product=org.eclipse.jdt.ls.core.product".to_owned());
    out.push("-Dosgi.checkConfiguration=true".to_owned());
    out.push(text::concat2("-Dosgi.sharedConfiguration.area=", config_dir));
    out.push("-Dosgi.sharedConfiguration.area.readOnly=true".to_owned());
    out.push("-Dosgi.configuration.cascaded=true".to_owned());
    out.push("-Xms1G".to_owned());
    out.push("--add-modules=ALL-SYSTEM".to_owned());
    out.push("--add-opens".to_owned());
    out.push("java.base/java.util=ALL-UNNAMED".to_owned());
    out.push("--add-opens".to_owned());
    out.push("java.base/java.lang=ALL-UNNAMED".to_owned());
    out.push("-jar".to_owned());
    out.push(launcher_jar);
    out.push("-data".to_owned());
    out.push(data_dir);
    assert(text::views(out@) =~= java_arguments(config_dir@, launcher_jar@, data_dir@));
    out
}

impl JavaServer {
    /// The server of a configuration. The timeout is the one that all servers share.
    pub fn new(config: &Config, timeout_seconds: u64) -> (r: Self)
        ensures
            r.config.path == config.java.path,
            text::views(r.config.args@) == text::views(config.java.args@),
            r.config.disabled == config.java.disabled,
            r.data_dir@ == config.data_dir@,
            r.timeout_seconds == timeout_seconds,
    {
        JavaServer {
            config: config.java.clone(),
            data_dir: config.data_dir.clone(),
            timeout_seconds,
        }
    }

    /// The name of the server.
    pub fn provider(&self) -> (r: &'static str)
        ensures
            r@ == Provider::Jdtls.name(),
    {
        Provider::Jdtls.as_str()
    }

    /// The identifiers of the languages that the server can navigate.
    pub fn languages(&self) -> (r: Vec<&'static str>)
        ensures
            adapter::names_of(r@) == Provider::Jdtls.navigates(),
    {
        Provider::Jdtls.languages()
    }

    /// The server is configured and not explicitly disabled.
    pub open spec fn is_enabled(self) -> bool {
        !self.config.disabled && crate::config::has_path(self.config.path)
    }

    /// Whether the server is configured and not explicitly disabled.
    pub fn enabled(&self) -> (r: bool)
        ensures
            r == self.is_enabled(),
    {
        self.config.enabled()
    }

    /// The directory of the installation.
    pub fn configured_command(&self) -> (r: Option<String>)
        ensures
            r == self.config.path,
    {
        text::clone_option(&self.config.path)
    }

    /// The name of the readiness component of the server.
    pub fn readiness_component_name(&self) -> (r: &'static str)
        ensures
            r@ == Provider::Jdtls.component(),
    {
        Provider::Jdtls.readiness_component_name()
    }

    /// The metadata directory of a workspace: below the data directory, named by the hash of
    /// the workspace's path. It is the same one at every start.
    pub open spec fn workspace_data(self, root: Seq<char>) -> Seq<char> {
        paths::below(paths::below(self.data_dir@, "jdtls"@), workspace::sha256(root))
    }

    /// The metadata directory of a workspace.
    pub fn workspace_data_dir(&self, root: &str) -> (r: String)
        ensures
            r@ == self.workspace_data(root@),
    {
        let base = paths::join_path(self.data_dir.as_str(), "jdtls");
        let name = workspace::hash(root);
        paths::join_path(base.as_str(), name.as_str())
    }

    /// How the server is started in `root`.
    pub open spec fn transport(
        self,
        root: Seq<char>,
        plugins: Plugins,
        platform: Platform,
    ) -> Option<TransportView> {
        if self.is_enabled() && launcher(self.config.path->0@, plugins) is Some {
            let jdtls_dir = self.config.path->0@;
            Some(
                TransportView {
                    executable: "java"@,
                    args: java_arguments(
                        shared_config(jdtls_dir, platform),
                        launcher(jdtls_dir, plugins)->0,
                        self.workspace_data(root),
                    ) + text::views(self.config.args@),
                    working_dir: root,
                    timeout_seconds: self.timeout_seconds,
                    label: "jdtls"@,
                },
            )
        } else {
            None
        }
    }

    /// How the server is started in `root`, given what the installation holds; `None` where
    /// it is not enabled or the installation has no launcher.
    pub fn transport_config(&self, root: &str, plugins: &Plugins, platform: Platform) -> (r: Option<
        TransportConfig,
    >)
        ensures
            match r {
                Some(transport) => self.transport(root@, *plugins, platform) == Some(transport@),
                None => self.transport(root@, *plugins, platform) is None,
            },
    {
        if !self.enabled() {
            return None;
        }
        let jdtls_dir = match &self.config.path {
            Some(path) => path.as_str(),
            None => {
                return None;
            },
        };
        let launcher_jar = match find_launcher_jar(jdtls_dir, plugins) {
            Some(launcher_jar) => launcher_jar,
            None => {
                return None;
            },
        };
        let config_dir = shared_config_dir(jdtls_dir, platform);
        let mut args = arguments(config_dir.as_str(), launcher_jar, self.workspace_data_dir(root));
        let mut configured = text::clone_texts(&self.config.args);
        let ghost leading = args@;
        let ghost behind = configured@;
        args.append(&mut configured);
        assert(text::views(args@) =~= text::views(leading) + text::views(behind));
        Some(
            TransportConfig {
                executable: "java".to_owned(),
                args,
                working_dir: root.to_owned(),
                timeout_seconds: self.timeout_seconds,
                label: "jdtls".to_owned(),
            },
        )
    }

    /// The parameters of the `initialize` request for a workspace with a given address.
    pub open spec fn initialization(
        self,
        root: Seq<char>,
        root_uri: Seq<char>,
        process_id: u32,
    ) -> Option<Document> {
        if self.is_enabled() {
            Some(
                adapter::handshake(
                    process_id,
                    root_uri,
                    adapter::folder_name(root),
                    adapter::position_capabilities(true),
                    Document::Object(seq![]),
                ),
            )
        } else {
            None
        }
    }

    /// The parameters of the `initialize` request for a workspace with a given address;
    /// `None` where the server is not enabled.
    pub fn initialize_with(&self, root: &str, root_uri: &str, process_id: u32) -> (r: Option<Json>)
        ensures
            match r {
                Some(params) => self.initialization(root@, root_uri@, process_id) == Some(
                    json::document(params),
                ),
                None => self.initialization(root@, root_uri@, process_id) is None,
            },
    {
        if !self.enabled() {
            return None;
        }
        let name = adapter::folder_name_of(root);
        Some(
            adapter::handshake_of(
                process_id,
                root_uri,
                name.as_str(),
                adapter::position_capabilities_of(true),
                json::empty_object(),
            ),
        )
    }

    /// The parameters of the `initialize` request; `None` where the server is not enabled
    /// or the platform has no address for the workspace.
    pub fn initialize_params(&self, root: &str, process_id: u32) -> (r: Option<Json>)
        ensures
            !self.is_enabled() ==> r is None,
            exists|answer: Option<Seq<char>>| #[trigger]
                adapter::is_directory_answer(root@, answer) && json::opt_document(r) == (
                match answer {
                    Some(root_uri) => self.initialization(root@, root_uri, process_id),
                    None => None,
                }),
    {
        let address = adapter::directory_address(root);
        assert(adapter::is_directory_answer(root@, paths::opt_view(address)));
        match address {
            Some(root_uri) => self.initialize_with(root, root_uri.as_str(), process_id),
            None => None,
        }
    }

    /// The notification by which the server says that it is ready.
    pub fn ready_predicate(&self) -> (r: Readiness)
        ensures
            r == Readiness::Started,
    {
        Readiness::Started
    }
}

/// A server is launched by the launcher without a version where there is one, else by the
/// first that has one, and not at all without either.
pub proof fn law_the_launcher_is_the_first_there_is(jdtls_dir: Seq<char>, plugins: Plugins)
    ensures
        ({
            let dir = paths::below(jdtls_dir, "plugins"@);
            let entries = text::views(plugins.entries@);
            match launcher(jdtls_dir, plugins) {
                Some(found) => if plugins.unversioned {
                    found == paths::below(dir, "org.eclipse.equinox.launcher.jar"@)
                } else {
                    exists|i: int|
                        {
                            &&& 0 <= i < entries.len()
                            &&& found == paths::below(dir, #[trigger] entries[i])
                            &&& is_launcher(entries[i])
                            &&& forall|k: int| 0 <= k < i ==> !is_launcher(#[trigger] entries[k])
                        }
                },
                None => !plugins.unversioned && forall|k: int|
                    0 <= k < entries.len() ==> !is_launcher(#[trigger] entries[k]),
            }
        }),
{
    let entries = text::views(plugins.entries@);
    lemma_first_launcher_place(entries, 0);
    let at = first_launcher(entries, 0);
    if at < entries.len() {
        assert(is_launcher(entries[at]));
    }
}

proof fn lemma_first_launcher_place(entries: Seq<Seq<char>>, from: int)
    requires
        0 <= from <= entries.len(),
    ensures
        from <= first_launcher(entries, from) <= entries.len(),
        first_launcher(entries, from) < entries.len() ==> is_launcher(
            entries[first_launcher(entries, from)],
        ),
        forall|k: int|
            from <= k < first_launcher(entries, from) ==> !is_launcher(#[trigger] entries[k]),
    decreases entries.len() - from,
{
    if from < entries.len() && !is_launcher(entries[from]) {
        lemma_first_launcher_place(entries, from + 1);
    }
}

/// A workspace has a metadata directory of its own, the same at every start: it depends on
/// the path of the workspace alone, by its hash.
pub proof fn law_workspaces_keep_their_metadata_directory(
    server: JavaServer,
    root: Seq<char>,
    plugins: Plugins,
    platform: Platform,
)
    ensures
        server.transport(root, plugins, platform) matches Some(start) ==> {
            let args = start.args;
            let n = 17 + server.config.args@.len();
            &&& args.len() == n
            &&& args[13] == "-jar"@
            &&& Some(args[14]) == launcher(server.config.path->0@, plugins)
            &&& args[15] == "-data"@
            &&& args[16] == paths::below(
                paths::below(server.data_dir@, "jdtls"@),
                workspace::sha256(root),
            )
            &&& args.skip(17) == text::views(server.config.args@)
            &&& start.working_dir == root
        },
        server.transport(root, plugins, platform) is Some <==> !server.config.disabled
            && server.config.path is Some && !text::blank(server.config.path->0@) && launcher(
            server.config.path->0@,
            plugins,
        ) is Some,
{
    if let Some(start) = server.transport(root, plugins, platform) {
        assert(start.args.skip(17) =~= text::views(server.config.args@));
    }
}

/// The server is told about the workspace if and only if it is configured: who the client
/// is, where the workspace is, and that the client
/// answers requests for the configuration.
pub proof fn law_the_server_is_told_about_the_workspace(
    server: JavaServer,
    root: Seq<char>,
    root_uri: Seq<char>,
    process_id: u32,
)
    ensures
        server.initialization(root, root_uri, process_id) is Some <==> !server.config.disabled
            && server.config.path is Some && !text::blank(server.config.path->0@),
        server.initialization(root, root_uri, process_id) matches Some(told) ==> {
            &&& told.field("processId"@) == Document::Unsigned(process_id as u64)
            &&& told.field("rootUri"@) == Document::Text(root_uri)
            &&& told.field("capabilities"@).field("workspace"@).field("configuration"@)
                == Document::Bool(true)
        },
{
    adapter::law_clients_say_what_they_ask_for(true);
    adapter::law_the_handshake_tells_where_the_workspace_is(
        process_id,
        root_uri,
        adapter::folder_name(root),
        adapter::position_capabilities(true),
        Document::Object(seq![]),
    );
}

/// The server starts with the shared configuration of its platform, which it does not write
/// to.
pub proof fn law_the_server_starts_with_the_configuration_of_the_platform(
    server: JavaServer,
    root: Seq<char>,
    plugins: Plugins,
    platform: Platform,
)
    ensures
        server.transport(root, plugins, platform) matches Some(start) ==> {
            let name = match platform {
                Platform::Windows => "config_win"@,
                Platform::MacOs => "config_mac"@,
                Platform::Other => "config_linux"@,
            };
            &&& start.args[4] == "-Dosgi.sharedConfiguration.area="@ + paths::below(
                server.config.path->0@,
                name,
            )
            &&& start.args[5] == "-Dosgi.sharedConfiguration.area.readOnly=true"@
        },
{
}

proof fn lemma_launcher_parts(name: Seq<char>) -> (version: Seq<char>)
    requires
        is_launcher(name),
    ensures
        name == ("org.eclipse.equinox.launcher_"@ + version) + ".jar"@,
{
    let head = "org.eclipse.equinox.launcher_"@;
    let tail = ".jar"@;
    let (n, a, b) = (name.len() as int, head.len() as int, tail.len() as int);
    assert(name.subrange(0, a) == head);
    assert(name.subrange(n - b, n) == tail);
    if n < a + b {
        let k = a - 1 - (n - b);
        assert(a == 29 && head[28] == '_') by {
            reveal_strlit("org.eclipse.equinox.launcher_");
        }
        assert(tail =~= seq!['.', 'j', 'a', 'r']) by {
            reveal_strlit(".jar");
        }
        assert(name[a - 1] == head[a - 1]);
        assert(name[a - 1] == tail[k]);
    }
    let version = name.subrange(a, n - b);
    assert(name =~= (name.subrange(0, a) + version) + name.subrange(n - b, n));
    version
}

/// The launchers with a version are the files whose name has the version between the name of
/// the launcher and the ending of an archive.
pub proof fn law_launchers_are_named_by_their_version(name: Seq<char>, version: Seq<char>)
    ensures
        is_launcher("org.eclipse.equinox.launcher_"@ + version + ".jar"@),
        is_launcher(name) ==> exists|found: Seq<char>|
            name == #[trigger] ("org.eclipse.equinox.launcher_"@ + found) + ".jar"@,
{
    let head = "org.eclipse.equinox.launcher_"@;
    let tail = ".jar"@;
    let full = head + version + tail;
    assert(full.subrange(0, head.len() as int) =~= head);
    assert(full.subrange(full.len() - tail.len(), full.len() as int) =~= tail);
    if is_launcher(name) {
        let found = lemma_launcher_parts(name);
        assert(name == (head + found) + tail);
    }
}

} // verus!

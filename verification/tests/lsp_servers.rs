use local_code_intelligence::config::{
    ClangdLspConfig, Config, CSharpLspConfig, GoLspConfig, JavaLspConfig, PythonLspConfig,
    TypeScriptLspConfig,
};
use local_code_intelligence::json::{self, Json};
use local_code_intelligence::lsp::clangd::{self, ClangdServer};
use local_code_intelligence::lsp::csharp::{discover_project, CSharpServer, ProjectKind};
use local_code_intelligence::lsp::go::GoServer;
use local_code_intelligence::lsp::java::{JavaServer, Platform, Plugins};
use local_code_intelligence::lsp::python::PythonServer;
use local_code_intelligence::lsp::rust::RustServer;
use local_code_intelligence::lsp::typescript::{self, TypeScriptServer};

#[test]
fn adapter_reports_c_and_cpp() {
    let config = ClangdLspConfig {
        path: Some("clangd".into()),
        args: vec![],
        disabled: false,
    };
    let server = ClangdServer::new(&config, 60);
    assert_eq!(server.languages(), &["c", "cpp"]);
    assert!(server.enabled());
}

#[test]
fn clangd_empty_or_missing_path_is_not_enabled() {
    let missing = ClangdLspConfig::default();
    assert!(!ClangdServer::new(&missing, 60).enabled());
    assert!(
        ClangdServer::new(&missing, 60)
            .transport_config("/tmp")
            .is_none()
    );

    let empty = ClangdLspConfig {
        path: Some("   ".into()),
        args: vec![],
        disabled: false,
    };
    assert!(!ClangdServer::new(&empty, 60).enabled());

    let disabled = ClangdLspConfig {
        path: Some("clangd".into()),
        args: vec![],
        disabled: true,
    };
    assert!(!ClangdServer::new(&disabled, 60).enabled());
}

#[test]
fn clangd_transport_has_no_forced_leading_flag() {
    // Unlike pyright/typescript-language-server, clangd needs no
    // --stdio-equivalent flag forced before configured args: its
    // default communication mode already is stdio.
    let config = ClangdLspConfig {
        path: Some("clangd".into()),
        args: vec!["--log=verbose".into()],
        disabled: false,
    };
    let server = ClangdServer::new(&config, 30);
    let transport = server.transport_config("/tmp").unwrap();
    assert_eq!(transport.args, vec!["--log=verbose".to_string()]);
}

#[test]
fn clangd_server_can_be_represented_without_a_process() {
    let config = ClangdLspConfig {
        path: Some("clangd".into()),
        args: vec![],
        disabled: false,
    };
    let server = ClangdServer::new(&config, 30);
        let params = server.initialize_params("/tmp", 7).unwrap();
    assert_eq!(params.u64_of("processId"), Some(7));
    assert!(params.text_of("rootUri").is_some());
}

#[test]
fn clangd_language_id_matches_extension() {
    assert_eq!(clangd::language_id_for("src/a.c"), "c");
    assert_eq!(clangd::language_id_for("src/a.cpp"), "cpp");
    assert_eq!(clangd::language_id_for("src/a.hpp"), "cpp");
}

#[test]
fn adapter_reports_csharp_and_cs() {
    let config = CSharpLspConfig {
        path: Some("csharp-ls".into()),
        args: vec![],
        disabled: false,
    };
    let server = CSharpServer::new(&config, 60);
    assert_eq!(server.language_identifier(), "csharp");
    assert_eq!(server.extension(), "cs");
    assert!(server.enabled());
}

#[test]
fn csharp_empty_or_missing_path_is_not_enabled() {
    // Missing path.
    let missing = CSharpLspConfig::default();
    assert!(!CSharpServer::new(&missing, 60).enabled());
    assert!(
        CSharpServer::new(&missing, 60)
            .transport_config("/tmp")
            .is_none()
    );

    // Empty path is not silently enabled.
    let empty = CSharpLspConfig {
        path: Some("   ".into()),
        args: vec![],
        disabled: false,
    };
    assert!(!CSharpServer::new(&empty, 60).enabled());
    assert!(
        CSharpServer::new(&empty, 60)
            .transport_config("/tmp")
            .is_none()
    );

    // Explicitly disabled even with a path.
    let disabled = CSharpLspConfig {
        path: Some("csharp-ls".into()),
        args: vec![],
        disabled: true,
    };
    assert!(!CSharpServer::new(&disabled, 60).enabled());
}

#[test]
fn csharp_server_can_be_represented_without_a_process() {
    let config = CSharpLspConfig {
        path: Some("csharp-ls".into()),
        args: vec!["--stdio".into()],
        disabled: false,
    };
    let server = CSharpServer::new(&config, 30);
        let root = "/tmp";
    let transport = server.transport_config(root).unwrap();
    assert_eq!(transport.executable, "csharp-ls");
    assert_eq!(transport.label, "csharp-ls");
    assert_eq!(server.args(), &["--stdio".to_string()]);

    let params = server.initialize_params(root, &[], 7).unwrap();
    assert_eq!(params.u64_of("processId"), Some(7));
    assert!(params.text_of("rootUri").is_some());
}

#[test]
fn adapter_reports_go() {
    let config = GoLspConfig {
        path: Some("gopls".into()),
        args: vec![],
        disabled: false,
    };
    let server = GoServer::new(&config, 60);
    assert_eq!(server.languages(), &["go"]);
    assert!(server.enabled());
}

#[test]
fn go_empty_or_missing_path_is_not_enabled() {
    let missing = GoLspConfig::default();
    assert!(!GoServer::new(&missing, 60).enabled());
    assert!(
        GoServer::new(&missing, 60)
            .transport_config("/tmp")
            .is_none()
    );

    let empty = GoLspConfig {
        path: Some("   ".into()),
        args: vec![],
        disabled: false,
    };
    assert!(!GoServer::new(&empty, 60).enabled());

    let disabled = GoLspConfig {
        path: Some("gopls".into()),
        args: vec![],
        disabled: true,
    };
    assert!(!GoServer::new(&disabled, 60).enabled());
}

#[test]
fn go_transport_has_no_forced_leading_flag() {
    // Unlike pyright/typescript-language-server, gopls needs no
    // --stdio-equivalent flag forced before configured args: its
    // documented default communication mode already is stdio.
    let config = GoLspConfig {
        path: Some("gopls".into()),
        args: vec!["-rpc.trace".into()],
        disabled: false,
    };
    let server = GoServer::new(&config, 30);
    let transport = server.transport_config("/tmp").unwrap();
    assert_eq!(transport.args, vec!["-rpc.trace".to_string()]);
}

#[test]
fn go_server_can_be_represented_without_a_process() {
    let config = GoLspConfig {
        path: Some("gopls".into()),
        args: vec![],
        disabled: false,
    };
    let server = GoServer::new(&config, 30);
        let params = server.initialize_params("/tmp", 7).unwrap();
    assert_eq!(params.u64_of("processId"), Some(7));
    assert!(params.text_of("rootUri").is_some());
}

#[test]
fn adapter_reports_python() {
    let config = PythonLspConfig {
        path: Some("pyright-langserver".into()),
        args: vec![],
        disabled: false,
    };
    let server = PythonServer::new(&config, 60);
    assert_eq!(server.languages(), &["python"]);
    assert!(server.enabled());
}

#[test]
fn python_empty_or_missing_path_is_not_enabled() {
    let missing = PythonLspConfig::default();
    assert!(!PythonServer::new(&missing, 60).enabled());
    assert!(
        PythonServer::new(&missing, 60)
            .transport_config("/tmp")
            .is_none()
    );

    let empty = PythonLspConfig {
        path: Some("   ".into()),
        args: vec![],
        disabled: false,
    };
    assert!(!PythonServer::new(&empty, 60).enabled());

    let disabled = PythonLspConfig {
        path: Some("pyright-langserver".into()),
        args: vec![],
        disabled: true,
    };
    assert!(!PythonServer::new(&disabled, 60).enabled());
}

#[test]
fn python_transport_always_includes_stdio_before_configured_args() {
    let config = PythonLspConfig {
        path: Some("pyright-langserver".into()),
        args: vec!["--verbose".into()],
        disabled: false,
    };
    let server = PythonServer::new(&config, 30);
    let transport = server.transport_config("/tmp").unwrap();
    assert_eq!(transport.args, vec!["--stdio", "--verbose"]);
}

#[test]
fn python_server_can_be_represented_without_a_process() {
    let config = PythonLspConfig {
        path: Some("pyright-langserver".into()),
        args: vec![],
        disabled: false,
    };
    let server = PythonServer::new(&config, 30);
        let params = server.initialize_params("/tmp", 7).unwrap();
    assert_eq!(params.u64_of("processId"), Some(7));
    assert!(params.text_of("rootUri").is_some());
}

#[test]
fn adapter_reports_all_four_ecmascript_languages() {
    let config = TypeScriptLspConfig {
        path: Some("typescript-language-server".into()),
        args: vec![],
        disabled: false,
    };
    let server = TypeScriptServer::new(&config, 60);
    assert_eq!(
        server.languages(),
        &["typescript", "tsx", "javascript", "jsx"]
    );
    assert!(server.enabled());
}

#[test]
fn typescript_empty_or_missing_path_is_not_enabled() {
    let missing = TypeScriptLspConfig::default();
    assert!(!TypeScriptServer::new(&missing, 60).enabled());
    assert!(
        TypeScriptServer::new(&missing, 60)
            .transport_config("/tmp")
            .is_none()
    );

    let empty = TypeScriptLspConfig {
        path: Some("   ".into()),
        args: vec![],
        disabled: false,
    };
    assert!(!TypeScriptServer::new(&empty, 60).enabled());

    let disabled = TypeScriptLspConfig {
        path: Some("typescript-language-server".into()),
        args: vec![],
        disabled: true,
    };
    assert!(!TypeScriptServer::new(&disabled, 60).enabled());
}

#[test]
fn typescript_transport_always_includes_stdio_before_configured_args() {
    let config = TypeScriptLspConfig {
        path: Some("typescript-language-server".into()),
        args: vec!["--log-level".into(), "4".into()],
        disabled: false,
    };
    let server = TypeScriptServer::new(&config, 30);
    let transport = server.transport_config("/tmp").unwrap();
    assert_eq!(transport.args, vec!["--stdio", "--log-level", "4"]);
}

#[test]
fn typescript_server_can_be_represented_without_a_process() {
    let config = TypeScriptLspConfig {
        path: Some("typescript-language-server".into()),
        args: vec![],
        disabled: false,
    };
    let server = TypeScriptServer::new(&config, 30);
        let params = server.initialize_params("/tmp", 7).unwrap();
    assert_eq!(params.u64_of("processId"), Some(7));
    assert!(params.text_of("rootUri").is_some());
}

#[test]
fn typescript_language_id_matches_extension() {
    assert_eq!(typescript::language_id_for("src/a.ts"), "typescript");
    assert_eq!(typescript::language_id_for("src/a.tsx"), "typescriptreact");
    assert_eq!(typescript::language_id_for("src/a.jsx"), "javascriptreact");
    assert_eq!(typescript::language_id_for("src/a.js"), "javascript");
}

fn names(list: &[&str]) -> Vec<String> {
    list.iter().map(|name| (*name).to_owned()).collect()
}

#[test]
fn discovery_prefers_solution_over_project() {
    let project = discover_project("/root", &names(&["App.csproj", "Solution.sln"]));
    assert_eq!(project.kind, ProjectKind::Solution);
    assert_eq!(project.path, "/root/Solution.sln");
}

#[test]
fn discovery_falls_back_to_project_then_root() {
    let project = discover_project("/root", &names(&["App.csproj"]));
    assert_eq!(project.kind, ProjectKind::Project);
    assert_eq!(project.path, "/root/App.csproj");

    let rootless = discover_project("/empty", &[]);
    assert_eq!(rootless.kind, ProjectKind::Root);
    assert_eq!(rootless.path, "/empty");
}

#[test]
fn discovery_is_deterministic_shallowest_then_lexicographic() {
    // Two projects at the same depth: lexicographic tie-break. A deeper project
    // loses to the shallower one.
    let project = discover_project("/root", &names(&["b.csproj", "a.csproj", "deep/z.csproj"]));
    assert_eq!(project.kind, ProjectKind::Project);
    assert_eq!(project.path, "/root/a.csproj");
}

#[test]
fn discovery_skips_build_and_hidden_directories() {
    let project = discover_project(
        "/root",
        &names(&["obj/gen.csproj", ".git/hidden.csproj", "real.csproj"]),
    );
    assert_eq!(project.kind, ProjectKind::Project);
    assert_eq!(project.path, "/root/real.csproj");
    let nothing = discover_project("/root", &names(&["bin/a.sln", "x/.vs/b.sln", "notes.txt"]));
    assert_eq!(nothing.kind, ProjectKind::Root);
}

#[test]
fn discovery_orders_paths_by_their_parts() {
    let project = discover_project("/root", &names(&["a-x/p.csproj", "a/p.csproj"]));
    assert_eq!(project.path, "/root/a/p.csproj");
}

fn config_with_java(java: JavaLspConfig) -> Config {
    Config {
        java,
        ..Config::with_base("/data")
    }
}

fn fake_jdtls_plugins() -> Plugins {
    Plugins {
        unversioned: false,
        entries: names(&["org.eclipse.equinox.launcher_1.8.0.v20260804-1928.jar"]),
    }
}

#[test]
fn adapter_reports_java() {
    let config = config_with_java(JavaLspConfig {
        path: Some("/jdtls".into()),
        args: vec![],
        disabled: false,
    });
    let server = JavaServer::new(&config, 60);
    assert_eq!(server.languages(), &["java"]);
    assert!(server.enabled());
}

#[test]
fn java_empty_or_missing_path_is_not_enabled() {
    let missing = config_with_java(JavaLspConfig::default());
    assert!(!JavaServer::new(&missing, 60).enabled());
    assert!(JavaServer::new(&missing, 60)
        .transport_config("/tmp", &fake_jdtls_plugins(), Platform::Other)
        .is_none());

    let empty = config_with_java(JavaLspConfig {
        path: Some("   ".into()),
        args: vec![],
        disabled: false,
    });
    assert!(!JavaServer::new(&empty, 60).enabled());

    let disabled = config_with_java(JavaLspConfig {
        path: Some("/jdtls".into()),
        args: vec![],
        disabled: true,
    });
    assert!(!JavaServer::new(&disabled, 60).enabled());
}

#[test]
fn missing_launcher_jar_yields_no_transport() {
    let config = config_with_java(JavaLspConfig {
        path: Some("/jdtls".into()),
        args: vec![],
        disabled: false,
    });
    let server = JavaServer::new(&config, 30);
    let none = Plugins {
        unversioned: false,
        entries: names(&["org.eclipse.core.jar"]),
    };
    assert!(server
        .transport_config("/workspace", &none, Platform::Other)
        .is_none());
}

#[test]
fn transport_spawns_java_directly_with_launcher_and_data_flags() {
    let config = config_with_java(JavaLspConfig {
        path: Some("/jdtls".into()),
        args: vec!["-Xmx2G".into()],
        disabled: false,
    });
    let server = JavaServer::new(&config, 30);
    let transport = server
        .transport_config("/workspace", &fake_jdtls_plugins(), Platform::Windows)
        .unwrap();
    assert_eq!(transport.executable, "java");
    assert!(transport.args.iter().any(|a| a == "-jar"));
    assert!(transport
        .args
        .iter()
        .any(|a| a.contains("org.eclipse.equinox.launcher")));
    assert!(transport.args.iter().any(|a| a == "-data"));
    assert!(transport
        .args
        .iter()
        .any(|a| a == "-Dosgi.sharedConfiguration.area=/jdtls/config_win"));
    assert_eq!(transport.args.last(), Some(&"-Xmx2G".to_string()));
}

#[test]
fn same_workspace_gets_a_stable_data_dir_across_calls() {
    let config = config_with_java(JavaLspConfig {
        path: Some("/jdtls".into()),
        args: vec![],
        disabled: false,
    });
    let server = JavaServer::new(&config, 30);
    let plugins = fake_jdtls_plugins();
    let first = server
        .transport_config("/workspace", &plugins, Platform::MacOs)
        .unwrap();
    let second = server
        .transport_config("/workspace", &plugins, Platform::MacOs)
        .unwrap();
    let data_index = first.args.iter().position(|a| a == "-data").unwrap() + 1;
    assert_eq!(first.args[data_index], second.args[data_index]);
    assert_ne!(server.workspace_data_dir("/other"), first.args[data_index]);
}

#[test]
fn an_unversioned_launcher_comes_first() {
    let config = config_with_java(JavaLspConfig {
        path: Some("/jdtls".into()),
        args: vec![],
        disabled: false,
    });
    let plugins = Plugins {
        unversioned: true,
        entries: names(&["org.eclipse.equinox.launcher_1.jar"]),
    };
    let transport = JavaServer::new(&config, 30)
        .transport_config("/workspace", &plugins, Platform::Other)
        .unwrap();
    assert!(transport
        .args
        .contains(&"/jdtls/plugins/org.eclipse.equinox.launcher.jar".to_string()));
}

fn status(method: &str, kind: &str, message: &str) -> Json {
    json::with(
        json::object("method", Json::text(method)),
        "params",
        json::with(
            json::object("type", Json::text(kind)),
            "message",
            Json::text(message),
        ),
    )
}

#[test]
fn ready_predicate_matches_only_started_status() {
    let config = config_with_java(JavaLspConfig::default());
    let predicate = JavaServer::new(&config, 30).ready_predicate();
    assert!(predicate.matches(&status("language/status", "Started", "Ready")));
    assert!(!predicate.matches(&status("language/status", "Starting", "Init...")));
    assert!(!predicate.matches(&json::object(
        "method",
        Json::text("textDocument/publishDiagnostics")
    )));
}

#[test]
fn java_server_can_be_represented_without_a_process() {
    let config = config_with_java(JavaLspConfig {
        path: Some("/jdtls".into()),
        args: vec![],
        disabled: false,
    });
    let params = JavaServer::new(&config, 30)
        .initialize_params("/tmp", 7)
        .unwrap();
    assert_eq!(params.u64_of("processId"), Some(7));
    assert!(params.text_of("rootUri").is_some());
}

#[test]
fn disabled_servers_are_not_started() {
    let config = GoLspConfig {
        path: Some("gopls".into()),
        args: vec![],
        disabled: true,
    };
    let server = GoServer::new(&config, 60);
    assert!(server.transport_config("/tmp").is_none());
    assert!(server.initialize_params("/tmp", 7).is_none());
}

#[test]
fn rust_analyzer_is_always_enabled() {
    let server = RustServer::new(&Config::with_base("/data"));
    assert!(server.enabled());
    assert_eq!(server.configured_command(), Some("rust-analyzer".into()));
    assert_eq!(server.readiness_component_name(), "rust_analyzer_available");
    let transport = server.transport_config("/w").unwrap();
    assert_eq!(transport.executable, "rust-analyzer");
    assert_eq!(transport.timeout_seconds, 60);
    assert!(transport.args.is_empty());
    assert_eq!(server.readiness_wait(false), Some(10));
    assert_eq!(server.readiness_wait(true), None);
    let params = server.initialize_with("/w/project", "file:///w/project/", 7);
    let folders = match params.get("workspaceFolders") {
        Some(Json::List(folders)) => folders,
        _ => panic!("no folders"),
    };
    assert_eq!(folders[0].text_of("name"), Some("project"));
    assert_eq!(folders[0].text_of("uri"), Some("file:///w/project/"));
    let search = params
        .get("initializationOptions")
        .and_then(|v| v.get("workspace"))
        .and_then(|v| v.get("symbol"))
        .and_then(|v| v.get("search"))
        .unwrap();
    assert_eq!(search.u64_of("limit"), Some(256));
}

#[test]
fn directories_have_addresses() {
    let config = ClangdLspConfig {
        path: Some("clangd".into()),
        args: vec![],
        disabled: false,
    };
    let server = ClangdServer::new(&config, 30);
    let params = server.initialize_params("/tmp/a b", 7).unwrap();
    assert_eq!(params.text_of("rootUri"), Some("file:///tmp/a%20b/"));
    assert!(server.initialize_params("tmp", 7).is_none());
    let disabled = ClangdLspConfig {
        disabled: true,
        ..config
    };
    assert!(ClangdServer::new(&disabled, 30).initialize_params("/tmp", 7).is_none());
}

use local_code_intelligence::config::{
    CSharpLspConfig, Config, ConfigError, GoLspConfig, IndexConfig, IndexFreshness,
    PythonLspConfig, TypeScriptLspConfig,
};

fn base() -> Config {
    Config {
        data_dir: "/tmp".to_owned(),
        ..Config::with_base("/tmp")
    }
}

#[test]
fn default_config_loads_and_csharp_is_disabled() {
    let config = Config::default();
    config.validate().unwrap();
    assert!(!config.csharp.enabled());
    assert!(config.csharp.path.is_none());
    assert!(config.csharp.args.is_empty());
    assert!(!config.csharp.disabled);
}

#[test]
fn old_config_shape_still_loads() {
    let config = Config {
        rust_analyzer_path: "rust-analyzer".to_owned(),
        lsp_timeout_seconds: 60,
        lsp_candidate_count: 40,
        ..base()
    };
    config.validate().unwrap();
    assert_eq!(config.rust_analyzer_path, "rust-analyzer");
    assert_eq!(config.lsp_timeout_seconds, 60);
    assert_eq!(config.lsp_candidate_count, 40);
    assert!(!config.csharp.enabled());
}

#[test]
fn csharp_section_enables_server() {
    let config = Config {
        csharp: CSharpLspConfig {
            path: Some("csharp-ls".to_owned()),
            args: vec!["--stdio".to_owned()],
            disabled: false,
        },
        ..base()
    };
    config.validate().unwrap();
    assert!(config.csharp.enabled());
    assert_eq!(config.csharp.path.as_deref(), Some("csharp-ls"));
    assert_eq!(config.csharp.args, vec!["--stdio".to_string()]);
}

#[test]
fn csharp_disabled_flag_overrides_path() {
    let config = Config {
        csharp: CSharpLspConfig {
            path: Some("csharp-ls".to_owned()),
            args: vec![],
            disabled: true,
        },
        ..base()
    };
    config.validate().unwrap();
    assert!(!config.csharp.enabled());
}

#[test]
fn empty_csharp_path_is_rejected() {
    // An explicitly configured but empty path is malformed and must be
    // rejected rather than silently counting as enabled.
    let config = Config {
        csharp: CSharpLspConfig {
            path: Some("   ".to_owned()),
            args: vec![],
            disabled: false,
        },
        ..base()
    };
    let error = config.validate().unwrap_err();
    assert!(error.to_string().contains("csharp.path"));
}

#[test]
fn default_go_is_disabled() {
    let config = Config::default();
    config.validate().unwrap();
    assert!(!config.go.enabled());
    assert!(config.go.path.is_none());
}

#[test]
fn go_section_enables_server() {
    let config = Config {
        go: GoLspConfig {
            path: Some("gopls".to_owned()),
            args: vec![],
            disabled: false,
        },
        ..base()
    };
    config.validate().unwrap();
    assert!(config.go.enabled());
    assert_eq!(config.go.path.as_deref(), Some("gopls"));
}

#[test]
fn go_disabled_flag_overrides_path() {
    let config = Config {
        go: GoLspConfig {
            path: Some("gopls".to_owned()),
            args: vec![],
            disabled: true,
        },
        ..base()
    };
    config.validate().unwrap();
    assert!(!config.go.enabled());
}

#[test]
fn empty_go_path_is_rejected() {
    let config = Config {
        go: GoLspConfig {
            path: Some("   ".to_owned()),
            args: vec![],
            disabled: false,
        },
        ..base()
    };
    let error = config.validate().unwrap_err();
    assert!(error.to_string().contains("go.path"));
}

fn refused(config: Config) -> ConfigError {
    config.validate().unwrap_err()
}

#[test]
fn every_rule_refuses_its_inputs() {
    assert!(matches!(
        refused(Config { data_dir: "data".to_owned(), ..base() }),
        ConfigError::RelativeDataDir
    ));
    for count in [0, 201] {
        assert!(matches!(
            refused(Config { semantic_candidate_count: count, ..base() }),
            ConfigError::CandidateCounts
        ));
        assert!(matches!(
            refused(Config { lexical_candidate_count: count, ..base() }),
            ConfigError::CandidateCounts
        ));
        assert!(matches!(
            refused(Config { rerank_candidate_count: count, ..base() }),
            ConfigError::CandidateCounts
        ));
        assert!(matches!(
            refused(Config { lsp_candidate_count: count, ..base() }),
            ConfigError::CandidateCounts
        ));
    }
    for rrf_k in [0.0f32, -0.0, -1.0, f32::INFINITY, f32::NAN] {
        assert!(matches!(
            refused(Config { rrf_k: rrf_k.to_bits(), ..base() }),
            ConfigError::RrfK
        ));
    }
    assert!(matches!(
        refused(Config { watch_poll_milliseconds: 0, ..base() }),
        ConfigError::WatchIntervals
    ));
    assert!(matches!(
        refused(Config { watch_debounce_milliseconds: 0, ..base() }),
        ConfigError::WatchIntervals
    ));
    assert!(matches!(
        refused(Config { ripgrep_path: " ".to_owned(), ..base() }),
        ConfigError::RipgrepPath
    ));
    assert!(matches!(
        refused(Config { rust_analyzer_path: String::new(), ..base() }),
        ConfigError::RustAnalyzer
    ));
    assert!(matches!(
        refused(Config { lsp_timeout_seconds: 0, ..base() }),
        ConfigError::RustAnalyzer
    ));
    let typescript = TypeScriptLspConfig { path: Some(String::new()), args: vec![], disabled: false };
    assert!(matches!(
        refused(Config { typescript, ..base() }),
        ConfigError::TypeScriptPath
    ));
    let python = PythonLspConfig { path: Some(String::new()), args: vec![], disabled: false };
    assert!(matches!(
        refused(Config { python, ..base() }),
        ConfigError::PythonPath
    ));
    for top_k in [0, 41] {
        assert!(matches!(
            refused(Config { default_top_k: top_k, ..base() }),
            ConfigError::DefaultTopK
        ));
    }
    for size in [0, 65] {
        assert!(matches!(
            refused(Config { embedding_batch_size: size, ..base() }),
            ConfigError::EmbeddingBatchSize
        ));
    }
    assert!(matches!(
        refused(Config { embedding_timeout_seconds: 0, ..base() }),
        ConfigError::Timeouts
    ));
    assert!(matches!(
        refused(Config { reranker_timeout_seconds: 0, ..base() }),
        ConfigError::Timeouts
    ));
    for seconds in [0, 31] {
        assert!(matches!(
            refused(Config { readiness_timeout_seconds: seconds, ..base() }),
            ConfigError::ReadinessTimeout
        ));
    }
    assert!(matches!(
        refused(Config { embedding_url: "no address".to_owned(), ..base() }),
        ConfigError::InvalidUrl(_)
    ));
    assert!(matches!(
        refused(Config { reranker_url: "ftp://localhost/".to_owned(), ..base() }),
        ConfigError::UrlScheme
    ));
    assert!(matches!(
        refused(Config { embedding_model: String::new(), ..base() }),
        ConfigError::ModelNames
    ));
    assert!(matches!(
        refused(Config { reranker_model: String::new(), ..base() }),
        ConfigError::ModelNames
    ));
}

#[test]
fn the_first_rule_that_fails_is_reported() {
    let config = Config {
        rrf_k: 0,
        default_top_k: 0,
        ..base()
    };
    assert_eq!(refused(config).to_string(), "rrf_k must be positive");
    let relative = Config { rrf_k: 0, ..base() };
    assert!(matches!(
        relative.validate_with(false),
        Err(ConfigError::RelativeDataDir)
    ));
}

#[test]
fn defaults_are_the_documented_ones() {
    let config = Config::with_base("/home/me/.local/share");
    assert_eq!(config.data_dir, "/home/me/.local/share/local-code-intelligence");
    assert_eq!(config.rrf_k, 60.0f32.to_bits());
    assert_eq!(config.default_top_k, 8);
    assert_eq!(config.rerank_candidate_count, 24);
    assert_eq!(
        config.index,
        IndexConfig {
            freshness: IndexFreshness::OnSearch,
            stale_check_interval_seconds: 10,
            wait_for_existing_job_seconds: 120,
        }
    );
}

#[test]
fn slashes_behind_the_embedding_url_do_not_change_the_identity() {
    let plain = base().embedding_identity();
    assert_eq!(
        plain,
        "http://localhost:8766/v1|qwen3-embedding-4b|rust-chunks-v1"
    );
    let slashes = Config {
        embedding_url: "http://localhost:8766/v1//".to_owned(),
        ..base()
    };
    assert_eq!(slashes.embedding_identity(), plain);
}

#[test]
fn validation_of_given_schemes() {
    let scheme = |name: &str| Ok(name.to_owned());
    let config = base();
    assert!(config.validate_given(true, scheme("http"), scheme("https")).is_ok());
    assert!(matches!(
        config.validate_given(false, scheme("http"), scheme("http")),
        Err(ConfigError::RelativeDataDir)
    ));
    assert!(matches!(
        config.validate_given(true, scheme("ftp"), scheme("http")),
        Err(ConfigError::UrlScheme)
    ));
    assert!(matches!(
        config.validate_given(true, scheme("http"), scheme("file")),
        Err(ConfigError::UrlScheme)
    ));
    assert!(matches!(
        config.validate_given(true, scheme("http"), Err("no base".to_owned())),
        Err(ConfigError::InvalidUrl(text)) if text == "no base"
    ));
    let without_model = Config {
        embedding_model: " ".to_owned(),
        ..base()
    };
    assert!(matches!(
        without_model.validate_given(true, scheme("http"), scheme("http")),
        Err(ConfigError::ModelNames)
    ));
}

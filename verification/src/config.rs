//! Configuration and its validation.

use crate::{chunk, float, paths, text};
use vstd::prelude::*;

verus! {

/// Controls when a search request may trigger an automatic incremental refresh of a
/// workspace's index.
#[derive(Debug, Clone, Copy, PartialEq, Eq, Structural)]
pub enum IndexFreshness {
    /// Never refresh automatically.
    Manual,
    /// Check lazily on the first retrieval that needs it.
    OnSearch,
    /// Leave refreshing to the background watch.
    Watch,
}

impl Default for IndexFreshness {
    fn default() -> (r: Self)
        ensures
            r == IndexFreshness::OnSearch,
    {
        IndexFreshness::OnSearch
    }
}

/// When the index of a workspace is refreshed.
#[derive(Debug, Clone, Copy, PartialEq, Eq, Structural)]
pub struct IndexConfig {
    pub freshness: IndexFreshness,
    /// Minimum interval between filesystem staleness checks for a workspace.
    pub stale_check_interval_seconds: u64,
    /// How long a search waits for a concurrently running refresh job before
    /// falling back to the previous snapshot.
    pub wait_for_existing_job_seconds: u64,
}

impl Default for IndexConfig {
    fn default() -> (r: Self)
        ensures
            r == (IndexConfig {
                freshness: IndexFreshness::OnSearch,
                stale_check_interval_seconds: 10,
                wait_for_existing_job_seconds: 120,
            }),
    {
        IndexConfig {
            freshness: IndexFreshness::OnSearch,
            stale_check_interval_seconds: 10,
            wait_for_existing_job_seconds: 120,
        }
    }
}

// ---------------------------------------------------------------------------
// Language servers
// ---------------------------------------------------------------------------

/// A path is configured and is not blank.
pub open spec fn has_path(path: Option<String>) -> bool {
    path is Some && !text::blank(path->0@)
}

/// A path is configured, but blank.
pub open spec fn has_blank_path(path: Option<String>) -> bool {
    path is Some && text::blank(path->0@)
}

/// Report whether a path is configured and is not blank.
pub fn path_is_set(path: &Option<String>) -> (r: bool)
    ensures
        r == has_path(*path),
{
    match path {
        Some(path) => !text::is_blank(path.as_str()),
        None => false,
    }
}

fn path_is_blank(path: &Option<String>) -> (r: bool)
    ensures
        r == has_blank_path(*path),
{
    match path {
        Some(path) => text::is_blank(path.as_str()),
        None => false,
    }
}

/// Optional C# language-server (csharp-ls) configuration. An absent or empty
/// section keeps the server disabled without affecting syntax retrieval.
#[derive(Debug, PartialEq, Eq)]
pub struct CSharpLspConfig {
    /// Path to the executable. `None` keeps the server disabled.
    pub path: Option<String>,
    /// Additional arguments.
    pub args: Vec<String>,
    /// Explicitly disable the server even when a path is configured.
    pub disabled: bool,
}

impl CSharpLspConfig {
    /// Whether the language server is enabled: it is not explicitly disabled and a
    /// nonempty path is configured.
    pub fn enabled(&self) -> (r: bool)
        ensures
            r == (!self.disabled && has_path(self.path)),
    {
        !self.disabled && path_is_set(&self.path)
    }
}

impl Default for CSharpLspConfig {
    fn default() -> (r: Self)
        ensures
            r.path is None,
            r.args@.len() == 0,
            !r.disabled,
    {
        CSharpLspConfig { path: None, args: Vec::new(), disabled: false }
    }
}

impl Clone for CSharpLspConfig {
    fn clone(&self) -> (r: Self)
        ensures
            r.path == self.path,
            text::views(r.args@) == text::views(self.args@),
            r.disabled == self.disabled,
    {
        CSharpLspConfig {
            path: text::clone_option(&self.path),
            args: text::clone_texts(&self.args),
            disabled: self.disabled,
        }
    }
}

/// Optional TypeScript/JavaScript language-server (typescript-language-server) configuration. An absent or empty
/// section keeps the server disabled without affecting syntax retrieval.
#[derive(Debug, PartialEq, Eq)]
pub struct TypeScriptLspConfig {
    /// Path to the executable. `None` keeps the server disabled.
    pub path: Option<String>,
    /// Additional arguments.
    pub args: Vec<String>,
    /// Explicitly disable the server even when a path is configured.
    pub disabled: bool,
}

impl TypeScriptLspConfig {
    /// Whether the language server is enabled: it is not explicitly disabled and a
    /// nonempty path is configured.
    pub fn enabled(&self) -> (r: bool)
        ensures
            r == (!self.disabled && has_path(self.path)),
    {
        !self.disabled && path_is_set(&self.path)
    }
}

impl Default for TypeScriptLspConfig {
    fn default() -> (r: Self)
        ensures
            r.path is None,
            r.args@.len() == 0,
            !r.disabled,
    {
        TypeScriptLspConfig { path: None, args: Vec::new(), disabled: false }
    }
}

impl Clone for TypeScriptLspConfig {
    fn clone(&self) -> (r: Self)
        ensures
            r.path == self.path,
            text::views(r.args@) == text::views(self.args@),
            r.disabled == self.disabled,
    {
        TypeScriptLspConfig {
            path: text::clone_option(&self.path),
            args: text::clone_texts(&self.args),
            disabled: self.disabled,
        }
    }
}

/// Optional Python language-server (pyright) configuration. An absent or empty
/// section keeps the server disabled without affecting syntax retrieval.
#[derive(Debug, PartialEq, Eq)]
pub struct PythonLspConfig {
    /// Path to the executable. `None` keeps the server disabled.
    pub path: Option<String>,
    /// Additional arguments.
    pub args: Vec<String>,
    /// Explicitly disable the server even when a path is configured.
    pub disabled: bool,
}

impl PythonLspConfig {
    /// Whether the language server is enabled: it is not explicitly disabled and a
    /// nonempty path is configured.
    pub fn enabled(&self) -> (r: bool)
        ensures
            r == (!self.disabled && has_path(self.path)),
    {
        !self.disabled && path_is_set(&self.path)
    }
}

impl Default for PythonLspConfig {
    fn default() -> (r: Self)
        ensures
            r.path is None,
            r.args@.len() == 0,
            !r.disabled,
    {
        PythonLspConfig { path: None, args: Vec::new(), disabled: false }
    }
}

impl Clone for PythonLspConfig {
    fn clone(&self) -> (r: Self)
        ensures
            r.path == self.path,
            text::views(r.args@) == text::views(self.args@),
            r.disabled == self.disabled,
    {
        PythonLspConfig {
            path: text::clone_option(&self.path),
            args: text::clone_texts(&self.args),
            disabled: self.disabled,
        }
    }
}

/// Optional Go language-server (gopls) configuration. An absent or empty
/// section keeps the server disabled without affecting syntax retrieval.
#[derive(Debug, PartialEq, Eq)]
pub struct GoLspConfig {
    /// Path to the executable. `None` keeps the server disabled.
    pub path: Option<String>,
    /// Additional arguments.
    pub args: Vec<String>,
    /// Explicitly disable the server even when a path is configured.
    pub disabled: bool,
}

impl GoLspConfig {
    /// Whether the language server is enabled: it is not explicitly disabled and a
    /// nonempty path is configured.
    pub fn enabled(&self) -> (r: bool)
        ensures
            r == (!self.disabled && has_path(self.path)),
    {
        !self.disabled && path_is_set(&self.path)
    }
}

impl Default for GoLspConfig {
    fn default() -> (r: Self)
        ensures
            r.path is None,
            r.args@.len() == 0,
            !r.disabled,
    {
        GoLspConfig { path: None, args: Vec::new(), disabled: false }
    }
}

impl Clone for GoLspConfig {
    fn clone(&self) -> (r: Self)
        ensures
            r.path == self.path,
            text::views(r.args@) == text::views(self.args@),
            r.disabled == self.disabled,
    {
        GoLspConfig {
            path: text::clone_option(&self.path),
            args: text::clone_texts(&self.args),
            disabled: self.disabled,
        }
    }
}

/// Optional Java language-server (jdtls) configuration. An absent or empty
/// section keeps the server disabled without affecting syntax retrieval.
#[derive(Debug, PartialEq, Eq)]
pub struct JavaLspConfig {
    /// Directory of the jdtls installation. `None` keeps the server disabled.
    pub path: Option<String>,
    /// Additional arguments.
    pub args: Vec<String>,
    /// Explicitly disable the server even when a path is configured.
    pub disabled: bool,
}

impl JavaLspConfig {
    /// Whether the language server is enabled: it is not explicitly disabled and a
    /// nonempty path is configured.
    pub fn enabled(&self) -> (r: bool)
        ensures
            r == (!self.disabled && has_path(self.path)),
    {
        !self.disabled && path_is_set(&self.path)
    }
}

impl Default for JavaLspConfig {
    fn default() -> (r: Self)
        ensures
            r.path is None,
            r.args@.len() == 0,
            !r.disabled,
    {
        JavaLspConfig { path: None, args: Vec::new(), disabled: false }
    }
}

impl Clone for JavaLspConfig {
    fn clone(&self) -> (r: Self)
        ensures
            r.path == self.path,
            text::views(r.args@) == text::views(self.args@),
            r.disabled == self.disabled,
    {
        JavaLspConfig {
            path: text::clone_option(&self.path),
            args: text::clone_texts(&self.args),
            disabled: self.disabled,
        }
    }
}

/// Optional C/C++ language-server (clangd) configuration. An absent or empty
/// section keeps the server disabled without affecting syntax retrieval.
#[derive(Debug, PartialEq, Eq)]
pub struct ClangdLspConfig {
    /// Path to the executable. `None` keeps the server disabled.
    pub path: Option<String>,
    /// Additional arguments.
    pub args: Vec<String>,
    /// Explicitly disable the server even when a path is configured.
    pub disabled: bool,
}

impl ClangdLspConfig {
    /// Whether the language server is enabled: it is not explicitly disabled and a
    /// nonempty path is configured.
    pub fn enabled(&self) -> (r: bool)
        ensures
            r == (!self.disabled && has_path(self.path)),
    {
        !self.disabled && path_is_set(&self.path)
    }
}

impl Default for ClangdLspConfig {
    fn default() -> (r: Self)
        ensures
            r.path is None,
            r.args@.len() == 0,
            !r.disabled,
    {
        ClangdLspConfig { path: None, args: Vec::new(), disabled: false }
    }
}

impl Clone for ClangdLspConfig {
    fn clone(&self) -> (r: Self)
        ensures
            r.path == self.path,
            text::views(r.args@) == text::views(self.args@),
            r.disabled == self.disabled,
    {
        ClangdLspConfig {
            path: text::clone_option(&self.path),
            args: text::clone_texts(&self.args),
            disabled: self.disabled,
        }
    }
}

// ---------------------------------------------------------------------------
// The configuration
// ---------------------------------------------------------------------------

/// The configuration of the application. `rrf_k` is a single-precision number by its
/// bits.
#[derive(Debug)]
pub struct Config {
    pub embedding_url: String,
    pub embedding_model: String,
    pub reranker_url: String,
    pub reranker_model: String,
    pub data_dir: String,
    pub default_top_k: usize,
    pub embedding_batch_size: usize,
    pub embedding_timeout_seconds: u64,
    pub reranker_timeout_seconds: u64,
    pub readiness_timeout_seconds: u64,
    pub ripgrep_path: String,
    pub semantic_candidate_count: usize,
    pub lexical_candidate_count: usize,
    pub rerank_candidate_count: usize,
    pub rrf_k: u32,
    pub watch_poll_milliseconds: u64,
    pub watch_debounce_milliseconds: u64,
    pub rust_analyzer_path: String,
    pub lsp_timeout_seconds: u64,
    pub lsp_candidate_count: usize,
    pub csharp: CSharpLspConfig,
    pub typescript: TypeScriptLspConfig,
    pub python: PythonLspConfig,
    pub go: GoLspConfig,
    pub java: JavaLspConfig,
    pub clangd: ClangdLspConfig,
    pub index: IndexConfig,
}

/// The bits of 60, the default constant of Reciprocal Rank Fusion.
pub const DEFAULT_RRF_K: u32 = 0x4270_0000;

/// A language server is not configured.
pub open spec fn is_unset(path: Option<String>, args: Vec<String>, disabled: bool) -> bool {
    path is None && args@.len() == 0 && !disabled
}

/// The default configuration, with the data below `base`.
pub open spec fn is_default(config: Config, base: Seq<char>) -> bool {
    &&& config.embedding_url@ == "http://localhost:8766/v1"@
    &&& config.embedding_model@ == "qwen3-embedding-4b"@
    &&& config.reranker_url@ == "http://localhost:8767/rerank"@
    &&& config.reranker_model@ == "qwen3-reranker-4b"@
    &&& config.data_dir@ == paths::below(base, "local-code-intelligence"@)
    &&& config.default_top_k == 8
    &&& config.embedding_batch_size == 8
    &&& config.embedding_timeout_seconds == 120
    &&& config.reranker_timeout_seconds == 120
    &&& config.readiness_timeout_seconds == 5
    &&& config.ripgrep_path@ == "rg"@
    &&& config.semantic_candidate_count == 40
    &&& config.lexical_candidate_count == 40
    &&& config.rerank_candidate_count == 24
    &&& config.rrf_k == DEFAULT_RRF_K
    &&& config.watch_poll_milliseconds == 2000
    &&& config.watch_debounce_milliseconds == 750
    &&& config.rust_analyzer_path@ == "rust-analyzer"@
    &&& config.lsp_timeout_seconds == 60
    &&& config.lsp_candidate_count == 40
    &&& is_unset(config.csharp.path, config.csharp.args, config.csharp.disabled)
    &&& is_unset(config.typescript.path, config.typescript.args, config.typescript.disabled)
    &&& is_unset(config.python.path, config.python.args, config.python.disabled)
    &&& is_unset(config.go.path, config.go.args, config.go.disabled)
    &&& is_unset(config.java.path, config.java.args, config.java.disabled)
    &&& is_unset(config.clangd.path, config.clangd.args, config.clangd.disabled)
    &&& config.index == (IndexConfig {
        freshness: IndexFreshness::OnSearch,
        stale_check_interval_seconds: 10,
        wait_for_existing_job_seconds: 120,
    })
}

/// Calls `dirs::data_local_dir`. The directory depends on the platform and on its
/// environment, so nothing is promised of it; `None` also stands for one that is not
/// valid Unicode.
#[verifier::external_body]
fn local_data_dir() -> Option<String> {
    dirs::data_local_dir()?.into_os_string().into_string().ok()
}

/// What platforms answer where they are asked whether a path is absolute.
pub uninterp spec fn absolute_answers(path: Seq<char>) -> Set<bool>;

/// Calls `std::path::Path::is_absolute`. What is absolute depends on the path and the
/// platform: the answer is one of those that platforms give for the path, and which of them
/// is left open.
#[verifier::external_body]
fn is_absolute_path(path: &str) -> (r: bool)
    ensures
        absolute_answers(path@).contains(r),
{
    std::path::Path::new(path).is_absolute()
}

/// The scheme of a URL, or the text of the error that it is refused with.
pub uninterp spec fn url_scheme(url: Seq<char>) -> Result<Seq<char>, Seq<char>>;

/// The scheme of a parsed URL, or the text of its error.
pub open spec fn scheme_view(scheme: Result<String, String>) -> Result<Seq<char>, Seq<char>> {
    match scheme {
        Ok(name) => Ok(name@),
        Err(error) => Err(error@),
    }
}

/// Calls `reqwest::Url::parse` and `reqwest::Url::scheme`. What is a URL, and the text of
/// the error where a text is none, are named, not stated.
#[verifier::external_body]
fn parse_scheme(url: &str) -> (r: Result<String, String>)
    ensures
        scheme_view(r) == url_scheme(url@),
{
    match reqwest::Url::parse(url) {
        Ok(parsed) => Ok(parsed.scheme().to_string()),
        Err(error) => Err(error.to_string()),
    }
}

/// Why a configuration is refused.
#[derive(Debug)]
pub enum ConfigError {
    RelativeDataDir,
    CandidateCounts,
    RrfK,
    WatchIntervals,
    RipgrepPath,
    RustAnalyzer,
    CSharpPath,
    TypeScriptPath,
    PythonPath,
    GoPath,
    DefaultTopK,
    EmbeddingBatchSize,
    Timeouts,
    ReadinessTimeout,
    /// A model URL cannot be parsed.
    InvalidUrl(String),
    UrlScheme,
    ModelNames,
}

/// What a [`ConfigError`] says.
pub enum Refused {
    RelativeDataDir,
    CandidateCounts,
    RrfK,
    WatchIntervals,
    RipgrepPath,
    RustAnalyzer,
    CSharpPath,
    TypeScriptPath,
    PythonPath,
    GoPath,
    DefaultTopK,
    EmbeddingBatchSize,
    Timeouts,
    ReadinessTimeout,
    InvalidUrl(Seq<char>),
    UrlScheme,
    ModelNames,
}

impl View for ConfigError {
    type V = Refused;

    open spec fn view(&self) -> Refused {
        match self {
            ConfigError::RelativeDataDir => Refused::RelativeDataDir,
            ConfigError::CandidateCounts => Refused::CandidateCounts,
            ConfigError::RrfK => Refused::RrfK,
            ConfigError::WatchIntervals => Refused::WatchIntervals,
            ConfigError::RipgrepPath => Refused::RipgrepPath,
            ConfigError::RustAnalyzer => Refused::RustAnalyzer,
            ConfigError::CSharpPath => Refused::CSharpPath,
            ConfigError::TypeScriptPath => Refused::TypeScriptPath,
            ConfigError::PythonPath => Refused::PythonPath,
            ConfigError::GoPath => Refused::GoPath,
            ConfigError::DefaultTopK => Refused::DefaultTopK,
            ConfigError::EmbeddingBatchSize => Refused::EmbeddingBatchSize,
            ConfigError::Timeouts => Refused::Timeouts,
            ConfigError::ReadinessTimeout => Refused::ReadinessTimeout,
            ConfigError::InvalidUrl(error) => Refused::InvalidUrl(error@),
            ConfigError::UrlScheme => Refused::UrlScheme,
            ConfigError::ModelNames => Refused::ModelNames,
        }
    }
}

impl Refused {
    /// The text of the error.
    pub open spec fn text(self) -> Seq<char> {
        match self {
            Refused::RelativeDataDir => "data_dir must be absolute; set it explicitly if the platform's local data directory is unavailable"@,
            Refused::CandidateCounts => "candidate counts must be 1..=200"@,
            Refused::RrfK => "rrf_k must be positive"@,
            Refused::WatchIntervals => "watch intervals must be positive"@,
            Refused::RipgrepPath => "ripgrep_path must be nonempty"@,
            Refused::RustAnalyzer => "rust-analyzer path must be nonempty and LSP timeout must be positive"@,
            Refused::CSharpPath => "csharp.path must be nonempty when set; omit it or set csharp.disabled = true to keep C# tooling disabled"@,
            Refused::TypeScriptPath => "typescript.path must be nonempty when set; omit it or set typescript.disabled = true to keep TypeScript/JavaScript navigation disabled"@,
            Refused::PythonPath => "python.path must be nonempty when set; omit it or set python.disabled = true to keep Python navigation disabled"@,
            Refused::GoPath => "go.path must be nonempty when set; omit it or set go.disabled = true to keep Go navigation disabled"@,
            Refused::DefaultTopK => "default_top_k must be 1..=40"@,
            Refused::EmbeddingBatchSize => "embedding_batch_size must be 1..=64"@,
            Refused::Timeouts => "timeouts must be positive"@,
            Refused::ReadinessTimeout => "readiness_timeout_seconds must be 1..=30"@,
            Refused::InvalidUrl(error) => error,
            Refused::UrlScheme => "model URL must use HTTP(S)"@,
            Refused::ModelNames => "model names must be nonempty"@,
        }
    }
}

impl ConfigError {
    /// The text of the error.
    pub fn to_string(&self) -> (r: String)
        ensures
            r@ == self@.text(),
    {
        match self {
            ConfigError::RelativeDataDir => {
                "data_dir must be absolute; set it explicitly if the platform's local data directory is unavailable".to_owned()
            },
            ConfigError::CandidateCounts => {
                "candidate counts must be 1..=200".to_owned()
            },
            ConfigError::RrfK => {
                "rrf_k must be positive".to_owned()
            },
            ConfigError::WatchIntervals => {
                "watch intervals must be positive".to_owned()
            },
            ConfigError::RipgrepPath => {
                "ripgrep_path must be nonempty".to_owned()
            },
            ConfigError::RustAnalyzer => {
                "rust-analyzer path must be nonempty and LSP timeout must be positive".to_owned()
            },
            ConfigError::CSharpPath => {
                "csharp.path must be nonempty when set; omit it or set csharp.disabled = true to keep C# tooling disabled".to_owned()
            },
            ConfigError::TypeScriptPath => {
                "typescript.path must be nonempty when set; omit it or set typescript.disabled = true to keep TypeScript/JavaScript navigation disabled".to_owned()
            },
            ConfigError::PythonPath => {
                "python.path must be nonempty when set; omit it or set python.disabled = true to keep Python navigation disabled".to_owned()
            },
            ConfigError::GoPath => {
                "go.path must be nonempty when set; omit it or set go.disabled = true to keep Go navigation disabled".to_owned()
            },
            ConfigError::DefaultTopK => {
                "default_top_k must be 1..=40".to_owned()
            },
            ConfigError::EmbeddingBatchSize => {
                "embedding_batch_size must be 1..=64".to_owned()
            },
            ConfigError::Timeouts => {
                "timeouts must be positive".to_owned()
            },
            ConfigError::ReadinessTimeout => {
                "readiness_timeout_seconds must be 1..=30".to_owned()
            },
            ConfigError::InvalidUrl(error) => error.clone(),
            ConfigError::UrlScheme => {
                "model URL must use HTTP(S)".to_owned()
            },
            ConfigError::ModelNames => {
                "model names must be nonempty".to_owned()
            },
        }
    }
}

/// A model URL is refused, by its scheme or its error.
pub open spec fn scheme_refusal(scheme: Result<Seq<char>, Seq<char>>) -> Option<Refused> {
    match scheme {
        Err(error) => Some(Refused::InvalidUrl(error)),
        Ok(scheme) => if scheme == "http"@ || scheme == "https"@ {
            None
        } else {
            Some(Refused::UrlScheme)
        },
    }
}

/// The rules of a configuration, in the order in which they are tried, given the schemes
/// of its two URLs or their errors.
pub open spec fn refusal_with(
    config: Config,
    data_dir_is_absolute: bool,
    embedding: Result<Seq<char>, Seq<char>>,
    reranker: Result<Seq<char>, Seq<char>>,
) -> Option<Refused> {
    if !data_dir_is_absolute {
        Some(Refused::RelativeDataDir)
    } else if !(1 <= config.semantic_candidate_count <= 200 && 1 <= config.lexical_candidate_count
        <= 200 && 1 <= config.rerank_candidate_count <= 200 && 1 <= config.lsp_candidate_count
        <= 200) {
        Some(Refused::CandidateCounts)
    } else if !float::is_positive(config.rrf_k) {
        Some(Refused::RrfK)
    } else if config.watch_poll_milliseconds == 0 || config.watch_debounce_milliseconds == 0 {
        Some(Refused::WatchIntervals)
    } else if text::blank(config.ripgrep_path@) {
        Some(Refused::RipgrepPath)
    } else if text::blank(config.rust_analyzer_path@) || config.lsp_timeout_seconds == 0 {
        Some(Refused::RustAnalyzer)
    } else if !config.csharp.disabled && has_blank_path(config.csharp.path) {
        Some(Refused::CSharpPath)
    } else if !config.typescript.disabled && has_blank_path(config.typescript.path) {
        Some(Refused::TypeScriptPath)
    } else if !config.python.disabled && has_blank_path(config.python.path) {
        Some(Refused::PythonPath)
    } else if !config.go.disabled && has_blank_path(config.go.path) {
        Some(Refused::GoPath)
    } else if !(1 <= config.default_top_k <= 40) {
        Some(Refused::DefaultTopK)
    } else if !(1 <= config.embedding_batch_size <= 64) {
        Some(Refused::EmbeddingBatchSize)
    } else if config.embedding_timeout_seconds == 0 || config.reranker_timeout_seconds == 0 {
        Some(Refused::Timeouts)
    } else if !(1 <= config.readiness_timeout_seconds <= 30) {
        Some(Refused::ReadinessTimeout)
    } else if scheme_refusal(embedding) is Some {
        scheme_refusal(embedding)
    } else if scheme_refusal(reranker) is Some {
        scheme_refusal(reranker)
    } else if config.embedding_model@.len() == 0 || config.reranker_model@.len() == 0 {
        Some(Refused::ModelNames)
    } else {
        None
    }
}

/// The rules of a configuration, in the order in which they are tried.
pub open spec fn refusal(config: Config, data_dir_is_absolute: bool) -> Option<Refused> {
    refusal_with(
        config,
        data_dir_is_absolute,
        url_scheme(config.embedding_url@),
        url_scheme(config.reranker_url@),
    )
}

/// A URL without the slashes at its end.
pub open spec fn without_trailing_slash(url: Seq<char>) -> Seq<char>
    decreases url.len(),
{
    if url.len() > 0 && url.last() == '/' {
        without_trailing_slash(url.drop_last())
    } else {
        url
    }
}

proof fn lemma_trailing_slash(url: Seq<char>, n: int)
    requires
        0 <= n <= url.len(),
        forall|k: int| n <= k < url.len() ==> url[k] == '/',
    ensures
        without_trailing_slash(url) == without_trailing_slash(url.take(n)),
    decreases url.len() - n,
{
    if n < url.len() {
        assert(url.drop_last().take(n) =~= url.take(n));
        lemma_trailing_slash(url.drop_last(), n);
    } else {
        assert(url.take(n) =~= url);
    }
}

/// A URL without the slashes at its end.
pub fn trim_trailing_slash(url: &str) -> (r: String)
    ensures
        r@ == without_trailing_slash(url@),
{
    let chars = text::chars_of(url);
    let mut end: usize = chars.len();
    while end > 0 && chars[end - 1] == '/'
        invariant
            end <= chars@.len(),
            forall|k: int| end <= k < chars@.len() ==> chars@[k] == '/',
        decreases end,
    {
        end = end - 1;
    }
    let out = text::string_of(&chars, 0, end);
    proof {
        lemma_trailing_slash(url@, end as int);
        assert(out@ =~= url@.take(end as int));
    }
    out
}

fn check_scheme(scheme: Result<String, String>) -> (r: Result<(), ConfigError>)
    ensures
        match r {
            Ok(_) => scheme_refusal(scheme_view(scheme)) is None,
            Err(error) => scheme_refusal(scheme_view(scheme)) == Some(error@),
        },
{
    match scheme {
        Ok(scheme) => if text::str_eq(scheme.as_str(), "http") || text::str_eq(
            scheme.as_str(),
            "https",
        ) {
            Ok(())
        } else {
            Err(ConfigError::UrlScheme)
        },
        Err(error) => Err(ConfigError::InvalidUrl(error)),
    }
}

/// The vectors that an index holds: what they were made with.
pub open spec fn identity(config: Config) -> Seq<char> {
    without_trailing_slash(config.embedding_url@) + "|"@ + config.embedding_model@ + "|"@
        + chunk::DOCUMENT_FORMAT_VERSION@
}

impl Config {
    /// The default configuration, with the data below `base`.
    pub fn with_base(base: &str) -> (r: Self)
        ensures
            is_default(r, base@),
    {
        Config {
            embedding_url: "http://localhost:8766/v1".to_owned(),
            embedding_model: "qwen3-embedding-4b".to_owned(),
            reranker_url: "http://localhost:8767/rerank".to_owned(),
            reranker_model: "qwen3-reranker-4b".to_owned(),
            data_dir: paths::join_path(base, "local-code-intelligence"),
            default_top_k: 8,
            embedding_batch_size: 8,
            embedding_timeout_seconds: 120,
            reranker_timeout_seconds: 120,
            readiness_timeout_seconds: 5,
            ripgrep_path: "rg".to_owned(),
            semantic_candidate_count: 40,
            lexical_candidate_count: 40,
            rerank_candidate_count: 24,
            rrf_k: DEFAULT_RRF_K,
            watch_poll_milliseconds: 2000,
            watch_debounce_milliseconds: 750,
            rust_analyzer_path: "rust-analyzer".to_owned(),
            lsp_timeout_seconds: 60,
            lsp_candidate_count: 40,
            csharp: CSharpLspConfig::default(),
            typescript: TypeScriptLspConfig::default(),
            python: PythonLspConfig::default(),
            go: GoLspConfig::default(),
            java: JavaLspConfig::default(),
            clangd: ClangdLspConfig::default(),
            index: IndexConfig::default(),
        }
    }

    /// Test a configuration, given whether its data directory is an absolute path.
    pub fn validate_with(&self, data_dir_is_absolute: bool) -> (r: Result<(), ConfigError>)
        ensures
            match r {
                Ok(_) => refusal(*self, data_dir_is_absolute) is None,
                Err(error) => refusal(*self, data_dir_is_absolute) == Some(error@),
            },
    {
        let embedding = parse_scheme(self.embedding_url.as_str());
        let reranker = parse_scheme(self.reranker_url.as_str());
        self.validate_given(data_dir_is_absolute, embedding, reranker)
    }

    /// Test a configuration, given whether its data directory is an absolute path, and the
    /// schemes of its URLs or the errors that they are refused with.
    pub fn validate_given(
        &self,
        data_dir_is_absolute: bool,
        embedding: Result<String, String>,
        reranker: Result<String, String>,
    ) -> (r: Result<(), ConfigError>)
        ensures
            ({
                let refused = refusal_with(
                    *self,
                    data_dir_is_absolute,
                    scheme_view(embedding),
                    scheme_view(reranker),
                );
                match r {
                    Ok(_) => refused is None,
                    Err(error) => refused == Some(error@),
                }
            }),
    {
        if !data_dir_is_absolute {
            return Err(ConfigError::RelativeDataDir);
        }
        if !(1 <= self.semantic_candidate_count && self.semantic_candidate_count <= 200 && 1
            <= self.lexical_candidate_count && self.lexical_candidate_count <= 200 && 1
            <= self.rerank_candidate_count && self.rerank_candidate_count <= 200 && 1
            <= self.lsp_candidate_count && self.lsp_candidate_count <= 200) {
            return Err(ConfigError::CandidateCounts);
        }
        if !float::positive(self.rrf_k) {
            return Err(ConfigError::RrfK);
        }
        if self.watch_poll_milliseconds == 0 || self.watch_debounce_milliseconds == 0 {
            return Err(ConfigError::WatchIntervals);
        }
        if text::is_blank(self.ripgrep_path.as_str()) {
            return Err(ConfigError::RipgrepPath);
        }
        if text::is_blank(self.rust_analyzer_path.as_str()) || self.lsp_timeout_seconds == 0 {
            return Err(ConfigError::RustAnalyzer);
        }
        if !self.csharp.disabled && path_is_blank(&self.csharp.path) {
            return Err(ConfigError::CSharpPath);
        }
        if !self.typescript.disabled && path_is_blank(&self.typescript.path) {
            return Err(ConfigError::TypeScriptPath);
        }
        if !self.python.disabled && path_is_blank(&self.python.path) {
            return Err(ConfigError::PythonPath);
        }
        if !self.go.disabled && path_is_blank(&self.go.path) {
            return Err(ConfigError::GoPath);
        }
        if self.default_top_k < 1 || self.default_top_k > 40 {
            return Err(ConfigError::DefaultTopK);
        }
        if self.embedding_batch_size < 1 || self.embedding_batch_size > 64 {
            return Err(ConfigError::EmbeddingBatchSize);
        }
        if self.embedding_timeout_seconds == 0 || self.reranker_timeout_seconds == 0 {
            return Err(ConfigError::Timeouts);
        }
        if self.readiness_timeout_seconds < 1 || self.readiness_timeout_seconds > 30 {
            return Err(ConfigError::ReadinessTimeout);
        }
        if let Err(error) = check_scheme(embedding) {
            return Err(error);
        }
        if let Err(error) = check_scheme(reranker) {
            return Err(error);
        }
        if self.embedding_model.as_str().is_empty() || self.reranker_model.as_str().is_empty() {
            return Err(ConfigError::ModelNames);
        }
        Ok(())
    }

    /// Test a configuration. Whether the data directory is absolute is for the platform
    /// to say; all other rules are those of [`Config::validate_with`].
    pub fn validate(&self) -> (r: Result<(), ConfigError>)
        ensures
            exists|answer: bool| #[trigger]
                absolute_answers(self.data_dir@).contains(answer) && match r {
                    Ok(_) => refusal(*self, answer) is None,
                    Err(error) => refusal(*self, answer) == Some(error@),
                },
    {
        let answer = is_absolute_path(self.data_dir.as_str());
        assert(absolute_answers(self.data_dir@).contains(answer));
        self.validate_with(answer)
    }

    /// What the vectors of an index were made with.
    pub fn embedding_identity(&self) -> (r: String)
        ensures
            r@ == identity(*self),
    {
        let url = trim_trailing_slash(self.embedding_url.as_str());
        let head = text::concat3(url.as_str(), "|", self.embedding_model.as_str());
        text::concat3(head.as_str(), "|", chunk::DOCUMENT_FORMAT_VERSION)
    }
}

impl Default for Config {
    fn default() -> (r: Self)
        ensures
            exists|base: Seq<char>| #[trigger] is_default(r, base),
    {
        let base = match local_data_dir() {
            Some(base) => base,
            None => String::new(),
        };
        Config::with_base(base.as_str())
    }
}

/// The default configuration is accepted, where its data directory is absolute and its two
/// URLs have a scheme of HTTP.
pub proof fn law_the_default_is_valid(
    config: Config,
    base: Seq<char>,
    embedding: Seq<char>,
    reranker: Seq<char>,
)
    requires
        is_default(config, base),
        embedding == "http"@ || embedding == "https"@,
        reranker == "http"@ || reranker == "https"@,
    ensures
        refusal_with(config, true, Ok(embedding), Ok(reranker)) is None,
{
    reveal_strlit("rg");
    reveal_strlit("rust-analyzer");
    reveal_strlit("qwen3-embedding-4b");
    reveal_strlit("qwen3-reranker-4b");
    assert(!text::is_space(config.ripgrep_path@[0]));
    assert(!text::is_space(config.rust_analyzer_path@[0]));
}

/// A slash at the end of the embedding URL does not make another index.
pub proof fn law_identity_ignores_trailing_slashes(a: Config, b: Config)
    requires
        b.embedding_url@ == a.embedding_url@.push('/'),
        b.embedding_model@ == a.embedding_model@,
    ensures
        identity(a) == identity(b),
{
    assert(b.embedding_url@.drop_last() =~= a.embedding_url@);
}

/// An index is another one where its vectors come from another model, or from another place.
pub proof fn law_identity_tells_models_apart(a: Config, b: Config)
    ensures
        identity(a) == identity(b) && a.embedding_url@ == b.embedding_url@ ==> a.embedding_model@
            == b.embedding_model@,
        identity(a) == identity(b) && a.embedding_model@ == b.embedding_model@
            ==> without_trailing_slash(a.embedding_url@) == without_trailing_slash(
            b.embedding_url@,
        ),
{
    let (ua, ub) = (
        without_trailing_slash(a.embedding_url@),
        without_trailing_slash(b.embedding_url@),
    );
    let (ma, mb) = (a.embedding_model@, b.embedding_model@);
    let tail = "|"@ + chunk::DOCUMENT_FORMAT_VERSION@;
    assert(identity(a) =~= ua + "|"@ + ma + tail);
    assert(identity(b) =~= ub + "|"@ + mb + tail);
    if identity(a) == identity(b) && a.embedding_url@ == b.embedding_url@ {
        let start = (ua + "|"@).len() as int;
        assert(ma.len() == mb.len());
        assert(identity(a).subrange(start, start + ma.len()) =~= ma);
        assert(identity(b).subrange(start, start + mb.len()) =~= mb);
    }
    if identity(a) == identity(b) && ma == mb {
        assert(ua.len() == ub.len());
        assert(identity(a).take(ua.len() as int) =~= ua);
        assert(identity(b).take(ub.len() as int) =~= ub);
    }
}

/// Only slashes at the end of a URL are dropped, and all of them are.
pub proof fn law_only_trailing_slashes_are_dropped(url: Seq<char>)
    ensures
        without_trailing_slash(url).is_prefix_of(url),
        without_trailing_slash(url).len() > 0 ==> without_trailing_slash(url).last() != '/',
        forall|k: int| without_trailing_slash(url).len() <= k < url.len() ==> #[trigger] url[k] == '/',
    decreases url.len(),
{
    if url.len() > 0 && url.last() == '/' {
        let rest = url.drop_last();
        law_only_trailing_slashes_are_dropped(rest);
        assert forall|k: int| without_trailing_slash(url).len() <= k < url.len() implies
            #[trigger] url[k] == '/' by {
            if k < rest.len() {
                assert(rest[k] == url[k]);
            }
        }
        assert(url.take(without_trailing_slash(url).len() as int) =~= rest.take(
            without_trailing_slash(url).len() as int,
        ));
    } else {
        assert(url.take(url.len() as int) =~= url);
    }
}

/// A configuration is accepted if and only if every value is in its bounds: an absolute data
/// directory, positive counts, intervals and timeouts up to their limits, programs that are
/// named, HTTP addresses, and models that are named.
pub proof fn law_configurations_are_accepted_within_bounds(
    config: Config,
    absolute: bool,
    embedding: Result<Seq<char>, Seq<char>>,
    reranker: Result<Seq<char>, Seq<char>>,
)
    ensures
        refusal_with(config, absolute, embedding, reranker) is None <==> {
            &&& absolute
            &&& 0 < config.semantic_candidate_count <= 200
            &&& 0 < config.lexical_candidate_count <= 200
            &&& 0 < config.rerank_candidate_count <= 200
            &&& 0 < config.lsp_candidate_count <= 200
            &&& 0 < config.rrf_k < 0x7f80_0000
            &&& config.watch_poll_milliseconds > 0
            &&& config.watch_debounce_milliseconds > 0
            &&& !text::blank(config.ripgrep_path@)
            &&& !text::blank(config.rust_analyzer_path@)
            &&& config.lsp_timeout_seconds > 0
            &&& config.csharp.disabled || (config.csharp.path matches Some(path) ==> !text::blank(
                path@,
            ))
            &&& config.typescript.disabled || (config.typescript.path matches Some(path)
                ==> !text::blank(path@))
            &&& config.python.disabled || (config.python.path matches Some(path) ==> !text::blank(
                path@,
            ))
            &&& config.go.disabled || (config.go.path matches Some(path) ==> !text::blank(path@))
            &&& 0 < config.default_top_k <= 40
            &&& 0 < config.embedding_batch_size <= 64
            &&& config.embedding_timeout_seconds > 0
            &&& config.reranker_timeout_seconds > 0
            &&& 0 < config.readiness_timeout_seconds <= 30
            &&& embedding == Ok::<Seq<char>, Seq<char>>("http"@) || embedding == Ok::<
                Seq<char>,
                Seq<char>,
            >("https"@)
            &&& reranker == Ok::<Seq<char>, Seq<char>>("http"@) || reranker == Ok::<
                Seq<char>,
                Seq<char>,
            >("https"@)
            &&& config.embedding_model@.len() > 0
            &&& config.reranker_model@.len() > 0
        },
{
}

} // verus!

use local_code_intelligence::app::indexing::IndexAction;
use local_code_intelligence::evaluate::{
    aggregate, bounded_snippet, check_mappings, has_failures, parse_workspace_mapping,
    parse_workspace_mappings, plan_query, searched_report, validate_definition, EvalQuery,
    EvalTimings, EvalWorkspace, EvaluationFile, IndexLifecycleAction, MappingError, QueryPlan,
    QueryReport, SearchOutcome, WorkspaceMapping,
};
use local_code_intelligence::chunk::Chunk;
use local_code_intelligence::filter::{EffectiveFilterReport, FilterRequest};
use local_code_intelligence::store::{chunk_hits, Hit};

fn query(workspace: &str) -> EvalQuery {
    EvalQuery {
        query: "where".to_owned(),
        workspace: workspace.to_owned(),
        top_k: None,
        filters: None,
        expected_paths: vec!["src/*.rs".to_owned()],
        preferred_paths: vec![],
        disfavored_paths: vec![],
        expected_roles: vec![],
        required_snippet: None,
    }
}

fn workspace(key: &str, required: bool) -> EvalWorkspace {
    EvalWorkspace {
        key: key.to_owned(),
        required,
    }
}

fn file(workspaces: Vec<EvalWorkspace>, queries: Vec<EvalQuery>) -> EvaluationFile {
    EvaluationFile {
        workspaces,
        queries,
    }
}

fn fault(file: EvaluationFile) -> String {
    validate_definition(&file).unwrap_err().to_string()
}

#[test]
fn good_definitions_are_accepted() {
    let filters = FilterRequest {
        include_paths: Some(vec!["src/**".to_owned()]),
        ..FilterRequest::default()
    };
    let with_filters = EvalQuery {
        filters: Some(filters),
        ..query("core")
    };
    let definition = file(
        vec![workspace("core", true), workspace("web", false)],
        vec![query("web"), with_filters],
    );
    assert!(validate_definition(&definition).is_ok());
}

#[test]
fn every_fault_of_a_definition_is_named() {
    let core = || vec![workspace("core", true)];
    assert_eq!(
        fault(file(vec![workspace(" ", true)], vec![])),
        "workspace key must not be empty"
    );
    assert_eq!(
        fault(file(vec![workspace("a\"b", true), workspace("a\"b", true)], vec![])),
        "duplicate workspace key: \"a\\\"b\""
    );
    let blank = EvalQuery {
        query: " ".to_owned(),
        ..query("core")
    };
    assert_eq!(
        fault(file(core(), vec![query("core"), blank])),
        "query at index 1 has empty query text"
    );
    assert_eq!(
        fault(file(core(), vec![query("")])),
        "query at index 0 has empty workspace key"
    );
    assert_eq!(
        fault(file(core(), vec![query("web")])),
        "query at index 0 references undeclared workspace key \"web\""
    );
    let lists: [(&str, EvalQuery); 5] = [
        ("expected_paths", EvalQuery { expected_paths: vec!["/a".to_owned()], ..query("core") }),
        ("preferred_paths", EvalQuery { preferred_paths: vec!["/a".to_owned()], ..query("core") }),
        ("disfavored_paths", EvalQuery { disfavored_paths: vec!["/a".to_owned()], ..query("core") }),
        (
            "include_paths",
            EvalQuery {
                filters: Some(FilterRequest {
                    include_paths: Some(vec!["/a".to_owned()]),
                    ..FilterRequest::default()
                }),
                ..query("core")
            },
        ),
        (
            "exclude_paths",
            EvalQuery {
                filters: Some(FilterRequest {
                    exclude_paths: Some(vec!["/a".to_owned()]),
                    ..FilterRequest::default()
                }),
                ..query("core")
            },
        ),
    ];
    for (name, bad) in lists {
        let text = fault(file(core(), vec![bad]));
        assert!(text.starts_with(&format!("query at index 0: invalid {name} pattern: ")), "{text}");
    }
}

#[test]
fn mappings_are_split_at_the_first_sign() {
    let mapping = parse_workspace_mapping("core=/a=b").unwrap();
    assert_eq!(mapping.key, "core");
    assert_eq!(mapping.path, "/a=b");
    assert!(matches!(parse_workspace_mapping("core"), Err(MappingError::NoSeparator(_))));
    assert!(matches!(parse_workspace_mapping(" =/a"), Err(MappingError::EmptyKey(_))));
    assert!(matches!(parse_workspace_mapping("core= "), Err(MappingError::EmptyPath(_))));
    assert_eq!(
        parse_workspace_mapping("core").unwrap_err().to_string(),
        "workspace mapping must be key=path, got: \"core\""
    );
}

#[test]
fn mapping_keys_are_distinct() {
    let args = |list: &[&str]| -> Vec<String> { list.iter().map(|arg| (*arg).to_owned()).collect() };
    assert_eq!(parse_workspace_mappings(&args(&["a=/a", "b=/b"])).unwrap().len(), 2);
    assert_eq!(
        parse_workspace_mappings(&args(&["a=/a", "b=/b", "a=/c"])).unwrap_err().to_string(),
        "duplicate workspace mapping key: \"a\""
    );
    assert!(parse_workspace_mappings(&args(&["a=/a", "b"])).is_err());
    let twice = vec![mapping("a", "/a"), mapping("a", "/b")];
    assert!(matches!(check_mappings(&twice), Err(MappingError::DuplicateKey(key)) if key == "a"));
    assert!(check_mappings(&twice[..1]).is_ok());
}

fn mapping(key: &str, path: &str) -> WorkspaceMapping {
    WorkspaceMapping {
        key: key.to_owned(),
        path: path.to_owned(),
    }
}

#[test]
fn missing_workspaces_fail_or_skip_their_queries() {
    let workspaces = vec![workspace("core", true), workspace("web", false)];
    let provided = vec![mapping("core", "/core")];
    assert!(matches!(
        plan_query(&workspaces, &provided, &query("core")),
        QueryPlan::Search { path } if path == "/core"
    ));
    assert!(matches!(
        plan_query(&workspaces, &provided, &query("web")),
        QueryPlan::Skip { reason } if reason == "optional workspace \"web\" not provided"
    ));
    assert!(matches!(
        plan_query(&workspaces, &[], &query("core")),
        QueryPlan::Fail { reason } if reason == "required workspace \"core\" not provided"
    ));
}

fn hits() -> Vec<Hit> {
    chunk_hits(
        "/w",
        vec![Chunk {
            relative_file_path: "src/a.rs".to_owned(),
            language: "rust".to_owned(),
            start_line: 3,
            end_line: 9,
            code: "fn a() {}".to_owned(),
            content_hash: "hash".to_owned(),
        }],
    )
}

fn outcome() -> SearchOutcome {
    SearchOutcome {
        hits: hits(),
        reranked: false,
        warning: None,
        filters: EffectiveFilterReport {
            languages: None,
            include_paths: None,
            exclude_paths: None,
            source_roles: None,
        },
        timings: EvalTimings {
            query_embedding_ns: 1,
            lancedb_search_ns: 2,
            lexical_search_ns: 3,
            lsp_search_ns: 4,
            fusion_ns: 5,
            reranking_ns: 6,
            total_ns: 21,
        },
        action: IndexAction::RefreshedIncrementally,
        wait_ns: 7,
    }
}

#[test]
fn searches_are_reported() {
    let report = searched_report(query("core"), Ok(outcome()));
    assert_eq!(report.outcome, "success");
    assert_eq!(report.reason, "expected hit at rank 1; all expectations satisfied");
    assert_eq!(report.evidence[0].rank, 1);
    assert_eq!(report.evidence[0].relative_file_path, "src/a.rs");
    assert_eq!(report.evidence[0].source_role, "source");
    assert_eq!(report.evidence[0].snippet, "fn a() {}");
    assert_eq!(
        report.index_action,
        Some(IndexLifecycleAction::RefreshedIncrementally)
    );
    assert_eq!(report.index_wait_ns, Some(7));

    let failed = searched_report(query("core"), Err("no index".to_owned()));
    assert_eq!(failed.outcome, "failure");
    assert_eq!(failed.reason, "search failed: no index");
    assert_eq!(failed.metrics.reason, "search failed: no index");
    let all = aggregate(vec![report, failed]);
    assert_eq!(all.failure_count, 1);
    assert!(has_failures(&all));
    assert_eq!(*all.role_distribution.get("source").unwrap(), 1);
}

#[test]
fn skipped_queries_change_no_rate() {
    let one = || searched_report(query("core"), Ok(outcome()));
    let plain = aggregate(vec![one()]);
    let skipped = QueryReport::skipped(query("web"), "missing".to_owned());
    let with_skipped = aggregate(vec![one(), skipped]);
    assert_eq!(plain.hit_rate, with_skipped.hit_rate);
    assert_eq!(plain.median_latency_ns, with_skipped.median_latency_ns);
    assert_eq!(with_skipped.skipped_count, 1);
    assert!(!has_failures(&with_skipped));
    assert_eq!(with_skipped.queries[1].outcome, "skipped");
}

#[test]
fn unmet_expectations_are_named() {
    let strict = EvalQuery {
        expected_roles: vec!["test".to_owned()],
        required_snippet: Some("fn b".to_owned()),
        ..query("core")
    };
    let report = searched_report(strict, Ok(outcome()));
    assert_eq!(
        report.reason,
        "expected hit at rank 1, but expected role not present on the first expected hit; required snippet not found in returned chunks"
    );
    let elsewhere = EvalQuery {
        expected_paths: vec!["lib/*.rs".to_owned()],
        ..query("core")
    };
    let report = searched_report(elsewhere, Ok(outcome()));
    assert_eq!(report.reason, "no expected-path hit among 1 results");
}

#[test]
fn snippets_end_between_characters() {
    let exact = "x".repeat(400);
    assert_eq!(bounded_snippet(&exact), exact);
    let wide = format!("{}é", "x".repeat(399));
    assert_eq!(bounded_snippet(&wide), format!("{}…", "x".repeat(399)));
}

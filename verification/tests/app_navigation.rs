use local_code_intelligence::app::navigation::{
    check_query, check_source_file, collect_symbols, ensure_indexed_language, navigation_target,
    source_path, zero_based_line, NavigationError, ServerAnswer,
};
use local_code_intelligence::config::Config;
use local_code_intelligence::lsp::adapter::adapters;
use local_code_intelligence::lsp::Location;
use local_code_intelligence::workspace::Workspace;

fn at(path: &str, line: u32, language: &str) -> Location {
    Location {
        file_path: format!("/w/{path}"),
        relative_file_path: Some(path.to_owned()),
        start_line: line,
        start_character: 0,
        end_line: line,
        end_character: 1,
        name: None,
        kind: None,
        language: Some(language.to_owned()),
        provider: None,
    }
}

fn answer(provider: &str, outcome: Result<Vec<Location>, &str>) -> ServerAnswer {
    ServerAnswer {
        provider: provider.to_owned(),
        outcome: outcome.map_err(str::to_owned),
    }
}

fn workspace() -> Workspace {
    Workspace {
        id: "id".to_owned(),
        path: "/w".to_owned(),
    }
}

#[test]
fn symbols_are_sorted_and_listed_once() {
    let found = collect_symbols(vec![
        answer("b", Ok(vec![at("b.rs", 2, "rust"), at("a.rs", 9, "rust")])),
        answer("c", Err("broken")),
        answer("a", Ok(vec![at("b.rs", 1, "rust"), at("b.rs", 2, "rust")])),
    ])
    .unwrap();
    let places: Vec<(Option<&str>, u32)> = found
        .iter()
        .map(|place| (place.relative_file_path.as_deref(), place.start_line))
        .collect();
    assert_eq!(
        places,
        vec![(Some("a.rs"), 9), (Some("b.rs"), 1), (Some("b.rs"), 2)]
    );
}

#[test]
fn symbols_fail_only_where_nothing_was_found_and_a_server_failed() {
    let error = collect_symbols(vec![
        answer("rust-analyzer", Err("silent")),
        answer("pyright", Err("gone")),
        answer("gopls", Ok(vec![])),
    ])
    .unwrap_err();
    assert_eq!(
        error.to_string(),
        "all applicable language servers failed: rust-analyzer: silent; pyright: gone"
    );
    assert!(collect_symbols(vec![answer("gopls", Ok(vec![]))]).unwrap().is_empty());
    assert!(collect_symbols(vec![]).unwrap().is_empty());
}

#[test]
fn requests_are_tested() {
    assert!(matches!(check_query(" \n"), Err(NavigationError::EmptyQuery)));
    assert!(check_query("run").is_ok());
    assert_eq!(zero_based_line(1).unwrap(), 0);
    assert_eq!(
        zero_based_line(0).unwrap_err().to_string(),
        "line must be one-based and positive"
    );
    assert!(matches!(
        source_path(&workspace(), " "),
        Err(NavigationError::EmptyPath)
    ));
    assert_eq!(source_path(&workspace(), "src/a.rs").unwrap(), "/w/src/a.rs");
    assert!(check_source_file(&workspace(), "/w/src/a.rs", true).is_ok());
    assert!(matches!(
        check_source_file(&workspace(), "/w/src", false),
        Err(NavigationError::NotAFile)
    ));
    assert!(matches!(
        check_source_file(&workspace(), "/workshop/a.rs", true),
        Err(NavigationError::OutsideWorkspace)
    ));
}

#[test]
fn files_are_navigated_by_the_server_of_their_language() {
    let list = adapters(&Config::with_base("/data"));
    assert_eq!(navigation_target("/w/a.py", &list).unwrap(), ("python", 3));
    assert!(matches!(
        navigation_target("/w/notes.txt", &list),
        Err(NavigationError::Unrecognized)
    ));
    assert_eq!(
        navigation_target("/w/a.go", &list).unwrap_err().to_string(),
        "language-server navigation does not support go source files"
    );
}

#[test]
fn the_index_must_hold_the_language() {
    let languages = vec!["rust".to_owned()];
    assert!(ensure_indexed_language(Some(&languages), "rust").is_ok());
    assert_eq!(
        ensure_indexed_language(Some(&languages), "go").unwrap_err().to_string(),
        "workspace index contains no go chunks"
    );
    assert!(matches!(
        ensure_indexed_language(None, "go"),
        Err(NavigationError::NotIndexed)
    ));
}

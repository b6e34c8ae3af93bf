use local_code_intelligence::lexical::{
    arguments_for, choose_terms, collect_matches, command_names, default_command, exit_is_good,
    resolve_ripgrep_path, ripgrep_arguments, symbol_queries, symbol_queries_for, terms,
    vscode_candidates, vscode_install_roots, LexicalError, RipgrepEvent,
};

#[test]
fn extracts_useful_terms() {
    assert_eq!(
        terms("lower syn AST expressions into generated Slang compute shader code"),
        vec![
            "expressions",
            "compute",
            "shader",
            "lower",
            "slang",
            "ast",
            "syn"
        ]
    );
}

#[test]
fn preserves_an_explicit_ripgrep_path() {
    let resolved = resolve_ripgrep_path(r"D:\tools\custom-rg.exe", None, None, true);
    assert_eq!(resolved, r"D:\tools\custom-rg.exe");
    let found = Some("/bin/rg".to_owned());
    assert_eq!(resolve_ripgrep_path("/opt/rg", found, None, false), "/opt/rg");
}

#[test]
fn resolves_ripgrep_from_path_first() {
    let resolved = resolve_ripgrep_path(
        "rg",
        Some("/temp/rg.exe".to_owned()),
        Some("/bundled/rg.exe".to_owned()),
        true,
    );
    assert_eq!(resolved, "/temp/rg.exe");
    assert_eq!(command_names(true), vec!["rg.exe", "rg"]);
    assert_eq!(command_names(false), vec!["rg"]);
}

#[test]
fn resolves_versioned_vscode_bundled_ripgrep() {
    let bundled = "/temp/Programs/Microsoft VS Code/645f29cc31/resources/app/node_modules.asar.unpacked/@vscode/ripgrep-universal/bin/win32-x64/rg.exe";
    let roots = vscode_install_roots(Some("/temp"), None);
    assert_eq!(roots[0], "/temp/Programs/Microsoft VS Code");
    let children = vec!["/temp/Programs/Microsoft VS Code/645f29cc31".to_owned()];
    let candidates = vscode_candidates(&roots[0], &children);
    let found = candidates.into_iter().find(|path| path == bundled);
    let resolved = resolve_ripgrep_path("rg.exe", None, found, true);
    assert_eq!(resolved, bundled);
}

#[test]
fn leaves_default_command_when_ripgrep_is_not_found() {
    assert_eq!(resolve_ripgrep_path("rg", None, None, true), "rg");
    // The bundled copy is one for Windows.
    let bundled = Some("/bundled/rg.exe".to_owned());
    assert_eq!(resolve_ripgrep_path("rg", None, bundled, false), "rg");
    assert!(default_command("RG.exe"));
    assert!(!default_command("ripgrep"));
}

#[test]
fn newer_vscode_versions_come_first() {
    let children = vec!["/code/1".to_owned(), "/code/2".to_owned()];
    let candidates = vscode_candidates("/code", &children);
    assert_eq!(candidates.len(), 6);
    assert!(candidates[0].starts_with("/code/resources/"));
    assert!(candidates[2].starts_with("/code/2/"));
    assert!(candidates[4].starts_with("/code/1/"));
}

#[test]
fn arguments_name_globs_and_terms() {
    let arguments = ripgrep_arguments("find the shader", "/w").unwrap();
    assert_eq!(
        arguments[..4],
        ["--json", "--line-number", "--ignore-case", "--fixed-strings"]
    );
    assert!(arguments.contains(&"*.rs".to_owned()));
    assert!(arguments.contains(&"shader".to_owned()));
    assert_eq!(arguments[arguments.len() - 2..], ["--", "/w"]);
    assert_eq!(
        ripgrep_arguments("a of it", "/w").unwrap_err().message(),
        "query has no searchable lexical terms"
    );
}

#[test]
fn terms_follow_the_unicode_tables() {
    assert_eq!(terms("GRÖßE"), vec!["größe"]);
    assert_eq!(terms("naïve-résumé"), vec!["résumé", "naïve"]);
}

#[test]
fn symbol_queries_ask_for_the_singular_too() {
    assert_eq!(symbol_queries("shaders"), vec!["shader#", "shaders#"]);
    assert_eq!(symbol_queries("bus"), vec!["bus#"]);
}

#[test]
fn no_match_is_a_good_exit() {
    assert!(exit_is_good(true, Some(0)));
    assert!(exit_is_good(false, Some(1)));
    assert!(!exit_is_good(false, Some(2)));
    assert!(!exit_is_good(false, None));
}

fn event(kind: &str, path: Option<&str>, resolved: Option<&str>, line: Option<u32>) -> RipgrepEvent {
    RipgrepEvent {
        kind: kind.to_owned(),
        path: path.map(str::to_owned),
        absolute: path.is_some_and(|path| path.starts_with('/')),
        resolved: resolved.map(str::to_owned),
        line_number: line,
    }
}

#[test]
fn matches_are_relative_to_the_workspace() {
    let matches = collect_matches(
        "/w",
        &[
            event("begin", Some("/w/src/a.rs"), None, None),
            event("match", Some("/w/src/a.rs"), Some("/w/src/a.rs"), Some(3)),
            event("match", Some("src/b.rs"), None, Some(4)),
            event("match", Some("/w/src/c.rs"), None, None),
            event("match", None, None, Some(5)),
            event("match", Some("/elsewhere/d.rs"), None, Some(6)),
        ],
    );
    let found: Vec<(&str, u32)> = matches
        .iter()
        .map(|found| (found.relative_path.as_str(), found.line))
        .collect();
    assert_eq!(
        found,
        vec![("src/a.rs", 3), ("src/b.rs", 4), ("/elsewhere/d.rs", 6)]
    );
}

fn words(list: &[&str]) -> Vec<String> {
    list.iter().map(|word| (*word).to_owned()).collect()
}

#[test]
fn chosen_terms_are_useful_distinct_and_ordered() {
    let chosen = choose_terms(&words(&["the", "ab", "syn", "lower", "ast", "syn", "code", ""]));
    assert_eq!(chosen, words(&["lower", "ast", "syn"]));
    let many: Vec<String> = (10..40).map(|n| format!("term{n}")).collect();
    let kept = choose_terms(&many);
    assert_eq!(kept.len(), 12);
    assert_eq!(kept, many[..12].to_vec());
    // Terms are measured in bytes.
    assert_eq!(choose_terms(&words(&["\u{e9}\u{e9}", "\u{e9}"])), words(&["\u{e9}\u{e9}"]));
}

#[test]
fn symbol_queries_of_given_terms() {
    assert_eq!(
        symbol_queries_for(&words(&["items", "item", "gas"])),
        words(&["item#", "items#", "item#", "gas#"])
    );
    assert_eq!(
        symbol_queries_for(&words(&["item", "item"])),
        words(&["item#"])
    );
    let many: Vec<String> = (0..20).map(|n| format!("name{n}")).collect();
    assert_eq!(symbol_queries_for(&many).len(), 8);
    assert!(symbol_queries_for(&[]).is_empty());
}

#[test]
fn ripgrep_arguments_of_given_terms() {
    let arguments = arguments_for(&words(&["lower", "syn"]), "/w").unwrap();
    assert_eq!(arguments[..4], words(&["--json", "--line-number", "--ignore-case", "--fixed-strings"]));
    assert_eq!(arguments[4..6], words(&["--glob", "*.rs"]));
    assert_eq!(
        arguments[arguments.len() - 6..],
        words(&["-e", "lower", "-e", "syn", "--", "/w"])
    );
    assert_eq!(arguments.len(), 4 + 2 * 9 + 6);
    assert_eq!(arguments_for(&[], "/w").unwrap_err(), LexicalError::NoTerms);
}

#[test]
fn terms_are_lowered() {
    assert_eq!(terms("PARSER #Tree# the"), words(&["parser", "tree"]));
}

#[test]
fn absolute_paths_are_those_of_the_platform() {
    let found = |absolute: bool, path: &str, resolved: Option<&str>| {
        let event = RipgrepEvent {
            kind: "match".to_owned(),
            path: Some(path.to_owned()),
            absolute,
            resolved: resolved.map(str::to_owned),
            line_number: Some(3),
        };
        collect_matches("C:/w", &[event])[0].relative_path.clone()
    };
    assert_eq!(found(true, "C:/link/a.rs", Some("C:/w/src/a.rs")), "src/a.rs");
    assert_eq!(found(true, "C:/w/src/a.rs", None), "src/a.rs");
    assert_eq!(found(true, "D:/a.rs", None), "D:/a.rs");
    assert_eq!(found(false, "src/a.rs", None), "src/a.rs");
}

use local_code_intelligence::filter::{
    classify_source_role, EffectiveFilter, FilterError, FilterRequest, GlobPattern, SourceRole,
    SourceRoleError,
};
use local_code_intelligence::filter::request::check_shape;
use std::str::FromStr;

// -- SourceRole parsing / display ------------------------------------

#[test]
fn tests_source_role_round_trips_all_variants() {
    for role in SourceRole::ALL {
        let name = role.as_str();
        let parsed = SourceRole::from_str(name).unwrap();
        assert_eq!(parsed, role);
        assert_eq!(parsed.to_string(), name);
    }
}

#[test]
fn tests_source_role_unknown_errors_clearly() {
    let err = SourceRole::from_str("bogus").unwrap_err();
    assert!(matches!(err, SourceRoleError::Unknown { ref value } if value == "bogus"));
    assert!(err.to_string().contains("bogus"));
}

// -- classify_source_role ---------------------------------------------

#[test]
fn tests_classifies_generated_by_directory() {
    assert_eq!(
        classify_source_role("generated/foo.rs"),
        SourceRole::Generated
    );
    assert_eq!(classify_source_role("gen/bar.py"), SourceRole::Generated);
}

#[test]
fn tests_classifies_generated_by_file_name_markers() {
    assert_eq!(
        classify_source_role("src/foo.generated.rs"),
        SourceRole::Generated
    );
    assert_eq!(
        classify_source_role("src/foo_generated.py"),
        SourceRole::Generated
    );
    assert_eq!(classify_source_role("src/foo.g.rs"), SourceRole::Generated);
}

#[test]
fn tests_generated_g_marker_is_unambiguous() {
    // `.g.` must not match as part of a longer token.
    assert_eq!(classify_source_role("src/foo.gx.rs"), SourceRole::Source);
    assert_eq!(classify_source_role("src/generate.rs"), SourceRole::Source);
    assert_eq!(classify_source_role("src/flag.rs"), SourceRole::Source);
}

#[test]
fn tests_classifies_test_by_directory() {
    assert_eq!(classify_source_role("tests/foo.rs"), SourceRole::Test);
    assert_eq!(classify_source_role("test/bar.py"), SourceRole::Test);
    assert_eq!(classify_source_role("__tests__/baz.js"), SourceRole::Test);
}

#[test]
fn tests_classifies_test_by_file_name() {
    assert_eq!(classify_source_role("src/foo_test.py"), SourceRole::Test);
    assert_eq!(classify_source_role("src/test_foo.py"), SourceRole::Test);
    assert_eq!(classify_source_role("src/foo.test.ts"), SourceRole::Test);
    assert_eq!(classify_source_role("src/foo.spec.tsx"), SourceRole::Test);
    assert_eq!(classify_source_role("src/foo.test.js"), SourceRole::Test);
    assert_eq!(classify_source_role("src/foo.spec.jsx"), SourceRole::Test);
}

#[test]
fn tests_classifies_benchmark_by_directory() {
    assert_eq!(
        classify_source_role("benches/foo.rs"),
        SourceRole::Benchmark
    );
    assert_eq!(classify_source_role("bench/bar.py"), SourceRole::Benchmark);
    assert_eq!(
        classify_source_role("benchmark/baz.rs"),
        SourceRole::Benchmark
    );
    assert_eq!(
        classify_source_role("benchmarks/qux.rs"),
        SourceRole::Benchmark
    );
}

#[test]
fn tests_classifies_benchmark_by_file_name() {
    assert_eq!(
        classify_source_role("src/foo_bench.rs"),
        SourceRole::Benchmark
    );
    assert_eq!(
        classify_source_role("src/bench_foo.py"),
        SourceRole::Benchmark
    );
    assert_eq!(
        classify_source_role("src/foo.bench.ts"),
        SourceRole::Benchmark
    );
}

#[test]
fn tests_classifies_example_by_directory() {
    assert_eq!(classify_source_role("examples/foo.rs"), SourceRole::Example);
    assert_eq!(classify_source_role("example/bar.py"), SourceRole::Example);
    assert_eq!(classify_source_role("samples/baz.js"), SourceRole::Example);
}

#[test]
fn tests_classifies_documentation_by_directory() {
    assert_eq!(
        classify_source_role("docs/guide.md"),
        SourceRole::Documentation
    );
    assert_eq!(
        classify_source_role("doc/api.md"),
        SourceRole::Documentation
    );
    assert_eq!(
        classify_source_role("documentation/overview.md"),
        SourceRole::Documentation
    );
}

#[test]
fn tests_classifies_configuration_by_directory() {
    assert_eq!(
        classify_source_role("config/app.toml"),
        SourceRole::Configuration
    );
    assert_eq!(
        classify_source_role("scripts/build.sh"),
        SourceRole::Configuration
    );
    assert_eq!(
        classify_source_role("tools/lint.py"),
        SourceRole::Configuration
    );
    assert_eq!(
        classify_source_role("build/Makefile"),
        SourceRole::Configuration
    );
}

#[test]
fn tests_defaults_to_source() {
    assert_eq!(classify_source_role("src/lib.rs"), SourceRole::Source);
    assert_eq!(classify_source_role("main.py"), SourceRole::Source);
    assert_eq!(classify_source_role("app.ts"), SourceRole::Source);
}

#[test]
fn tests_precedence_generated_over_test() {
    // A file in a `generated` directory that also looks like a test
    // should be classified as generated.
    assert_eq!(
        classify_source_role("generated/foo_test.py"),
        SourceRole::Generated
    );
}

#[test]
fn tests_precedence_test_over_benchmark() {
    // A file in a `tests` directory with a benchmark-looking name
    // should be classified as test.
    assert_eq!(classify_source_role("tests/foo_bench.rs"), SourceRole::Test);
}

#[test]
fn tests_src_config_files_remain_source() {
    assert_eq!(classify_source_role("src/config.rs"), SourceRole::Source);
    assert_eq!(classify_source_role("src/config.py"), SourceRole::Source);
}

#[test]
fn tests_contest_and_latest_are_not_test_or_generated() {
    // `contest` and `latest` are not in the test or generated
    // component lists, so they should fall through to source.
    assert_eq!(
        classify_source_role("contest/solution.rs"),
        SourceRole::Source
    );
    assert_eq!(
        classify_source_role("latest/release.rs"),
        SourceRole::Source
    );
}

#[test]
fn tests_backslash_separators_are_normalized() {
    assert_eq!(classify_source_role(r"tests\foo.rs"), SourceRole::Test);
    assert_eq!(classify_source_role(r"src\lib.rs"), SourceRole::Source);
}

// -- GlobPattern -------------------------------------------------------

#[test]
fn tests_glob_single_star_does_not_cross_separator() {
    let g = GlobPattern::compile("src/*.rs").unwrap();
    assert!(g.matches("src/lib.rs"));
    assert!(!g.matches("src/deep/lib.rs"));
}

#[test]
fn tests_glob_double_star_crosses_directories() {
    let g = GlobPattern::compile("src/**/*.rs").unwrap();
    assert!(g.matches("src/lib.rs"));
    assert!(g.matches("src/deep/lib.rs"));
    assert!(g.matches("src/a/b/c/lib.rs"));
}

#[test]
fn tests_glob_question_mark_matches_one_non_separator() {
    let g = GlobPattern::compile("src/?.rs").unwrap();
    assert!(g.matches("src/a.rs"));
    assert!(!g.matches("src/ab.rs"));
    assert!(!g.matches("src/a/b.rs"));
}

#[test]
fn tests_glob_is_case_sensitive() {
    let g = GlobPattern::compile("src/*.rs").unwrap();
    assert!(!g.matches("src/LIB.RS"));
}

#[test]
fn tests_glob_rejects_empty_pattern() {
    assert!(matches!(
        GlobPattern::compile(""),
        Err(FilterError::EmptyPattern)
    ));
    assert!(matches!(
        GlobPattern::compile("   "),
        Err(FilterError::EmptyPattern)
    ));
}

#[test]
fn tests_glob_rejects_backslash() {
    assert!(matches!(
        GlobPattern::compile(r"src\lib.rs"),
        Err(FilterError::BackslashInPattern { .. })
    ));
}

#[test]
fn tests_glob_rejects_absolute_unix() {
    assert!(matches!(
        GlobPattern::compile("/etc/passwd"),
        Err(FilterError::AbsolutePath { .. })
    ));
}

#[test]
fn tests_glob_rejects_absolute_windows() {
    assert!(matches!(
        GlobPattern::compile("C:/Users/foo"),
        Err(FilterError::AbsolutePath { .. })
    ));
}

#[test]
fn tests_glob_rejects_unc() {
    assert!(matches!(
        GlobPattern::compile("//server/share"),
        Err(FilterError::AbsolutePath { .. })
    ));
}

#[test]
fn tests_glob_rejects_traversal() {
    assert!(matches!(
        GlobPattern::compile("../etc/passwd"),
        Err(FilterError::Traversal { .. })
    ));
    assert!(matches!(
        GlobPattern::compile("src/../../etc"),
        Err(FilterError::Traversal { .. })
    ));
}

#[test]
fn tests_glob_rejects_malformed_pattern() {
    // An unbalanced bracket is not a valid glob.
    assert!(matches!(
        GlobPattern::compile("src/[a.rs"),
        Err(FilterError::MalformedPattern { .. })
    ));
}

// -- EffectiveFilter validation ----------------------------------------

#[test]
fn tests_rejects_explicitly_empty_languages() {
    let req = FilterRequest {
        languages: Some(vec![]),
        ..Default::default()
    };
    assert!(matches!(
        EffectiveFilter::from_request(&req),
        Err(FilterError::EmptyLanguages)
    ));
}

#[test]
fn tests_rejects_explicitly_empty_source_roles() {
    let req = FilterRequest {
        source_roles: Some(vec![]),
        ..Default::default()
    };
    assert!(matches!(
        EffectiveFilter::from_request(&req),
        Err(FilterError::EmptySourceRoles)
    ));
}

#[test]
fn tests_rejects_unknown_language() {
    let req = FilterRequest {
        languages: Some(vec!["cobol".into()]),
        ..Default::default()
    };
    let error = EffectiveFilter::from_request(&req).unwrap_err();
    assert_eq!(
        error,
        FilterError::UnknownLanguage {
            value: "cobol".into()
        }
    );
}

#[test]
fn tests_rejects_unknown_source_role() {
    let req = FilterRequest {
        source_roles: Some(vec!["bogus".into()]),
        ..Default::default()
    };
    let error = EffectiveFilter::from_request(&req).unwrap_err();
    assert_eq!(
        error,
        FilterError::UnknownSourceRole {
            value: "bogus".into()
        }
    );
}

#[test]
fn tests_accepts_all_six_registered_languages() {
    for lang in ["rust", "typescript", "tsx", "javascript", "jsx", "python"] {
        let req = FilterRequest {
            languages: Some(vec![lang.into()]),
            ..Default::default()
        };
        let eff = EffectiveFilter::from_request(&req).unwrap();
        assert_eq!(
            eff.languages.as_deref(),
            Some(vec![lang.to_owned()].as_slice())
        );
    }
}

#[test]
fn tests_rejects_extension_as_language_identifier() {
    let req = FilterRequest {
        languages: Some(vec!["rs".into()]),
        ..Default::default()
    };
    assert!(matches!(
        EffectiveFilter::from_request(&req),
        Err(FilterError::UnknownLanguage { .. })
    ));
}

#[test]
fn tests_deduplicates_languages_deterministically() {
    let req = FilterRequest {
        languages: Some(vec![
            "python".into(),
            "rust".into(),
            "python".into(),
            "rust".into(),
        ]),
        ..Default::default()
    };
    let eff = EffectiveFilter::from_request(&req).unwrap();
    assert_eq!(
        eff.languages.as_deref(),
        Some(vec!["python".to_owned(), "rust".to_owned()].as_slice())
    );
}

#[test]
fn tests_deduplicates_source_roles_deterministically() {
    let req = FilterRequest {
        source_roles: Some(vec!["test".into(), "source".into(), "test".into()]),
        ..Default::default()
    };
    let eff = EffectiveFilter::from_request(&req).unwrap();
    assert_eq!(
        eff.source_roles.as_deref(),
        Some([SourceRole::Source, SourceRole::Test].as_slice())
    );
}

#[test]
fn tests_deduplicates_path_patterns() {
    let req = FilterRequest {
        include_paths: Some(vec![
            "src/*.rs".into(),
            "src/*.rs".into(),
            "lib/*.rs".into(),
        ]),
        ..Default::default()
    };
    let eff = EffectiveFilter::from_request(&req).unwrap();
    assert_eq!(
        eff.report().include_paths,
        Some(vec!["lib/*.rs".to_owned(), "src/*.rs".to_owned()])
    );
}

#[test]
fn tests_rejects_malformed_path_pattern() {
    let req = FilterRequest {
        include_paths: Some(vec!["".into()]),
        ..Default::default()
    };
    assert!(matches!(
        EffectiveFilter::from_request(&req),
        Err(FilterError::EmptyPattern)
    ));
}

#[test]
fn tests_rejects_traversal_in_path_pattern() {
    let req = FilterRequest {
        exclude_paths: Some(vec!["../secret".into()]),
        ..Default::default()
    };
    assert!(matches!(
        EffectiveFilter::from_request(&req),
        Err(FilterError::Traversal { .. })
    ));
}

// -- EffectiveFilter matching ------------------------------------------

#[test]
fn tests_no_filters_matches_everything() {
    let eff = EffectiveFilter::from_request(&FilterRequest::default()).unwrap();
    assert!(eff.matches("rust", "src/lib.rs", SourceRole::Source));
    assert!(eff.matches("python", "tests/foo_test.py", SourceRole::Test));
}

#[test]
fn tests_language_filter_restricts() {
    let req = FilterRequest {
        languages: Some(vec!["rust".into()]),
        ..Default::default()
    };
    let eff = EffectiveFilter::from_request(&req).unwrap();
    assert!(eff.matches("rust", "src/lib.rs", SourceRole::Source));
    assert!(!eff.matches("python", "src/lib.py", SourceRole::Source));
}

#[test]
fn tests_source_role_filter_restricts() {
    let req = FilterRequest {
        source_roles: Some(vec!["test".into()]),
        ..Default::default()
    };
    let eff = EffectiveFilter::from_request(&req).unwrap();
    assert!(eff.matches("rust", "tests/foo.rs", SourceRole::Test));
    assert!(!eff.matches("rust", "src/lib.rs", SourceRole::Source));
}

#[test]
fn tests_include_then_exclude_precedence() {
    let req = FilterRequest {
        include_paths: Some(vec!["src/**/*.rs".into()]),
        exclude_paths: Some(vec!["src/generated/**".into()]),
        ..Default::default()
    };
    let eff = EffectiveFilter::from_request(&req).unwrap();
    // Included and not excluded.
    assert!(eff.matches("rust", "src/lib.rs", SourceRole::Source));
    // Included but excluded.
    assert!(!eff.matches("rust", "src/generated/foo.rs", SourceRole::Generated));
    // Not included.
    assert!(!eff.matches("rust", "lib/foo.rs", SourceRole::Source));
}

#[test]
fn tests_exclude_only_filters() {
    let req = FilterRequest {
        exclude_paths: Some(vec!["**/*.generated.rs".into()]),
        ..Default::default()
    };
    let eff = EffectiveFilter::from_request(&req).unwrap();
    assert!(eff.matches("rust", "src/lib.rs", SourceRole::Source));
    assert!(!eff.matches("rust", "src/foo.generated.rs", SourceRole::Generated));
}

// -- Report serialization ----------------------------------------------

#[test]
fn tests_report_represents_absent_filters_as_null() {
    let req = FilterRequest {
        languages: Some(vec!["rust".into()]),
        ..Default::default()
    };
    let eff = EffectiveFilter::from_request(&req).unwrap();
    let report = eff.report();
    assert_eq!(report.languages, Some(vec!["rust".to_owned()]));
    assert!(report.include_paths.is_none());
    assert!(report.exclude_paths.is_none());
    assert!(report.source_roles.is_none());
}

#[test]
fn tests_report_serializes_all_filters_when_present() {
    let req = FilterRequest {
        languages: Some(vec!["rust".into(), "python".into()]),
        include_paths: Some(vec!["src/**/*.rs".into()]),
        exclude_paths: Some(vec!["**/generated/**".into()]),
        source_roles: Some(vec!["source".into(), "test".into()]),
    };
    let eff = EffectiveFilter::from_request(&req).unwrap();
    let report = eff.report();
    assert_eq!(
        report.languages,
        Some(vec!["python".to_owned(), "rust".to_owned()])
    );
    assert_eq!(report.include_paths, Some(vec!["src/**/*.rs".to_owned()]));
    assert_eq!(
        report.exclude_paths,
        Some(vec!["**/generated/**".to_owned()])
    );
    assert_eq!(
        report.source_roles,
        Some(vec!["source".to_owned(), "test".to_owned()])
    );
}

#[test]
fn pattern_shapes() {
    assert_eq!(check_shape("  src/**  ").unwrap(), "src/**");
    assert!(matches!(check_shape("  "), Err(FilterError::EmptyPattern)));
    assert!(matches!(
        check_shape("src\\a"),
        Err(FilterError::BackslashInPattern { .. })
    ));
    assert!(matches!(check_shape("/src"), Err(FilterError::AbsolutePath { .. })));
    assert!(matches!(check_shape("a/../b"), Err(FilterError::Traversal { .. })));
}

#[test]
fn filters_of_given_path_matches() {
    let languages = EffectiveFilter::from_request(&FilterRequest {
        languages: Some(vec!["rust".to_owned()]),
        include_paths: Some(vec!["src/**".to_owned()]),
        exclude_paths: Some(vec!["src/gen/**".to_owned()]),
        ..FilterRequest::default()
    })
    .unwrap();
    assert!(languages.matches_given("rust", SourceRole::Source, true, false));
    assert!(!languages.matches_given("go", SourceRole::Source, true, false));
    assert!(!languages.matches_given("rust", SourceRole::Source, false, false));
    assert!(!languages.matches_given("rust", SourceRole::Source, true, true));
    let open = EffectiveFilter::from_request(&FilterRequest::default()).unwrap();
    assert!(open.matches_given("go", SourceRole::Test, false, false));
}

#[test]
fn groups_may_be_nested() {
    let nested = |depth: usize| format!("{}a{}", "{".repeat(depth), "}".repeat(depth));
    for depth in [1, 64, 65, 200] {
        let glob = GlobPattern::compile(&nested(depth)).unwrap();
        assert_eq!(glob.raw(), nested(depth));
        assert!(glob.matches("a") && !glob.matches("b"));
    }
    // Deeper groups are refused, and reported.
    for depth in [300, 600, 1_000_000] {
        assert!(matches!(
            GlobPattern::compile(&nested(depth)),
            Err(FilterError::MalformedPattern { .. })
        ));
    }
    // Groups side by side are not nested.
    assert!(GlobPattern::compile(&"{a,b}".repeat(600)).unwrap().matches(&"ab".repeat(300)));
    // The braces of a class open and close nothing.
    assert!(GlobPattern::compile("[}]{a,b}").unwrap().matches("}a"));
    let classes = format!("{}{{a,b}}", "[{]".repeat(600));
    assert!(GlobPattern::compile(&classes).unwrap().matches(&format!("{}a", "{".repeat(600))));
    let mixed = format!("{}[x]", "{a,b}".repeat(80));
    assert!(GlobPattern::compile(&mixed).unwrap().matches(&format!("{}x", "a".repeat(80))));
    let deep = format!("{}x{}", "{a?,b*".repeat(64), "}".repeat(64));
    assert!(GlobPattern::compile(&deep).is_ok());
}

#[test]
fn patterns_may_be_long() {
    for length in [16_383, 16_384, 100_000] {
        let long = "a".repeat(length);
        let glob = GlobPattern::compile(&format!(" {long} ")).unwrap();
        assert_eq!(glob.raw(), long);
        assert!(glob.matches(&long) && !glob.matches(&long[1..]));
    }
    let faces = "\u{1f600}".repeat(16_384);
    assert!(GlobPattern::compile(&faces).unwrap().matches(&faces));
    let branches = format!("{{{},{}}}", "\u{1f600}".repeat(9_000), "\u{1f601}".repeat(9_000));
    assert!(GlobPattern::compile(&branches).is_ok());
    let stars = "*".repeat(16_384);
    assert!(GlobPattern::compile(&stars).unwrap().matches("abc"));
    // Patterns that are too large to be compiled are refused, and reported.
    let large = "a".repeat(1_000_000);
    for pattern in [large.clone(), format!("{large}/**"), format!("**/{large}")] {
        assert!(matches!(
            GlobPattern::compile(&pattern),
            Err(FilterError::MalformedPattern { pattern: given, .. }) if given == pattern
        ));
    }
}

#[test]
fn globs_of_every_shape_match() {
    let matches = |pattern: &str, path: &str| GlobPattern::compile(pattern).unwrap().matches(path);
    for pattern in ["**", "**/", "**/**", "**/*"] {
        assert!(matches(pattern, "a") && matches(pattern, "a/b.rs"));
    }
    assert!(matches("*", "a") && !matches("*", "a/b"));
    assert!(matches("*.rs", "a.rs") && !matches("*.rs", "a/b.rs"));
    assert!(matches("**/*.rs", "a.rs") && matches("**/*.rs", "a/b.rs"));
    assert!(matches("**/a*", "ab") && matches("**/a*", "b/ac") && !matches("**/a*", "a/b"));
    assert!(matches("**/b.rs", "b.rs") && matches("**/b.rs", "a/b.rs"));
    assert!(!matches("**/b.rs", "ab.rs"));
    assert!(matches("src/**", "src/a/b") && !matches("src/**", "src"));
    assert!(matches("src/**/a", "src/a") && matches("src/**/a", "src/b/c/a"));
    assert!(matches("src/*", "src/a") && !matches("src/*", "src/a/b"));
    assert!(matches("a?c", "abc") && !matches("a?c", "a/c") && !matches("A", "a"));
    assert!(matches("a/b.rs", "a/b.rs") && !matches("a/b.rs", "x/a/b.rs"));
    assert!(GlobPattern::compile("[*").is_err() && GlobPattern::compile("{a,b").is_err());
}

#[test]
fn dots_are_matched_like_other_characters() {
    assert!(GlobPattern::compile("**/*.").unwrap().matches("a/.."));
    assert!(GlobPattern::compile("**/.*").unwrap().matches("a/.."));
    assert!(GlobPattern::compile("a/**").unwrap().matches("a/.."));
    assert!(!GlobPattern::compile("**/*.rs").unwrap().matches("a/.."));
}

use local_code_intelligence::language::{
    adapters, for_extension, for_path, identifiers, is_registered_identifier, Grammar,
};

#[test]
fn language_recognizes_only_requested_lowercase_extensions() {
    for (extension, identifier, glob) in [
        ("rs", "rust", "*.rs"),
        ("ts", "typescript", "*.ts"),
        ("tsx", "tsx", "*.tsx"),
        ("js", "javascript", "*.js"),
        ("jsx", "jsx", "*.jsx"),
        ("py", "python", "*.py"),
        ("cs", "csharp", "*.cs"),
        ("go", "go", "*.go"),
    ] {
        let adapter = for_extension(extension).unwrap();
        assert_eq!(adapter.identifier(), identifier);
        assert_eq!(adapter.glob(), glob);
        assert!(!adapter.cache_version().is_empty());
    }
    for extension in ["RS", "TS", "mts", "cts", "mjs", "cjs", "PY", "CS", "GO"] {
        assert!(for_extension(extension).is_none(), "{extension}");
    }
}

#[test]
fn paths_have_the_language_of_their_extension() {
    assert_eq!(for_path("src/deep/lib.rs").unwrap().identifier(), "rust");
    assert_eq!(for_path("a.b.tsx").unwrap().identifier(), "tsx");
    assert!(for_path("src/.rs").is_none());
    assert!(for_path("Makefile").is_none());
    assert!(for_path("lib.rs/").is_some());
}

#[test]
fn identifiers_and_extensions_are_distinct() {
    let all = adapters();
    for (i, a) in all.iter().enumerate() {
        assert!(is_registered_identifier(a.identifier()));
        for b in all.iter().skip(i + 1) {
            assert_ne!(a.identifier(), b.identifier());
            assert_ne!(a.extension(), b.extension());
        }
    }
    assert_eq!(identifiers().len(), 9);
    assert!(!is_registered_identifier("rs"));
}

#[test]
fn javascript_variants_share_a_grammar() {
    assert_eq!(for_extension("js").unwrap().grammar(), Grammar::JavaScript);
    assert_eq!(for_extension("jsx").unwrap().grammar(), Grammar::JavaScript);
}

#[test]
fn java_is_a_registered_language() {
    let adapter = for_extension("java").unwrap();
    assert_eq!(adapter.identifier(), "java");
    assert_eq!(adapter.glob(), "*.java");
    assert_eq!(adapter.cache_version(), "java-chunks-v1");
    assert!(for_extension("JAVA").is_none());
}

use local_code_intelligence::chunk::{
    self, chunks_for_path, fingerprint, rust_chunks, scan, scan_incremental, source_file,
    ChunkError, SourceFile, DOCUMENT_FORMAT_VERSION,
};
use local_code_intelligence::manifest::CachedFile;
use local_code_intelligence::spans::MAX_DECLARATION_BYTES;
use local_code_intelligence::table::Table;
use local_code_intelligence::workspace::hash;

#[test]
fn chunks_have_exact_source_lines_and_stable_hashes() {
    let source =
        "// café\nfn first() { println!(\"hello\"); }\n\nimpl A {\nfn second() {}\n}\n";
    let chunks = rust_chunks("lib.rs", source).unwrap();
    assert!(chunks.iter().any(|c| c.code.contains("fn second")));
    for c in chunks {
        assert!(source.contains(&c.code));
        assert_eq!(c.content_hash, hash(&c.code));
        assert!(c.end_line >= c.start_line);
    }
}

#[test]
fn rust_boundaries_remain_stable() {
    assert_eq!(DOCUMENT_FORMAT_VERSION, "rust-chunks-v1");
    let source =
        "// café\nfn first() { println!(\"hello\"); }\n\nimpl A {\nfn second() {}\n}\n";
    let chunks = rust_chunks("lib.rs", source).unwrap();
    let boundaries: Vec<_> = chunks
        .iter()
        .map(|chunk| (chunk.start_line, chunk.end_line, chunk.code.as_str()))
        .collect();
    assert_eq!(
        boundaries,
        vec![
            (1, 2, "// café\nfn first() { println!(\"hello\"); }"),
            (4, 4, "impl A"),
            (4, 6, "{\nfn second() {}\n}"),
        ]
    );
}

#[test]
fn chunks_typescript_declarations_prefixes_and_top_level_code() {
    let source = r#"import { metric } from "./metric";
// Streams telemetry.
export function* streamTelemetry() { yield metric; }

/** Runtime service. */
@sealed
export class TelemetryService {
  // Records a sample.
  @trace
  record(): number { return metric; }
}

export interface TelemetrySink {
  write(value: number): void;
}
export type TelemetryId = string;
export enum TelemetryMode { Live, Replay }
export const collectTelemetry = (value: number) => value + 1;
startTelemetry();
"#;
    let chunks = chunks_for_path("telemetry.ts", source).unwrap();
    assert!(chunks.iter().all(|chunk| chunk.language == "typescript"));
    for expected in [
        "import { metric }",
        "export function* streamTelemetry",
        "export class TelemetryService",
        "record(): number",
        "export interface TelemetrySink",
        "write(value: number): void",
        "export type TelemetryId",
        "export enum TelemetryMode",
        "export const collectTelemetry",
        "startTelemetry();",
    ] {
        assert!(
            chunks.iter().any(|chunk| chunk.code.contains(expected)),
            "missing {expected}: {chunks:#?}"
        );
    }
    let class = chunks
        .iter()
        .find(|chunk| chunk.code.contains("class TelemetryService"))
        .unwrap();
    assert!(class.code.starts_with("/** Runtime service. */"));
    assert!(class.code.contains("@sealed"));
    assert!(class.code.contains("@trace"));
    let arrow = chunks
        .iter()
        .find(|chunk| chunk.code.contains("collectTelemetry"))
        .unwrap();
    assert!(arrow.code.starts_with("export const collectTelemetry"));
}

#[test]
fn chunks_class_methods_and_interface_signatures_at_member_boundaries() {
    let source = r#"/** Coordinates telemetry. */
export class TelemetryCoordinator {
  // Starts collection.
  start(): void {}

  // Stops collection.
  stop(): void {}
}

export interface TelemetryLifecycle {
  start(): void;
  stop(): void;
}
"#;
    let chunks = chunks_for_path("lifecycle.ts", source).unwrap();
    let start_method = chunks
        .iter()
        .find(|chunk| chunk.code.contains("start(): void {}"))
        .unwrap();
    let stop_method = chunks
        .iter()
        .find(|chunk| chunk.code.contains("stop(): void {}"))
        .unwrap();
    assert!(
        start_method
            .code
            .starts_with("/** Coordinates telemetry. */")
    );
    assert!(
        start_method
            .code
            .contains("export class TelemetryCoordinator")
    );
    assert!(start_method.code.contains("// Starts collection."));
    assert!(!start_method.code.contains("stop(): void {}"));
    assert!(stop_method.code.contains("// Stops collection."));

    let start_signature = chunks
        .iter()
        .find(|chunk| chunk.code.contains("export interface TelemetryLifecycle"))
        .unwrap();
    let stop_signature = chunks
        .iter()
        .find(|chunk| {
            chunk.code.contains("stop(): void;") && !chunk.code.contains("stop(): void {}")
        })
        .unwrap();
    assert!(start_signature.code.contains("start(): void"));
    assert!(!start_signature.code.contains("stop(): void"));
    assert!(!stop_signature.code.contains("start(): void"));
}

#[test]
fn chunks_tsx_and_javascript_variants_with_correct_languages() {
    let cases = [
        (
            "panel.tsx",
            "tsx",
            "// UI\nexport const TelemetryPanel = () => <section>Live</section>;\n",
            "export const TelemetryPanel",
        ),
        (
            "worker.js",
            "javascript",
            "export function collect() { return 1; }\nclass Worker { run() {} }\nboot();\n",
            "class Worker",
        ),
        (
            "view.jsx",
            "jsx",
            "export const View = () => <main>Ready</main>;\nrender(<View />);\n",
            "render(<View />);",
        ),
    ];
    for (path, language, source, expected) in cases {
        let chunks = chunks_for_path(path, source).unwrap();
        assert!(chunks.iter().all(|chunk| chunk.language == language));
        assert!(chunks.iter().any(|chunk| chunk.code.contains(expected)));
        assert!(chunks.iter().all(|chunk| source.contains(&chunk.code)));
    }
}

#[test]
fn oversized_exported_typescript_class_splits_at_members_with_header_attached() {
    let methods = (0..120)
        .map(|index| {
            format!(
                "  // member {index}\n  method_{index}() {{ return \"{}\"; }}\n",
                "value".repeat(50)
            )
        })
        .collect::<String>();
    let source =
        format!("/** Large service. */\n@sealed\nexport class LargeService {{\n{methods}}}\n");
    assert!(source.len() > MAX_DECLARATION_BYTES);
    let chunks = chunks_for_path("large.ts", &source).unwrap();
    assert!(chunks.len() > 1);
    assert!(chunks[0].code.starts_with("/** Large service. */"));
    assert!(chunks[0].code.contains("export class LargeService"));
    for index in 0..120 {
        let method = format!("method_{index}");
        let chunk = chunks
            .iter()
            .find(|chunk| chunk.code.contains(&method))
            .unwrap_or_else(|| panic!("missing {method}"));
        assert!(chunk.code.contains(&format!("// member {index}")));
    }
}
#[test]
fn keeps_docs_attributes_and_medium_function_together() {
    let body = "    let number = 42;\n".repeat(400);
    let source = format!(
        "/// Translate expressions.\n#[allow(unused)]\nfn translator() {{\n{body}}}\nfn next() {{}}\n"
    );
    let chunks = rust_chunks("lib.rs", &source).unwrap();
    assert_eq!(chunks.len(), 2);
    assert!(chunks[0].code.starts_with("/// Translate"));
    assert!(chunks[0].code.contains("#[allow(unused)]"));
    assert!(chunks[0].code.contains(&body));
    assert_eq!(chunks[0].start_line, 1);
    assert_eq!(chunks[0].end_line, 404);
}

#[test]
fn oversized_function_splits_at_syntax_without_losing_statements() {
    let statements: Vec<_> = (0..2000)
        .map(|i| format!("    let value_{i} = {i};\n"))
        .collect();
    let source = format!("fn large() {{\n{}}}\n", statements.concat());
    let chunks = rust_chunks("lib.rs", &source).unwrap();
    assert!(chunks.len() > 1);
    for statement in statements {
        assert!(chunks.iter().any(|c| c.code.contains(statement.trim())));
    }
    for c in chunks {
        let lines: Vec<_> = source.lines().collect();
        assert!(
            lines[(c.start_line - 1) as usize..c.end_line as usize]
                .join("\n")
                .contains(&c.code)
        );
    }
}

#[test]
fn chunks_python_declarations_statements_and_decorators() {
    let source = r#"# module comment
import os
from os import path

TOP = 1

# leading comment
@decorator
def sync_func(a, b=2):
    """docstring"""
    x = a + b
    return x

async def async_func():
    await something()

@class_decorator
class Base:
    """class doc"""
    class_attr = 1

    @method_decorator
    def method(self):
        return self

    async def amethod(self):
        await thing()

if TOP:
    print("top")
"#;
    let chunks = chunks_for_path("service.py", source).unwrap();

    assert!(!chunks.is_empty());
    assert!(chunks.iter().all(|chunk| chunk.language == "python"));
    assert!(
        chunks
            .iter()
            .all(|chunk| chunk.relative_file_path == "service.py")
    );

    let sync = chunks
        .iter()
        .find(|chunk| chunk.code.contains("def sync_func"))
        .unwrap();
    assert!(
        sync.code
            .starts_with("# leading comment\n@decorator\ndef sync_func")
    );
    assert_eq!(sync.start_line, 7);
    assert_eq!(sync.end_line, 12);

    let async_function = chunks
        .iter()
        .find(|chunk| chunk.code.contains("async def async_func"))
        .unwrap();
    assert_eq!(async_function.start_line, 14);
    assert_eq!(async_function.end_line, 15);

    let class = chunks
        .iter()
        .find(|chunk| chunk.code.contains("class Base"))
        .unwrap();
    assert!(class.code.starts_with("@class_decorator\nclass Base"));
    assert!(class.code.contains("@method_decorator\n    def method"));
    assert!(class.code.contains("async def amethod"));

    assert!(chunks.iter().any(|chunk| chunk.code == "TOP = 1"));
    assert!(chunks.iter().any(|chunk| chunk.code.contains("if TOP:")));
    assert_eq!(
        chunks
            .iter()
            .filter(|chunk| chunk.code.contains("def sync_func"))
            .count(),
        1
    );
    assert_eq!(
        chunks
            .iter()
            .filter(|chunk| chunk.code.contains("class Base"))
            .count(),
        1
    );

    let lines: Vec<_> = source.lines().collect();
    for chunk in chunks {
        assert!(
            lines[(chunk.start_line - 1) as usize..chunk.end_line as usize]
                .join("\n")
                .contains(&chunk.code),
            "invalid range for {:#?}",
            chunk
        );
    }
}

#[test]
fn oversized_decorated_python_function_keeps_header_and_statements() {
    let statements: Vec<_> = (0..1600)
        .map(|i| format!("    value_{i} = calculate({i})\n"))
        .collect();
    let source = format!(
        "# explanation\n@trace\nasync def produce():\n{}",
        statements.concat()
    );

    let chunks = chunks_for_path("worker.py", &source).unwrap();
    assert!(chunks.len() > 1);
    assert!(
        chunks[0]
            .code
            .starts_with("# explanation\n@trace\nasync def produce():")
    );
    assert_eq!(chunks[0].start_line, 1);
    assert_eq!(
        chunks
            .iter()
            .filter(|chunk| chunk.code.contains("async def produce"))
            .count(),
        1
    );
    for statement in statements {
        assert!(
            chunks
                .iter()
                .any(|chunk| chunk.code.contains(statement.trim())),
            "missing {statement}"
        );
    }
}

fn files(list: &[(&str, &str)]) -> Vec<SourceFile> {
    list.iter()
        .filter_map(|(path, source)| source_file(path, (*source).to_owned()))
        .collect()
}

#[test]
fn scans_exactly_the_registered_lowercase_extensions() {
    let chunks = scan(files(&[
        ("lib.rs", "fn rust_item() {}\n"),
        ("types.ts", "export type Item = string;\n"),
        ("panel.tsx", "export const Panel = () => <main />;\n"),
        ("runtime.js", "export function run() {}\n"),
        ("view.jsx", "export const View = () => <main />;\n"),
        ("ignored.RS", "fn uppercase() {}\n"),
        ("ignored.mts", "export const ignored = 1;\n"),
        ("ignored.py", "ignored = True\n"),
    ]))
    .unwrap();
    let mut found: Vec<&str> = chunks
        .iter()
        .map(|chunk| chunk.relative_file_path.as_str())
        .collect();
    found.sort();
    found.dedup();
    assert_eq!(
        found,
        vec!["ignored.py", "lib.rs", "panel.tsx", "runtime.js", "types.ts", "view.jsx"]
    );
}

#[test]
fn reparses_only_the_language_with_incompatible_cache_metadata() {
    let sources = [
        ("lib.rs", "fn stable() {}\n"),
        ("panel.ts", "export const panel = () => 1;\n"),
    ];
    let first = scan_incremental(files(&sources), &Table::new()).unwrap();
    let mut cached = Table::new();
    for at in 0..first.files.len() {
        let (path, file) = first.files.entry(at);
        let adapter_version = if path == "panel.ts" {
            "old-typescript".to_owned()
        } else {
            file.adapter_version.clone()
        };
        cached.insert(
            path.clone(),
            CachedFile {
                language: file.language.clone(),
                adapter_version,
                content_hash: file.content_hash.clone(),
                chunks: chunk::clone_chunks(&file.chunks),
            },
        );
    }
    let second = scan_incremental(files(&sources), &cached).unwrap();
    assert_eq!(second.parsed_files, 1);
    assert_eq!(second.unchanged_files, 1);
    assert_eq!(second.files.get("lib.rs").unwrap().language, "rust");
    assert_eq!(second.files.get("panel.ts").unwrap().language, "typescript");
}

#[test]
fn a_second_scan_parses_nothing() {
    let sources = [("lib.rs", "fn a() {}\n"), ("main.go", "package main\n")];
    let first = scan_incremental(files(&sources), &Table::new()).unwrap();
    assert_eq!(first.parsed_files, 2);
    let second = scan_incremental(files(&sources), &first.files).unwrap();
    assert_eq!(second.parsed_files, 0);
    assert_eq!(second.unchanged_files, 2);
    assert_eq!(second.removed_files, 0);
    assert_eq!(second.fingerprint, first.fingerprint);
    let third = scan_incremental(files(&sources[..1]), &first.files).unwrap();
    assert_eq!(third.removed_files, 1);
    assert_ne!(third.fingerprint, first.fingerprint);
}

#[test]
fn the_fingerprint_does_not_depend_on_the_order_of_the_files() {
    let there = files(&[("a.rs", "fn a() {}\n"), ("b.rs", "fn b() {}\n")]);
    let back = files(&[("b.rs", "fn b() {}\n"), ("a.rs", "fn a() {}\n")]);
    assert_eq!(fingerprint(there), fingerprint(back));
}

#[test]
fn unsupported_extensions_are_refused() {
    assert!(matches!(
        chunks_for_path("notes.txt", "text"),
        Err(ChunkError::UnsupportedExtension(_))
    ));
    assert!(source_file("notes.txt", "text".to_owned()).is_none());
}

#[test]
fn chunks_csharp_and_go_declarations() {
    let csharp = chunks_for_path("App.cs", "class App\n{\n    void Run() { }\n}\n").unwrap();
    assert!(csharp.iter().all(|chunk| chunk.language == "csharp"));
    assert!(csharp.iter().any(|chunk| chunk.code.contains("void Run()")));
    let go = chunks_for_path("main.go", "package main\n\nfunc run() int { return 1 }\n").unwrap();
    assert!(go.iter().all(|chunk| chunk.language == "go"));
    assert!(go.iter().any(|chunk| chunk.code.contains("func run()")));
}

#[test]
fn the_fingerprint_tells_files_apart() {
    let base = fingerprint(files(&[("a.ts", "let a = 1;\n")]));
    assert_ne!(base, fingerprint(files(&[("b.ts", "let a = 1;\n")])));
    assert_ne!(base, fingerprint(files(&[("a.ts", "let a = 2;\n")])));
    assert_ne!(base, fingerprint(files(&[("a.tsx", "let a = 1;\n")])));
    assert_ne!(base, fingerprint(files(&[])));
}

#[test]
fn only_changed_files_are_parsed() {
    let first = scan_incremental(
        files(&[("a.rs", "fn a() {}\n"), ("b.rs", "fn b() {}\n"), ("c.py", "c = 1\n")]),
        &Table::new(),
    )
    .unwrap();
    let second = scan_incremental(
        files(&[("a.rs", "fn a() {}\n"), ("b.rs", "fn b2() {}\n"), ("d.py", "c = 1\n")]),
        &first.files,
    )
    .unwrap();
    assert_eq!(second.parsed_files, 2);
    assert_eq!(second.unchanged_files, 1);
    assert_eq!(second.removed_files, 1);
}

#[test]
fn chunks_java_declarations() {
    let source = "package demo;\n\nimport java.util.List;\n\n/** A service. */\n@Deprecated\npublic class Service {\n    private int count = 1;\n\n    /** Makes one. */\n    public Service() {\n    }\n\n    /** Runs it. */\n    int run() {\n        return count;\n    }\n}\n\ninterface Shape {\n    double area();\n}\n\nenum Color { RED, GREEN }\n\nrecord Point(int x, int y) {}\n";
    let chunks = chunks_for_path("demo/Service.java", source).unwrap();
    assert!(chunks.iter().all(|chunk| chunk.language == "java"));
    let holding = |text: &str| {
        chunks
            .iter()
            .find(|chunk| chunk.code.contains(text))
            .unwrap_or_else(|| panic!("{text}"))
    };
    holding("package demo;");
    holding("import java.util.List;");
    let class = holding("private int count = 1;");
    assert!(class.code.starts_with("/** A service. */\n@Deprecated\npublic class Service {"));
    assert!(holding("public Service()").code.starts_with("/** Makes one. */"));
    assert!(holding("int run()").code.starts_with("/** Runs it. */"));
    holding("double area();");
    holding("RED");
    holding("record Point(int x, int y)");
}

fn nested_python(depth: usize) -> String {
    let mut source = String::new();
    for level in 0..depth {
        source.push_str(&" ".repeat(level));
        source.push_str("if x:\n");
    }
    source.push_str(&" ".repeat(depth));
    source.push_str("y = 's'\n");
    source
}

#[test]
fn deeply_nested_python_is_refused() {
    assert!(chunks_for_path("a.py", &nested_python(90)).is_ok());
    assert!(chunks_for_path("a.py", &nested_python(382)).is_ok());
    let error = chunks_for_path("a.py", &nested_python(520)).unwrap_err();
    assert_eq!(error.message(), "source is indented too deeply");
    // Blocks side by side are not nested, however many widths they have.
    let side: String = (1..600)
        .rev()
        .map(|width| format!("if x:\n{}y = 's'\n", " ".repeat(width)))
        .collect();
    assert!(chunks_for_path("a.py", &side).is_ok());
    // Other grammars do not keep indentations.
    assert!(chunks_for_path("a.rs", &nested_python(520)).is_ok());
}

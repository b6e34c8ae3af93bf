use local_code_intelligence::float;
use local_code_intelligence::json::{self, Json};
use local_code_intelligence::language::Grammar;
use local_code_intelligence::margins::rises_rarely;
use local_code_intelligence::openapi::{openapi_document, Schemas};
use local_code_intelligence::order;
use local_code_intelligence::paths;
use local_code_intelligence::server::SearchArgs;
use local_code_intelligence::syntax::{self, NodeRow, ParseFailure};
use local_code_intelligence::table::Table;
use local_code_intelligence::text;

#[test]
fn numbers_are_written_and_read() {
    for n in [0, 9, 10, 1234567890123] {
        let written = text::decimal_text(n);
        assert_eq!(written, n.to_string());
        assert_eq!(text::parse_usize(&written), Some(n as usize));
    }
    assert_eq!(text::parse_usize("+5"), Some(5));
    assert_eq!(text::parse_usize(""), None);
    assert_eq!(text::parse_usize("+"), None);
    assert_eq!(text::parse_usize("-1"), None);
    assert_eq!(text::parse_usize("18446744073709551616"), None);
}

#[test]
fn texts_are_taken_apart() {
    assert_eq!(text::trimmed("\u{2003}a b\n"), "a b");
    assert!(text::is_blank("\u{a0}\t"));
    assert_eq!(text::split_on("a//b", '/'), vec!["a", "", "b"]);
    assert_eq!(text::split_on("", '/'), vec![""]);
    assert_eq!(text::join(&["a".to_owned(), "b".to_owned()], ", "), "a, b");
    assert!(text::has_part("abc", "bc") && !text::has_part("abc", "cb"));
    assert_eq!(text::replace_char("a\\b", '\\', '/'), "a/b");
    assert_eq!(text::to_ascii_lower("ÄB"), "Äb");
    assert_eq!(text::cut("aé", 1, 3), ("a", "é"));
}

#[test]
fn paths_are_normalized() {
    assert_eq!(paths::normalize_path("/./src\\\\a.rs"), "./src/a.rs");
    let once = paths::normalize_path("src//./a.rs/");
    assert_eq!(paths::normalize_path(&once), once);
    assert_eq!(paths::relative_path("/w/src/a.rs", "/w"), "src/a.rs");
    assert!(paths::lies_within("/w/a", "/w") && !paths::lies_within("/wa", "/w"));
    assert_eq!(paths::file_name_of("/w/a.rs").as_deref(), Some("a.rs"));
    assert_eq!(paths::extension_of("/w/a.tar.gz").as_deref(), Some("gz"));
    assert_eq!(paths::extension_of("/w/.hidden"), None);
    assert_eq!(paths::join_path("/w", "a.rs"), "/w/a.rs");
}

#[test]
fn sorting_forgets_the_order_and_repetitions() {
    let list = |items: &[&str]| -> Vec<String> { items.iter().map(|item| (*item).to_owned()).collect() };
    let sorted = order::distinct(&list(&["b", "é", "a", "b"]));
    assert_eq!(sorted, vec!["a", "b", "é"]);
    assert_eq!(order::distinct(&list(&["é", "b", "a"])), sorted);
    assert!(order::text_precedes("a", "ab") && !order::text_precedes("b", "ab"));
}

#[test]
fn float_order_is_total() {
    let below = |a: f32, b: f32| float::total_below(a.to_bits(), b.to_bits());
    let ascending = [f32::NEG_INFINITY, -1.0, -0.0, 0.0, 1.0, f32::INFINITY, f32::NAN];
    for (i, a) in ascending.iter().enumerate() {
        for (j, b) in ascending.iter().enumerate() {
            assert_eq!(below(*a, *b), i < j);
        }
    }
    assert!(float::finite(1.0f32.to_bits()) && !float::finite(f32::INFINITY.to_bits()));
    assert!(float::zero((-0.0f32).to_bits()) && !float::zero(1.0f32.to_bits()));
    assert!(float::positive(1.0f32.to_bits()) && !float::positive((-1.0f32).to_bits()));
    assert!(!float::positive(0) && !float::positive(f32::NAN.to_bits()));
}

#[test]
fn tables_are_sorted_by_key() {
    let mut table: Table<u32> = Table::new();
    table.insert("b".to_owned(), 1);
    table.insert("a".to_owned(), 2);
    table.insert("b".to_owned(), 3);
    assert_eq!(table.len(), 2);
    assert_eq!(table.entry(0), (&"a".to_owned(), &2));
    assert_eq!(table.get("b"), Some(&3));
}

fn node(kind: &str, start: usize, end: usize, children: usize) -> NodeRow {
    NodeRow {
        kind: kind.to_owned(),
        start,
        end,
        children,
    }
}

#[test]
fn rows_make_a_tree() {
    let list = || vec![node("file", 0, 4, 2), node("a", 0, 2, 1), node("b", 1, 2, 0), node("c", 2, 4, 0)];
    let tree = syntax::build(list()).unwrap();
    assert_eq!(tree.children.len(), 2);
    assert_eq!(tree.children[0].children[0].kind, "b");
    assert!(syntax::build(list().into_iter().take(3).collect()).is_none());
    assert!(syntax::build(vec![]).is_none());
    assert!(syntax::place(list(), "abcd").is_ok());
    assert_eq!(syntax::place(list(), "abc").unwrap_err(), ParseFailure::Malformed);
}

#[test]
fn sources_are_parsed_by_their_grammar() {
    let tree = syntax::parse(Grammar::Rust, "fn a() {}").unwrap();
    assert_eq!(tree.kind, "source_file");
    assert_eq!(tree.children[0].kind, "function_item");
    let tree = syntax::parse(Grammar::Python, "def a():\n    pass\n").unwrap();
    assert_eq!(tree.children[0].kind, "function_definition");
}

#[test]
fn the_interface_names_every_route() {
    let schemas = Schemas {
        workspace: Json::text("workspace"),
        search: Json::text("search"),
        symbol: Json::text("symbol"),
        position: Json::text("position"),
        references: Json::text("references"),
    };
    let document = openapi_document(&schemas, "1.2.3");
    let info = document.get("info").unwrap();
    assert_eq!(info.text_of("version"), Some("1.2.3"));
    assert!(matches!(document.get("paths"), Some(Json::Object(list)) if !list.is_empty()));
    assert!(matches!(json::empty_object(), Json::Object(list) if list.is_empty()));
}

#[test]
fn search_arguments_hold_filters() {
    let args = SearchArgs {
        workspace_path: "/w".to_owned(),
        query: "q".to_owned(),
        top_k: None,
        languages: Some(vec!["rust".to_owned()]),
        include_paths: None,
        exclude_paths: Some(vec!["a".to_owned()]),
        source_roles: None,
    };
    let filters = args.into_filters();
    assert_eq!(filters.languages, Some(vec!["rust".to_owned()]));
    assert_eq!(filters.exclude_paths, Some(vec!["a".to_owned()]));
    assert_eq!(filters.include_paths, None);
}

#[test]
fn relative_paths_lead_back() {
    for (path, base) in [("/w/src/a.rs", "/w"), ("/w//x/./y", "/w/x/"), ("/w", "/w"), ("/a/b", "/")] {
        let back = paths::join_path(base, &paths::relative_path(path, base));
        assert_eq!(paths::steps_of(&back), paths::steps_of(path), "{path}");
    }
}

#[test]
fn relative_paths_are_as_written() {
    assert_eq!(paths::relative_path("/r/a//b", "/r"), "a//b");
    assert_eq!(paths::relative_path("/r//a/./b/", "/r/"), "a/./b");
    assert_eq!(paths::relative_path("C:/w/src/a.rs", "C:/w"), "src/a.rs");
    assert_eq!(paths::relative_path("./a/b", "."), "a/b");
    assert_eq!(paths::relative_path("/r", "/r"), "");
    assert_eq!(paths::relative_path("/x", "/r"), "/x");
}

#[test]
fn rising_margins_are_counted() {
    let line = |width: usize| format!("{}x\n", " ".repeat(width));
    let rising = |widths: usize| -> String { (0..widths).map(line).collect() };
    assert!(rises_rarely(""));
    assert!(rises_rarely(&format!("a\n{}", rising(384))));
    assert!(!rises_rarely(&format!("a\n{}", rising(385))));
    // Widths that come again make no longer chain.
    assert!(rises_rarely(&format!("a\n{}", rising(384).repeat(3))));
    // Nor do different widths in falling order.
    let falling: String = (0..600).rev().map(line).collect();
    assert!(rises_rarely(&format!("a\n{falling}")));
    // A chain may skip lines.
    let mixed: String = (0..400).map(|width| format!("{}x\n", line(width))).collect();
    assert!(!rises_rarely(&format!("a\n{mixed}")));
    // Blank lines and comments have no margin.
    let blank: String = (0..500).map(|width| format!("{}# c\n", " ".repeat(width))).collect();
    assert!(rises_rarely(&blank));
    // A line of blanks goes on behind a backslash: its margin falls with each part passed.
    assert!(rises_rarely(&format!("\n{}x\n", "  \\\n".repeat(400))));
    let tabs: String = (0..400).map(|width| format!("{}x\n", "\t".repeat(width % 100))).collect();
    assert!(rises_rarely(&tabs));
}

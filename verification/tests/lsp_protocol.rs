use local_code_intelligence::config::Config;
use local_code_intelligence::json::{self, Json, Member};
use local_code_intelligence::lsp::adapter::{
    adapters, adapters_for_language, applicable_adapters, Provider,
};
use local_code_intelligence::lsp::locations::{
    located_items, locations_for, locations_of, NamedFile,
};
use local_code_intelligence::lsp::sessions::{
    advance_attempt, definition_in, definition_params, opening_of, reference_params,
    references_in, symbol_params, Attempt,
};
use local_code_intelligence::lsp::transport::{
    header_for, notification_message, read_header_line, read_message, request_message, time_left,
    HeaderStep, Incoming, Readiness,
};
use local_code_intelligence::workspace::Workspace;

fn object(members: Vec<(&str, Json)>) -> Json {
    Json::Object(
        members
            .into_iter()
            .map(|(key, value)| Member {
                key: key.to_owned(),
                value,
            })
            .collect(),
    )
}

fn place(line: u64, character: u64) -> Json {
    object(vec![
        ("line", Json::Unsigned(line)),
        ("character", Json::Unsigned(character)),
    ])
}

fn range(line: u64, from: u64, to: u64) -> Json {
    object(vec![("start", place(line, from)), ("end", place(line, to))])
}

fn workspace() -> Workspace {
    Workspace {
        id: "test".into(),
        path: "/workspace".into(),
    }
}

#[test]
fn normalizes_locations_and_location_links() {
    let uri = "file:///workspace/src/lib.rs";
    let response = Json::List(vec![
        object(vec![
            ("name", Json::text("item")),
            ("kind", Json::Unsigned(12)),
            (
                "location",
                object(vec![("uri", Json::text(uri)), ("range", range(2, 3, 7))]),
            ),
        ]),
        object(vec![
            ("targetUri", Json::text(uri)),
            ("targetSelectionRange", range(4, 1, 5)),
        ]),
    ]);
    let result = locations_for(&response, &workspace(), "rust-analyzer").unwrap();
    assert_eq!(result.len(), 2);
    assert_eq!(result[0].relative_file_path.as_deref(), Some("src/lib.rs"));
    assert_eq!(result[0].start_line, 3);
    assert_eq!(result[0].language.as_deref(), Some("rust"));
    assert_eq!(result[0].provider.as_deref(), Some("rust-analyzer"));
    assert_eq!(result[1].start_line, 5);
    assert_eq!(result[0].name.as_deref(), Some("item"));
    assert_eq!(result[0].kind, Some(12));
    assert_eq!(result[0].end_character, 7);
    assert_eq!(result[1].name, None);
}

#[test]
fn locations_outside_the_workspace_are_left_out() {
    let response = Json::List(vec![
        object(vec![
            ("uri", Json::text("file:///elsewhere/a.rs")),
            ("range", range(0, 0, 1)),
        ]),
        object(vec![
            ("uri", Json::text("https://example.com/a.rs")),
            ("range", range(0, 0, 1)),
        ]),
        object(vec![("uri", Json::text("file:///workspace/a.rs"))]),
        object(vec![
            ("uri", Json::text("file:///workspace/a%20b.ts")),
            ("range", Json::Null),
        ]),
    ]);
    let result = locations_for(&response, &workspace(), "p").unwrap();
    assert_eq!(result.len(), 1);
    assert_eq!(result[0].relative_file_path.as_deref(), Some("a b.ts"));
    assert_eq!(result[0].start_line, 1);
    assert_eq!(result[0].language.as_deref(), Some("typescript"));
}

#[test]
fn an_address_that_is_none_fails_the_response() {
    let response = object(vec![("uri", Json::text("no address")), ("range", range(0, 0, 1))]);
    assert!(locations_for(&response, &workspace(), "p").is_err());
    assert!(locations_for(&Json::Null, &workspace(), "p").unwrap().is_empty());
    assert_eq!(located_items(&response).len(), 1);
    let list = located_items(&response);
    let error = locations_of(&list, &[Err("bad".to_owned())], "/workspace", "p");
    assert_eq!(error.unwrap_err(), "bad");
}

#[test]
fn files_keep_the_paths_of_their_platform() {
    let response = object(vec![
        ("uri", Json::text("file:///C:/w/src/a.rs")),
        ("range", range(0, 0, 1)),
    ]);
    let list = located_items(&response);
    let named = |native: &str, path: &str| {
        [Ok(Some(NamedFile {
            native: native.to_owned(),
            path: path.to_owned(),
        }))]
    };
    let inside = named("C:\\w\\src\\a.rs", "C:/w/src/a.rs");
    let found = locations_of(&list, &inside, "C:/w", "p").unwrap();
    assert_eq!(found.len(), 1);
    assert_eq!(found[0].file_path, "C:\\w\\src\\a.rs");
    assert_eq!(found[0].relative_file_path.as_deref(), Some("src/a.rs"));
    assert_eq!(found[0].language.as_deref(), Some("rust"));
    let outside = named("C:\\v\\a.rs", "C:/v/a.rs");
    assert!(locations_of(&list, &outside, "C:/w", "p").unwrap().is_empty());
    assert!(locations_of(&list, &[Ok(None)], "C:/w", "p").unwrap().is_empty());
}

#[test]
fn frames_are_read_back() {
    let header = header_for(1234);
    assert_eq!(header, "Content-Length: 1234\r\n\r\n");
    let step = read_header_line(None, "Content-Length: 1234\r\n");
    assert_eq!(step, HeaderStep::More(Some(1234)));
    assert_eq!(read_header_line(Some(1234), "\r\n"), HeaderStep::Body(1234));
    assert_eq!(read_header_line(Some(1234), "\n"), HeaderStep::Body(1234));
}

#[test]
fn header_fields_are_matched_without_regard_to_case() {
    assert_eq!(
        read_header_line(None, "CONTENT-LENGTH:+7\n"),
        HeaderStep::More(Some(7))
    );
    assert_eq!(
        read_header_line(Some(7), "Content-Type: json\r\n"),
        HeaderStep::More(Some(7))
    );
    assert_eq!(
        read_header_line(None, "Content-Length: x\r\n"),
        HeaderStep::BadLength
    );
    assert_eq!(
        read_header_line(None, "Content-Length: 99999999999999999999\r\n"),
        HeaderStep::BadLength
    );
    assert_eq!(read_header_line(None, "\r\n"), HeaderStep::MissingLength);
}

#[test]
fn requests_of_the_server_are_answered() {
    let items = object(vec![("items", Json::List(vec![Json::Null, Json::Null]))]);
    let request = request_message(3, "workspace/configuration", items);
    match read_message(&request, Readiness::Never) {
        Incoming::Answer { id, message } => {
            assert_eq!(id, 3);
            assert_eq!(message.u64_of("id"), Some(3));
            assert!(matches!(message.get("result"), Some(Json::List(list)) if list.len() == 2));
        }
        other => panic!("{other:?}"),
    }
    let bare = request_message(4, "workspace/configuration", Json::Null);
    match read_message(&bare, Readiness::Never) {
        Incoming::Answer { message, .. } => {
            assert!(matches!(message.get("result"), Some(Json::List(list)) if list.len() == 1));
        }
        other => panic!("{other:?}"),
    }
    let other = request_message(5, "client/registerCapability", Json::Null);
    match read_message(&other, Readiness::Never) {
        Incoming::Answer { message, .. } => {
            assert!(matches!(message.get("result"), Some(Json::Null)));
        }
        other => panic!("{other:?}"),
    }
}

#[test]
fn responses_and_notifications_are_told_apart() {
    let result = object(vec![("id", Json::Unsigned(1)), ("result", Json::Bool(true))]);
    assert!(matches!(
        read_message(&result, Readiness::Never),
        Incoming::Result { id: 1, result: Json::Bool(true) }
    ));
    let empty = object(vec![("id", Json::Unsigned(1))]);
    assert!(matches!(
        read_message(&empty, Readiness::Never),
        Incoming::Result { id: 1, result: Json::Null }
    ));
    let error = object(vec![("id", Json::Unsigned(2)), ("error", Json::Null)]);
    assert!(matches!(
        read_message(&error, Readiness::Never),
        Incoming::Error { id: 2, .. }
    ));
    let quiet = object(vec![("quiescent", Json::Bool(true))]);
    let status = notification_message("experimental/serverStatus", quiet);
    assert!(matches!(
        read_message(&status, Readiness::Quiescent),
        Incoming::Notification { ready: true }
    ));
    assert!(matches!(
        read_message(&status, Readiness::Started),
        Incoming::Notification { ready: false }
    ));
    let busy = object(vec![("quiescent", Json::Bool(false))]);
    let status = notification_message("experimental/serverStatus", busy);
    assert!(!Readiness::Quiescent.matches(&status));
}

#[test]
fn activity_extends_the_deadline() {
    assert_eq!(time_left(5_000, 0, 0, 10_000), Some(5_000));
    assert_eq!(time_left(10_000, 0, 0, 10_000), None);
    assert_eq!(time_left(10_000, 0, 9_000, 10_000), Some(9_000));
    assert_eq!(time_left(11_000, 2_000, 1_000, 10_000), Some(1_000));
}

#[test]
fn requests_name_their_place() {
    let symbols = symbol_params("run#");
    assert_eq!(symbols.text_of("query"), Some("run#"));
    assert_eq!(symbols.text_of("searchKind"), Some("allSymbols"));
    let definition = definition_params("file:///a.rs", 4, 2);
    let position = definition.get("position").unwrap();
    assert_eq!(position.u64_of("line"), Some(4));
    assert_eq!(position.u64_of("character"), Some(2));
    let references = reference_params("file:///a.rs", 4, 2, true);
    assert!(matches!(
        references.get("context").and_then(|context| context.get("includeDeclaration")),
        Some(Json::Bool(true))
    ));
}

#[test]
fn files_have_addresses() {
    let definition = definition_in("/w/a b.rs", 1, 2).unwrap();
    let document = definition.get("textDocument").unwrap();
    assert_eq!(document.text_of("uri"), Some("file:///w/a%20b.rs"));
    assert!(definition_in("relative.rs", 1, 2).is_none());
    assert!(references_in("relative.rs", 1, 2, false).is_none());
    assert!(references_in("/w/a.rs", 1, 2, false).is_some());
    let opened = opening_of("/w/a.go", "go", "package a").unwrap();
    let document = opened.get("textDocument").unwrap();
    assert_eq!(document.text_of("languageId"), Some("go"));
    assert_eq!(document.text_of("text"), Some("package a"));
    assert_eq!(document.u64_of("version"), Some(1));
}

#[test]
fn a_failed_request_is_sent_once_more_in_a_new_session() {
    let failed = || Some("broken pipe".to_owned());
    let sent = advance_attempt(Attempt::Connect, "gopls", false, None);
    assert!(matches!(sent, Attempt::Send));
    let again = advance_attempt(sent, "gopls", false, failed());
    let sent = advance_attempt(again, "gopls", false, None);
    assert!(matches!(sent, Attempt::SendAgain));
    let end = advance_attempt(sent, "gopls", false, failed());
    assert!(matches!(end, Attempt::Failed { message } if message == "broken pipe"));
}

#[test]
fn a_failed_restart_names_both_errors() {
    let again = Attempt::Reconnect {
        first: "silent".to_owned(),
    };
    let end = advance_attempt(again, "gopls", true, Some("not found".to_owned()));
    assert!(
        matches!(end, Attempt::Failed { message } if message == "gopls restart after: silent: not found")
    );
    let plain = advance_attempt(Attempt::Connect, "gopls", false, Some("not found".to_owned()));
    assert!(matches!(plain, Attempt::Failed { .. }));
    let prepared = advance_attempt(Attempt::Connect, "gopls", true, Some("not found".to_owned()));
    assert!(matches!(prepared, Attempt::Reconnect { .. }));
}

#[test]
fn servers_are_found_by_language() {
    let mut config = Config::with_base("/data");
    config.python.path = Some("pyright-langserver".to_owned());
    let list = adapters(&config);
    let enabled: Vec<bool> = list.iter().map(|server| server.enabled).collect();
    assert_eq!(enabled, vec![true, false, false, true]);
    assert_eq!(adapters_for_language(&list, "tsx"), vec![2]);
    assert!(adapters_for_language(&list, "go").is_empty());
    let languages = vec!["csharp".to_owned(), "python".to_owned(), "rust".to_owned()];
    assert_eq!(applicable_adapters(&list, &languages), vec![0, 3]);
    assert_eq!(Provider::Clangd.languages(), vec!["c", "cpp"]);
}

#[test]
fn members_are_found_by_their_keys() {
    let value = json::with(json::object("a", Json::Unsigned(1)), "b", json::nulls(2));
    assert_eq!(value.u64_of("a"), Some(1));
    assert_eq!(value.text_of("a"), None);
    assert!(value.get("c").is_none());
    let copy = value.clone();
    assert!(matches!(copy.get("b"), Some(Json::List(list)) if list.len() == 2));
    assert!(Json::Number("1.5".to_owned()).as_u64().is_none());
}

use local_code_intelligence::app::readiness::{
    address_or_failure, connect_failure_text, listing_address, probe_file_name, probed_command, read_listing,
    service_status, status_code, ListingReply, ModelListing, Probes, ServerProbe,
};
use local_code_intelligence::json::{self, Json};
use local_code_intelligence::lsp::adapter::{AdapterInfo, Provider};

fn server(enabled: bool, command: Option<&str>) -> AdapterInfo {
    AdapterInfo {
        provider: Provider::Pyright,
        enabled,
        command: command.map(str::to_owned),
    }
}

fn good() -> Probes {
    Probes {
        data_dir: Ok(()),
        lancedb: Ok(()),
        embedding_reach: Ok(()),
        embedding_models: ModelListing::Listed,
        reranker_reach: Ok(()),
        reranker_models: ModelListing::NotExposed,
        ripgrep_path: "/bin/rg".to_owned(),
        ripgrep: Ok(()),
        servers: vec![ServerProbe {
            server: server(false, None),
            probe: Ok(()),
        }],
    }
}

#[test]
fn everything_ready() {
    let status = service_status(&good());
    assert!(status.ready);
    assert!(status.can_create_semantic_index);
    assert!(status.degraded.is_empty());
    assert_eq!(status.components.len(), 8);
    assert_eq!(status.components[0].name, "writable_data_dir");
    assert_eq!(status.components[0].detail, None);
    assert_eq!(
        status.components[5].detail.as_deref(),
        Some("model listing not exposed (HTTP 404/405)")
    );
    assert_eq!(
        status.components[6].detail.as_deref(),
        Some("resolved ripgrep at /bin/rg")
    );
    assert_eq!(status.components[7].name, "python_language_server_available");
    assert_eq!(
        status.components[7].detail.as_deref(),
        Some("pyright not configured")
    );
    assert_eq!(status_code(&status), 200);
}

#[test]
fn optional_components_only_degrade() {
    let probes = Probes {
        reranker_reach: Err("refused".to_owned()),
        ripgrep: Err("not found".to_owned()),
        servers: vec![
            ServerProbe {
                server: server(true, Some("pyright-langserver")),
                probe: Err("not found".to_owned()),
            },
            ServerProbe {
                server: server(false, Some("pyright-langserver")),
                probe: Ok(()),
            },
            ServerProbe {
                server: server(true, Some("pyright-langserver")),
                probe: Ok(()),
            },
        ],
        ..good()
    };
    let status = service_status(&probes);
    assert!(status.ready);
    let degraded: Vec<(&str, &str)> = status
        .degraded
        .iter()
        .map(|item| (item.name, item.reason.as_str()))
        .collect();
    assert_eq!(
        degraded,
        vec![
            ("reranker_endpoint_reachable", "refused"),
            ("ripgrep_available", "ripgrep at /bin/rg unavailable: not found"),
            (
                "python_language_server_available",
                "configured pyright command pyright-langserver unavailable: not found"
            ),
        ]
    );
    assert_eq!(status.components[8].detail.as_deref(), Some("pyright disabled"));
    assert_eq!(
        status.components[9].detail.as_deref(),
        Some("configured pyright command pyright-langserver")
    );
}

#[test]
fn required_components_gate_readiness() {
    for probes in [
        Probes { data_dir: Err("read-only".to_owned()), ..good() },
        Probes { lancedb: Err("locked".to_owned()), ..good() },
        Probes { embedding_reach: Err("refused".to_owned()), ..good() },
        Probes { embedding_models: ModelListing::NotExposed, ..good() },
        Probes { embedding_models: ModelListing::Failed("no".to_owned()), ..good() },
    ] {
        let status = service_status(&probes);
        assert!(!status.ready);
        assert!(!status.can_create_semantic_index);
        assert_eq!(status.degraded.len(), 1);
        assert_eq!(status_code(&status), 503);
    }
}

fn response(status: u16, body: Result<Json, String>) -> ListingReply {
    ListingReply::Response {
        status,
        status_text: format!("{status} text"),
        body,
    }
}

fn models(names: &[&str]) -> Json {
    let list = names
        .iter()
        .map(|name| json::object("id", Json::text(name)))
        .collect();
    json::object("data", Json::List(list))
}

fn failure(listing: ModelListing) -> String {
    match listing {
        ModelListing::Failed(reason) => reason,
        other => panic!("{other:?}"),
    }
}

#[test]
fn listings_are_read() {
    let label = "embedding model listing";
    let listed = response(200, Ok(models(&["other", "mine"])));
    assert!(matches!(read_listing(&listed, "mine", label), ModelListing::Listed));
    assert_eq!(
        failure(read_listing(&listed, "missing", label)),
        "configured model missing not present in embedding model listing"
    );
    for status in [404, 405] {
        let reply = response(status, Err("no".to_owned()));
        assert!(matches!(read_listing(&reply, "mine", label), ModelListing::NotExposed));
    }
    assert_eq!(
        failure(read_listing(&response(500, Ok(Json::Null)), "mine", label)),
        "embedding model listing HTTP error: 500 text"
    );
    assert_eq!(
        failure(read_listing(&response(200, Err("eof".to_owned())), "mine", label)),
        "invalid embedding model listing response: eof"
    );
    let silent = ListingReply::Unreachable { is_timeout: true, is_connect: true };
    assert_eq!(
        failure(read_listing(&silent, "mine", label)),
        "connect to embedding model listing: timeout"
    );
    assert_eq!(
        failure(read_listing(&response(200, Ok(Json::Null)), "mine", label)),
        "configured model mine not present in embedding model listing"
    );
}

#[test]
fn failures_are_told_by_their_class() {
    assert_eq!(connect_failure_text("x", false, true), "connect to x: connection failure");
    assert_eq!(connect_failure_text("x", false, false), "connect to x: request failure");
}

#[test]
fn listings_are_at_the_root_of_the_service() {
    assert_eq!(
        listing_address("http://localhost:8767/rerank?key=1#top", "reranker").unwrap(),
        "http://localhost:8767/v1/models"
    );
    let refused = listing_address("no address", "reranker").unwrap_err();
    assert!(failure(refused).starts_with("invalid reranker URL: "));
}

#[test]
fn only_configured_and_enabled_servers_are_probed() {
    assert_eq!(probed_command(&server(true, Some("x"))), Some("x"));
    assert_eq!(probed_command(&server(false, Some("x"))), None);
    assert_eq!(probed_command(&server(true, None)), None);
}

#[test]
fn probe_names_do_not_collide() {
    assert_eq!(probe_file_name(7, 12, 3), ".readiness_probe_7_12_3");
    assert_ne!(probe_file_name(1, 11, 1), probe_file_name(11, 1, 1));
}

#[test]
fn an_address_that_is_none_is_a_failed_listing() {
    let address = address_or_failure(Ok("http://h/v1/models".to_owned()), "embedding");
    assert!(matches!(address, Ok(found) if found == "http://h/v1/models"));
    assert!(matches!(
        address_or_failure(Err("empty host".to_owned()), "embedding"),
        Err(ModelListing::Failed(text)) if text == "invalid embedding URL: empty host"
    ));
    assert!(matches!(
        listing_address("http://localhost:8766/v1?q=1#part", "embedding"),
        Ok(found) if found == "http://localhost:8766/v1/models"
    ));
}

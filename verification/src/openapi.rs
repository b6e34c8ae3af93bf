//! The description of the HTTP interface.
//!
//! Every request schema is the one that the matching tool's arguments have, so that the
//! description cannot drift from what a request accepts. Responses are left open.

use crate::json::{self, Document, Json};
use vstd::prelude::*;

verus! {

/// The schemas of the arguments of the tools.
#[derive(Debug)]
pub struct Schemas {
    pub workspace: Json,
    pub search: Json,
    pub symbol: Json,
    pub position: Json,
    pub references: Json,
}

/// What [`Schemas`] say.
pub struct SchemasView {
    pub workspace: Document,
    pub search: Document,
    pub symbol: Document,
    pub position: Document,
    pub references: Document,
}

impl View for Schemas {
    type V = SchemasView;

    open spec fn view(&self) -> SchemasView {
        SchemasView {
            workspace: json::document(self.workspace),
            search: json::document(self.search),
            symbol: json::document(self.symbol),
            position: json::document(self.position),
            references: json::document(self.references),
        }
    }
}

/// An object of two members.
pub open spec fn pair(a: Seq<char>, x: Document, b: Seq<char>, y: Document) -> Document {
    Document::Object(seq![(a, x), (b, y)])
}

/// The schema of a result.
pub open spec fn result_schema() -> Document {
    pair(
        "type"@,
        Document::Text("object"@),
        "description"@,
        Document::Text(
            "Identical JSON to the matching MCP tool's structured result; see README.md's \"MCP tools\" table for the exact shape."@,
        ),
    )
}

/// The schema of an error.
pub open spec fn error_schema() -> Document {
    Document::Object(
        seq![
            ("type"@, Document::Text("object"@)),
            ("properties"@, json::single("error"@, json::single("type"@, Document::Text("string"@)))),
            ("required"@, Document::List(seq![Document::Text("error"@)])),
        ],
    )
}

/// A body in JSON with a schema.
pub open spec fn content(schema: Document) -> Document {
    json::single("application/json"@, json::single("schema"@, schema))
}

/// A response with a description and a schema.
pub open spec fn described(description: Seq<char>, schema: Document) -> Document {
    pair("description"@, Document::Text(description), "content"@, content(schema))
}

/// An operation that takes arguments.
pub open spec fn post_operation(
    summary: Seq<char>,
    operation_id: Seq<char>,
    schema: Document,
) -> Document {
    json::single(
        "post"@,
        Document::Object(
            seq![
                ("operationId"@, Document::Text(operation_id)),
                ("summary"@, Document::Text(summary)),
                (
                    "requestBody"@,
                    pair("required"@, Document::Bool(true), "content"@, content(schema)),
                ),
                (
                    "responses"@,
                    pair(
                        "200"@,
                        described("Success"@, result_schema()),
                        "500"@,
                        described(
                            "Application error (mirrors the MCP tool's error text)"@,
                            error_schema(),
                        ),
                    ),
                ),
            ],
        ),
    )
}

/// The operation that reports readiness.
pub open spec fn status_operation() -> Document {
    json::single(
        "get"@,
        Document::Object(
            seq![
                ("operationId"@, Document::Text("service_status"@)),
                ("summary"@, Document::Text("Report readiness and optional-tooling diagnostics"@)),
                ("responses"@, json::single("200"@, described("Success"@, result_schema()))),
            ],
        ),
    )
}

/// The operations, by their paths.
pub open spec fn operations(schemas: SchemasView) -> Document {
    Document::Object(
        seq![
            ("/v1/index_workspace"@, post_operation("Index a workspace"@, "index_workspace"@, schemas.workspace)),
            ("/v1/index_status"@, post_operation("Read persistent index status"@, "index_status"@, schemas.workspace)),
            ("/v1/list_indexed_files"@, post_operation("List every indexed file"@, "list_indexed_files"@, schemas.workspace)),
            ("/v1/watch_workspace"@, post_operation("Start watching a workspace for changes"@, "watch_workspace"@, schemas.workspace)),
            ("/v1/unwatch_workspace"@, post_operation("Stop watching a workspace"@, "unwatch_workspace"@, schemas.workspace)),
            ("/v1/search_symbols"@, post_operation("Search workspace symbols via language servers"@, "search_symbols"@, schemas.symbol)),
            ("/v1/find_definition"@, post_operation("Resolve a definition at a source position"@, "find_definition"@, schemas.position)),
            ("/v1/find_references"@, post_operation("Find references at a source position"@, "find_references"@, schemas.references)),
            ("/v1/search_code"@, post_operation("Hybrid semantic/lexical/LSP code search"@, "search_code"@, schemas.search)),
            ("/v1/service_status"@, status_operation()),
        ],
    )
}

/// The description of the interface.
pub open spec fn interface(schemas: SchemasView, version: Seq<char>) -> Document {
    Document::Object(
        seq![
            ("openapi"@, Document::Text("3.0.3"@)),
            (
                "info"@,
                Document::Object(
                    seq![
                        ("title"@, Document::Text("local-code-intelligence"@)),
                        ("version"@, Document::Text(version)),
                        (
                            "description"@,
                            Document::Text(
                                "Plain JSON-over-HTTP mirror of LCI's MCP tools, for clients that don't speak MCP. Every endpoint below wraps exactly the same application logic as the matching MCP tool of the same name -- see README.md for full semantics; this document only describes the wire shape."@,
                            ),
                        ),
                    ],
                ),
            ),
            (
                "servers"@,
                Document::List(
                    seq![json::single("url"@, Document::Text("http://127.0.0.1:8768"@))],
                ),
            ),
            ("paths"@, operations(schemas)),
        ],
    )
}

fn pair_of(a: &str, x: Json, b: &str, y: Json) -> (r: Json)
    ensures
        json::document(r) == pair(a@, json::document(x), b@, json::document(y)),
{
    let r = json::with(json::object(a, x), b, y);
    proof {
        assert(json::document(r)->Object_0 =~= pair(
            a@,
            json::document(x),
            b@,
            json::document(y),
        )->Object_0);
    }
    r
}

fn result_schema_of() -> (r: Json)
    ensures
        json::document(r) == result_schema(),
{
    pair_of(
        "type",
        Json::text("object"),
        "description",
        Json::text(
            "Identical JSON to the matching MCP tool's structured result; see README.md's \"MCP tools\" table for the exact shape.",
        ),
    )
}

fn error_schema_of() -> (r: Json)
    ensures
        json::document(r) == error_schema(),
{
    let properties = json::object("error", json::object("type", Json::text("string")));
    let head = json::with(json::object("type", Json::text("object")), "properties", properties);
    let r = json::with(head, "required", json::list_of(Json::text("error")));
    assert(json::document(r)->Object_0 =~= error_schema()->Object_0);
    r
}

fn content_of(schema: Json) -> (r: Json)
    ensures
        json::document(r) == content(json::document(schema)),
{
    json::object("application/json", json::object("schema", schema))
}

fn described_of(description: &str, schema: Json) -> (r: Json)
    ensures
        json::document(r) == described(description@, json::document(schema)),
{
    pair_of("description", Json::text(description), "content", content_of(schema))
}

fn post(summary: &str, operation_id: &str, schema: Json) -> (r: Json)
    ensures
        json::document(r) == post_operation(summary@, operation_id@, json::document(schema)),
{
    let head = json::with(
        json::object("operationId", Json::text(operation_id)),
        "summary",
        Json::text(summary),
    );
    let body = pair_of("required", Json::Bool(true), "content", content_of(schema));
    let with_body = json::with(head, "requestBody", body);
    let responses = pair_of(
        "200",
        described_of("Success", result_schema_of()),
        "500",
        described_of(
            "Application error (mirrors the MCP tool's error text)",
            error_schema_of(),
        ),
    );
    let operation = json::with(with_body, "responses", responses);
    proof {
        let says = post_operation(
            summary@,
            operation_id@,
            json::document(schema),
        )->Object_0[0].1;
        assert(json::document(operation)->Object_0 =~= says->Object_0);
    }
    json::object("post", operation)
}

fn status() -> (r: Json)
    ensures
        json::document(r) == status_operation(),
{
    let head = json::with(
        json::object("operationId", Json::text("service_status")),
        "summary",
        Json::text("Report readiness and optional-tooling diagnostics"),
    );
    let responses = json::object("200", described_of("Success", result_schema_of()));
    let operation = json::with(head, "responses", responses);
    assert(json::document(operation)->Object_0 =~= status_operation()->Object_0[0].1->Object_0);
    json::object("get", operation)
}

fn all_operations(schemas: &Schemas) -> (r: Json)
    ensures
        json::document(r) == operations(schemas@),
{
    let paths = json::object("/v1/index_workspace", post(
        "Index a workspace",
        "index_workspace",
        schemas.workspace.clone(),
    ));
    let paths = json::with(paths, "/v1/index_status", post(
        "Read persistent index status",
        "index_status",
        schemas.workspace.clone(),
    ));
    let paths = json::with(paths, "/v1/list_indexed_files", post(
        "List every indexed file",
        "list_indexed_files",
        schemas.workspace.clone(),
    ));
    let paths = json::with(paths, "/v1/watch_workspace", post(
        "Start watching a workspace for changes",
        "watch_workspace",
        schemas.workspace.clone(),
    ));
    let paths = json::with(paths, "/v1/unwatch_workspace", post(
        "Stop watching a workspace",
        "unwatch_workspace",
        schemas.workspace.clone(),
    ));
    let paths = json::with(paths, "/v1/search_symbols", post(
        "Search workspace symbols via language servers",
        "search_symbols",
        schemas.symbol.clone(),
    ));
    let paths = json::with(paths, "/v1/find_definition", post(
        "Resolve a definition at a source position",
        "find_definition",
        schemas.position.clone(),
    ));
    let paths = json::with(paths, "/v1/find_references", post(
        "Find references at a source position",
        "find_references",
        schemas.references.clone(),
    ));
    let paths = json::with(paths, "/v1/search_code", post(
        "Hybrid semantic/lexical/LSP code search",
        "search_code",
        schemas.search.clone(),
    ));
    let r = json::with(paths, "/v1/service_status", status());
    assert(json::document(r)->Object_0 =~= operations(schemas@)->Object_0);
    r
}

/// The description of the HTTP interface, given the schemas of the arguments and the
/// version of the service.
pub fn openapi_document(schemas: &Schemas, version: &str) -> (r: Json)
    ensures
        json::document(r) == interface(schemas@, version@),
{
    let named = json::with(
        json::object("title", Json::text("local-code-intelligence")),
        "version",
        Json::text(version),
    );
    let info = json::with(
        named,
        "description",
        Json::text(
            "Plain JSON-over-HTTP mirror of LCI's MCP tools, for clients that don't speak MCP. Every endpoint below wraps exactly the same application logic as the matching MCP tool of the same name -- see README.md for full semantics; this document only describes the wire shape.",
        ),
    );
    let ghost info_says = json::document(info);
    let servers = json::list_of(json::object("url", Json::text("http://127.0.0.1:8768")));
    let first = json::with(json::object("openapi", Json::text("3.0.3")), "info", info);
    let second = json::with(first, "servers", servers);
    let r = json::with(second, "paths", all_operations(schemas));
    proof {
        let says = interface(schemas@, version@)->Object_0;
        assert(info_says->Object_0 =~= says[1].1->Object_0);
        assert(json::document(r)->Object_0 =~= says);
    }
    r
}

// ---------------------------------------------------------------------------
// Laws
// ---------------------------------------------------------------------------

/// The schema of the arguments that an operation takes.
pub open spec fn argument_schema(operation: Document) -> Document {
    operation.field("post"@).field("requestBody"@).field("content"@).field(
        "application/json"@,
    ).field("schema"@)
}

/// An operation with arguments requires them, in JSON and with their schema. It answers with
/// a result, or with an error that has a text.
pub proof fn law_operations_require_their_arguments(
    summary: Seq<char>,
    operation_id: Seq<char>,
    schema: Document,
)
    ensures
        ({
            let operation = post_operation(summary, operation_id, schema);
            let told = operation.field("post"@);
            &&& argument_schema(operation) == schema
            &&& told.field("operationId"@) == Document::Text(operation_id)
            &&& told.field("summary"@) == Document::Text(summary)
            &&& told.field("requestBody"@).field("required"@) == Document::Bool(true)
            &&& told.field("responses"@).field("200"@) is Object
            &&& told.field("responses"@).field("500"@).field("content"@).field(
                "application/json"@,
            ).field("schema"@).field("required"@) == Document::List(
                seq![Document::Text("error"@)],
            )
        }),
{
    reveal_strlit("operationId");
    reveal_strlit("summary");
    reveal_strlit("requestBody");
    reveal_strlit("responses");
    reveal_strlit("required");
    reveal_strlit("content");
    reveal_strlit("description");
    reveal_strlit("200");
    reveal_strlit("500");
    reveal_strlit("type");
    reveal_strlit("properties");
    reveal_with_fuel(json::place, 5);
    let outer = post_operation(summary, operation_id, schema)->Object_0;
    assert(json::place(outer, "post"@, 0) == 0);
    let told = outer[0].1->Object_0;
    assert("operationId"@[0] == 'o' && "summary"@[0] == 's' && "requestBody"@[2] == 'q'
        && "responses"@[2] == 's');
    assert(json::place(told, "operationId"@, 0) == 0);
    assert(json::place(told, "summary"@, 0) == 1);
    assert(json::place(told, "requestBody"@, 0) == 2);
    assert(json::place(told, "responses"@, 0) == 3);
    let body = told[2].1->Object_0;
    assert("required"@.len() == 8 && "content"@.len() == 7 && "description"@.len() == 11);
    assert(json::place(body, "required"@, 0) == 0);
    assert(json::place(body, "content"@, 0) == 1);
    let answers = told[3].1->Object_0;
    assert("200"@[0] == '2' && "500"@[0] == '5');
    assert(json::place(answers, "200"@, 0) == 0);
    assert(json::place(answers, "500"@, 0) == 1);
    let failed = answers[1].1->Object_0;
    assert(json::place(failed, "content"@, 0) == 1);
    let media = failed[1].1->Object_0;
    assert(json::place(media, "application/json"@, 0) == 0);
    assert(json::place(media[0].1->Object_0, "schema"@, 0) == 0);
    let error = error_schema()->Object_0;
    assert("type"@.len() == 4 && "properties"@.len() == 10);
    assert(json::place(error, "required"@, 0) == 2);
    let input = body[1].1->Object_0;
    assert(json::place(input, "application/json"@, 0) == 0);
    assert(json::place(input[0].1->Object_0, "schema"@, 0) == 0);
}

/// Every operation with arguments stands under its own name and takes the arguments of the
/// tool with that name.
pub proof fn law_operations_stand_under_their_names(schemas: SchemasView, k: int)
    requires
        0 <= k < 9,
    ensures
        ({
            let list = operations(schemas)->Object_0;
            &&& list.len() == 10
            &&& list[k].1.field("post"@).field("operationId"@) is Text
            &&& list[k].0 == "/v1/"@ + list[k].1.field("post"@).field("operationId"@)->Text_0
            &&& argument_schema(list[0].1) == schemas.workspace
            &&& argument_schema(list[1].1) == schemas.workspace
            &&& argument_schema(list[2].1) == schemas.workspace
            &&& argument_schema(list[3].1) == schemas.workspace
            &&& argument_schema(list[4].1) == schemas.workspace
            &&& argument_schema(list[5].1) == schemas.symbol
            &&& argument_schema(list[6].1) == schemas.position
            &&& argument_schema(list[7].1) == schemas.references
            &&& argument_schema(list[8].1) == schemas.search
        }),
{
    let list = operations(schemas)->Object_0;
    law_operations_require_their_arguments(
        "Index a workspace"@,
        "index_workspace"@,
        schemas.workspace,
    );
    law_operations_require_their_arguments(
        "Read persistent index status"@,
        "index_status"@,
        schemas.workspace,
    );
    law_operations_require_their_arguments(
        "List every indexed file"@,
        "list_indexed_files"@,
        schemas.workspace,
    );
    law_operations_require_their_arguments(
        "Start watching a workspace for changes"@,
        "watch_workspace"@,
        schemas.workspace,
    );
    law_operations_require_their_arguments(
        "Stop watching a workspace"@,
        "unwatch_workspace"@,
        schemas.workspace,
    );
    law_operations_require_their_arguments(
        "Search workspace symbols via language servers"@,
        "search_symbols"@,
        schemas.symbol,
    );
    law_operations_require_their_arguments(
        "Resolve a definition at a source position"@,
        "find_definition"@,
        schemas.position,
    );
    law_operations_require_their_arguments(
        "Find references at a source position"@,
        "find_references"@,
        schemas.references,
    );
    law_operations_require_their_arguments(
        "Hybrid semantic/lexical/LSP code search"@,
        "search_code"@,
        schemas.search,
    );
    assert("/v1/index_workspace"@ =~= "/v1/"@ + "index_workspace"@) by {
        reveal_strlit("/v1/");
        reveal_strlit("/v1/index_workspace");
        reveal_strlit("index_workspace");
    }
    assert("/v1/index_status"@ =~= "/v1/"@ + "index_status"@) by {
        reveal_strlit("/v1/");
        reveal_strlit("/v1/index_status");
        reveal_strlit("index_status");
    }
    assert("/v1/list_indexed_files"@ =~= "/v1/"@ + "list_indexed_files"@) by {
        reveal_strlit("/v1/");
        reveal_strlit("/v1/list_indexed_files");
        reveal_strlit("list_indexed_files");
    }
    assert("/v1/watch_workspace"@ =~= "/v1/"@ + "watch_workspace"@) by {
        reveal_strlit("/v1/");
        reveal_strlit("/v1/watch_workspace");
        reveal_strlit("watch_workspace");
    }
    assert("/v1/unwatch_workspace"@ =~= "/v1/"@ + "unwatch_workspace"@) by {
        reveal_strlit("/v1/");
        reveal_strlit("/v1/unwatch_workspace");
        reveal_strlit("unwatch_workspace");
    }
    assert("/v1/search_symbols"@ =~= "/v1/"@ + "search_symbols"@) by {
        reveal_strlit("/v1/");
        reveal_strlit("/v1/search_symbols");
        reveal_strlit("search_symbols");
    }
    assert("/v1/find_definition"@ =~= "/v1/"@ + "find_definition"@) by {
        reveal_strlit("/v1/");
        reveal_strlit("/v1/find_definition");
        reveal_strlit("find_definition");
    }
    assert("/v1/find_references"@ =~= "/v1/"@ + "find_references"@) by {
        reveal_strlit("/v1/");
        reveal_strlit("/v1/find_references");
        reveal_strlit("find_references");
    }
    assert("/v1/search_code"@ =~= "/v1/"@ + "search_code"@) by {
        reveal_strlit("/v1/");
        reveal_strlit("/v1/search_code");
        reveal_strlit("search_code");
    }
}

} // verus!

//! Sessions with language servers: the requests that are sent in them, and how a failed
//! one is tried again.

use crate::json::{self, Document, Json};
use crate::lsp::{adapter, locations};
use crate::{paths, text};
use vstd::prelude::*;

verus! {

/// The parameters of a `workspace/symbol` request.
pub open spec fn symbol_query(query: Seq<char>) -> Document {
    Document::Object(
        seq![
            ("query"@, Document::Text(query)),
            ("searchScope"@, Document::Text("workspace"@)),
            ("searchKind"@, Document::Text("allSymbols"@)),
        ],
    )
}

/// The parameters of a `workspace/symbol` request.
pub fn symbol_params(query: &str) -> (r: Json)
    ensures
        json::document(r) == symbol_query(query@),
{
    let head = json::with(
        json::object("query", Json::text(query)),
        "searchScope",
        Json::text("workspace"),
    );
    let r = json::with(head, "searchKind", Json::text("allSymbols"));
    assert(json::document(r)->Object_0 =~= symbol_query(query@)->Object_0);
    r
}

/// The parameters of a `textDocument/definition` request.
pub open spec fn place_query(uri: Seq<char>, line: u32, character: u32) -> Document {
    Document::Object(
        seq![
            ("textDocument"@, json::single("uri"@, Document::Text(uri))),
            (
                "position"@,
                Document::Object(
                    seq![
                        ("line"@, Document::Unsigned(line as u64)),
                        ("character"@, Document::Unsigned(character as u64)),
                    ],
                ),
            ),
        ],
    )
}

/// The parameters of a `textDocument/definition` request in a document with a given
/// address. Line and character are zero-based.
pub fn definition_params(uri: &str, line: u32, character: u32) -> (r: Json)
    ensures
        json::document(r) == place_query(uri@, line, character),
{
    let place = json::with(
        json::object("line", Json::Unsigned(line as u64)),
        "character",
        Json::Unsigned(character as u64),
    );
    let ghost place_says = json::document(place);
    let r = json::with(
        json::object("textDocument", json::object("uri", Json::text(uri))),
        "position",
        place,
    );
    proof {
        let says = place_query(uri@, line, character)->Object_0;
        assert(place_says->Object_0 =~= says[1].1->Object_0);
        assert(json::document(r)->Object_0 =~= says);
    }
    r
}

/// The parameters of a `textDocument/references` request.
pub open spec fn reference_query(
    uri: Seq<char>,
    line: u32,
    character: u32,
    include_declaration: bool,
) -> Document {
    json::extended(
        place_query(uri, line, character),
        "context"@,
        json::single("includeDeclaration"@, Document::Bool(include_declaration)),
    )
}

/// The parameters of a `textDocument/references` request in a document with a given
/// address. Line and character are zero-based.
pub fn reference_params(uri: &str, line: u32, character: u32, include_declaration: bool) -> (r:
    Json)
    ensures
        json::document(r) == reference_query(uri@, line, character, include_declaration),
{
    json::with(
        definition_params(uri, line, character),
        "context",
        json::object("includeDeclaration", Json::Bool(include_declaration)),
    )
}

/// The parameters of a `textDocument/definition` request in a file. Line and character are
/// zero-based. `None` where the platform has no address for the file.
pub fn definition_in(file: &str, line: u32, character: u32) -> (r: Option<Json>)
    ensures
        exists|answer: Option<Seq<char>>| #[trigger]
            locations::is_file_answer(file@, answer) && json::opt_document(r) == (match answer {
                Some(uri) => Some(place_query(uri, line, character)),
                None => None,
            }),
{
    let address = locations::address_of_file(file);
    assert(locations::is_file_answer(file@, paths::opt_view(address)));
    match address {
        Some(uri) => Some(definition_params(uri.as_str(), line, character)),
        None => None,
    }
}

/// The parameters of a `textDocument/references` request in a file. Line and character are
/// zero-based. `None` where the platform has no address for the file.
pub fn references_in(file: &str, line: u32, character: u32, include_declaration: bool) -> (r:
    Option<Json>)
    ensures
        exists|answer: Option<Seq<char>>| #[trigger]
            locations::is_file_answer(file@, answer) && json::opt_document(r) == (match answer {
                Some(uri) => Some(reference_query(uri, line, character, include_declaration)),
                None => None,
            }),
{
    let address = locations::address_of_file(file);
    assert(locations::is_file_answer(file@, paths::opt_view(address)));
    match address {
        Some(uri) => Some(reference_params(uri.as_str(), line, character, include_declaration)),
        None => None,
    }
}

/// The parameters of the `textDocument/didOpen` notification for a file. `None` where the
/// platform has no address for it.
pub fn opening_of(file: &str, language_id: &str, content: &str) -> (r: Option<Json>)
    ensures
        exists|answer: Option<Seq<char>>| #[trigger]
            locations::is_file_answer(file@, answer) && json::opt_document(r) == (match answer {
                Some(uri) => Some(adapter::opened_document(uri, language_id@, content@)),
                None => None,
            }),
{
    let address = locations::address_of_file(file);
    assert(locations::is_file_answer(file@, paths::opt_view(address)));
    match address {
        Some(uri) => Some(adapter::open_document(uri.as_str(), language_id, content)),
        None => None,
    }
}

// ---------------------------------------------------------------------------
// Trying again
// ---------------------------------------------------------------------------

/// Where a request in a session stands. A request that is about a place in a document has
/// a preparation: the document is opened in front of it.
#[derive(Debug)]
pub enum Attempt {
    /// A session is needed, an earlier one or a new one.
    Connect,
    /// The request is sent, with its preparation.
    Send,
    /// The session was discarded: a new one is needed.
    Reconnect { first: String },
    /// The request is sent once more, with its preparation.
    SendAgain,
    Done,
    Failed { message: String },
}

/// What an [`Attempt`] says.
pub enum AttemptView {
    Connect,
    Send,
    Reconnect { first: Seq<char> },
    SendAgain,
    Done,
    Failed { message: Seq<char> },
}

impl View for Attempt {
    type V = AttemptView;

    open spec fn view(&self) -> AttemptView {
        match self {
            Attempt::Connect => AttemptView::Connect,
            Attempt::Send => AttemptView::Send,
            Attempt::Reconnect { first } => AttemptView::Reconnect { first: first@ },
            Attempt::SendAgain => AttemptView::SendAgain,
            Attempt::Done => AttemptView::Done,
            Attempt::Failed { message } => AttemptView::Failed { message: message@ },
        }
    }
}

/// The text of a failed restart.
pub open spec fn restart_failure(provider: Seq<char>, first: Seq<char>, error: Seq<char>) -> Seq<
    char,
> {
    provider + " restart after: "@ + first + ": "@ + error
}

/// The state behind the outcome of what a state asks for: `None` where it succeeded, or
/// the text of its error. A request that needs no preparation fails where there is no
/// session for it; one that has a preparation is tried again.
pub open spec fn next_attempt(
    state: AttemptView,
    provider: Seq<char>,
    prepared: bool,
    error: Option<Seq<char>>,
) -> AttemptView {
    match (state, error) {
        (AttemptView::Connect, None) => AttemptView::Send,
        (AttemptView::Connect, Some(error)) => if prepared {
            AttemptView::Reconnect { first: error }
        } else {
            AttemptView::Failed { message: error }
        },
        (AttemptView::Send, None) => AttemptView::Done,
        (AttemptView::Send, Some(error)) => AttemptView::Reconnect { first: error },
        (AttemptView::Reconnect { .. }, None) => AttemptView::SendAgain,
        (AttemptView::Reconnect { first }, Some(error)) => AttemptView::Failed {
            message: restart_failure(provider, first, error),
        },
        (AttemptView::SendAgain, None) => AttemptView::Done,
        (AttemptView::SendAgain, Some(error)) => AttemptView::Failed { message: error },
        (AttemptView::Done, _) => AttemptView::Done,
        (AttemptView::Failed { message }, _) => AttemptView::Failed { message },
    }
}

/// Take the outcome of what a state asks for.
pub fn advance_attempt(state: Attempt, provider: &str, prepared: bool, error: Option<String>) -> (r:
    Attempt)
    ensures
        r@ == next_attempt(state@, provider@, prepared, paths::opt_view(error)),
{
    match (state, error) {
        (Attempt::Connect, None) => Attempt::Send,
        (Attempt::Connect, Some(error)) => if prepared {
            Attempt::Reconnect { first: error }
        } else {
            Attempt::Failed { message: error }
        },
        (Attempt::Send, None) => Attempt::Done,
        (Attempt::Send, Some(error)) => Attempt::Reconnect { first: error },
        (Attempt::Reconnect { .. }, None) => Attempt::SendAgain,
        (Attempt::Reconnect { first }, Some(error)) => {
            let head = text::concat3(provider, " restart after: ", first.as_str());
            let message = text::concat3(head.as_str(), ": ", error.as_str());
            assert(message@ =~= restart_failure(provider@, first@, error@));
            Attempt::Failed { message }
        },
        (Attempt::SendAgain, None) => Attempt::Done,
        (Attempt::SendAgain, Some(error)) => Attempt::Failed { message: error },
        (Attempt::Done, _) => Attempt::Done,
        (Attempt::Failed { message }, _) => Attempt::Failed { message },
    }
}

/// How often the request can still be sent.
pub open spec fn sends_left(state: AttemptView) -> nat {
    match state {
        AttemptView::Connect | AttemptView::Send => 2,
        AttemptView::Reconnect { .. } | AttemptView::SendAgain => 1,
        AttemptView::Done | AttemptView::Failed { .. } => 0,
    }
}

/// How many outcomes a state is away from its end, at most.
pub open spec fn steps_left(state: AttemptView) -> nat {
    match state {
        AttemptView::Connect => 4,
        AttemptView::Send => 3,
        AttemptView::Reconnect { .. } => 2,
        AttemptView::SendAgain => 1,
        AttemptView::Done | AttemptView::Failed { .. } => 0,
    }
}

/// A request is sent at most twice, the second time in a new session, and every outcome
/// brings it nearer to its end: it is never tried again without end.
pub proof fn law_requests_are_tried_at_most_twice(
    state: AttemptView,
    provider: Seq<char>,
    prepared: bool,
    error: Option<Seq<char>>,
)
    ensures
        sends_left(next_attempt(state, provider, prepared, error)) <= sends_left(state),
        (state is Send || state is SendAgain) ==> sends_left(
            next_attempt(state, provider, prepared, error),
        ) < sends_left(state),
        steps_left(state) > 0 ==> steps_left(next_attempt(state, provider, prepared, error))
            < steps_left(state),
        next_attempt(state, provider, prepared, error) is SendAgain ==> state is Reconnect,
{
}

/// A request is done only where it was sent and answered. It fails where a session cannot be
/// made anew, where it failed a second time, and, unless it has a preparation, where there is
/// no session for it; a request that failed once is tried again.
pub proof fn law_a_failed_request_is_tried_again(
    state: AttemptView,
    provider: Seq<char>,
    prepared: bool,
    error: Option<Seq<char>>,
)
    requires
        !(state is Done) && !(state is Failed),
    ensures
        ({
            let next = next_attempt(state, provider, prepared, error);
            &&& next is Done <==> (state is Send || state is SendAgain) && error is None
            &&& next is Failed <==> error is Some && (state is SendAgain || state is Reconnect
                || state is Connect && !prepared)
            &&& state is Send && error is Some ==> next == (AttemptView::Reconnect {
                first: error->0,
            })
            &&& state is Connect && error is Some && prepared ==> next == (AttemptView::Reconnect {
                first: error->0,
            })
            &&& state is Connect && error is None ==> next is Send
            &&& state is Reconnect && error is None ==> next is SendAgain
            &&& state is SendAgain && error is Some ==> next == (AttemptView::Failed {
                message: error->0,
            })
        }),
{
}

/// A request for a place names the document, the line and the character; one for references
/// says besides whether the declaration is wanted.
pub proof fn law_requests_name_their_place(
    uri: Seq<char>,
    line: u32,
    character: u32,
    include_declaration: bool,
)
    ensures
        ({
            let place = place_query(uri, line, character);
            let wide = reference_query(uri, line, character, include_declaration);
            &&& place.field("textDocument"@).field("uri"@) == Document::Text(uri)
            &&& place.field("position"@).field("line"@) == Document::Unsigned(line as u64)
            &&& place.field("position"@).field("character"@) == Document::Unsigned(character as u64)
            &&& wide.field("textDocument"@) == place.field("textDocument"@)
            &&& wide.field("position"@) == place.field("position"@)
            &&& wide.field("context"@).field("includeDeclaration"@) == Document::Bool(
                include_declaration,
            )
        }),
{
    reveal_strlit("textDocument");
    reveal_strlit("position");
    reveal_strlit("context");
    reveal_strlit("uri");
    reveal_strlit("line");
    reveal_strlit("character");
    reveal_strlit("includeDeclaration");
    reveal_with_fuel(json::place, 4);
    let list = place_query(uri, line, character)->Object_0;
    let wide = reference_query(uri, line, character, include_declaration)->Object_0;
    assert("textDocument"@.len() == 12 && "position"@.len() == 8 && "context"@.len() == 7);
    assert(json::place(list, "textDocument"@, 0) == 0);
    assert(json::place(list, "position"@, 0) == 1);
    assert(json::place(wide, "textDocument"@, 0) == 0);
    assert(json::place(wide, "position"@, 0) == 1);
    assert(json::place(wide, "context"@, 0) == 2);
    let at = list[1].1->Object_0;
    assert("line"@.len() != "character"@.len());
    assert(json::place(at, "line"@, 0) == 0);
    assert(json::place(at, "character"@, 0) == 1);
    assert(json::place(list[0].1->Object_0, "uri"@, 0) == 0);
    assert(json::place(wide[2].1->Object_0, "includeDeclaration"@, 0) == 0);
}

/// A request for symbols asks for its query.
pub proof fn law_symbol_requests_ask_for_their_query(query: Seq<char>)
    ensures
        symbol_query(query).field("query"@) == Document::Text(query),
{
    reveal_strlit("query");
    reveal_with_fuel(json::place, 2);
    assert(json::place(symbol_query(query)->Object_0, "query"@, 0) == 0);
}

} // verus!

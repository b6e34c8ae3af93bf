//! JSON-RPC over the standard input and output of a language server.

use crate::json::{self, Document, Json};
use crate::text;
use vstd::prelude::*;

verus! {

/// How to start a JSON-RPC process.
#[derive(Debug)]
pub struct TransportConfig {
    pub executable: String,
    pub args: Vec<String>,
    pub working_dir: String,
    pub timeout_seconds: u64,
    /// The name of the process in error messages.
    pub label: String,
}

/// What a [`TransportConfig`] says.
pub struct TransportView {
    pub executable: Seq<char>,
    pub args: Seq<Seq<char>>,
    pub working_dir: Seq<char>,
    pub timeout_seconds: u64,
    pub label: Seq<char>,
}

impl View for TransportConfig {
    type V = TransportView;

    open spec fn view(&self) -> TransportView {
        TransportView {
            executable: self.executable@,
            args: text::views(self.args@),
            working_dir: self.working_dir@,
            timeout_seconds: self.timeout_seconds,
            label: self.label@,
        }
    }
}

// ---------------------------------------------------------------------------
// Frames
// ---------------------------------------------------------------------------

/// The first line of a frame.
pub open spec fn length_line(length: nat) -> Seq<char> {
    "Content-Length: "@ + text::decimal(length) + "\r\n"@
}

/// What stands in front of the body of a message.
pub open spec fn frame_header(length: nat) -> Seq<char> {
    length_line(length) + "\r\n"@
}

/// What stands in front of a body of `length` bytes.
pub fn header_for(length: usize) -> (r: String)
    ensures
        r@ == frame_header(length as nat),
{
    let number = text::decimal_text(length as u64);
    let line = text::concat3("Content-Length: ", number.as_str(), "\r\n");
    text::concat2(line.as_str(), "\r\n")
}

/// Where the reading of a header stands.
#[derive(Debug, Clone, Copy, PartialEq, Eq, Structural)]
pub enum HeaderStep {
    /// The header goes on. The length is known, if a line gave it.
    More(Option<usize>),
    /// The header is complete: a body of so many bytes follows.
    Body(usize),
    /// The length is no number.
    BadLength,
    /// The header ends without a length.
    MissingLength,
}

/// The step behind one line of a header, with its line break.
pub open spec fn header_step(known: Option<usize>, line: Seq<char>) -> HeaderStep {
    let lowered = text::ascii_lowered(line);
    if line == "\r\n"@ || line == "\n"@ {
        match known {
            Some(length) => HeaderStep::Body(length),
            None => HeaderStep::MissingLength,
        }
    } else if text::starts_with(lowered, "content-length:"@) {
        match text::number(
            text::trim(lowered.skip("content-length:"@.len() as int)),
            usize::MAX as nat,
        ) {
            Some(length) => HeaderStep::More(Some(length as usize)),
            None => HeaderStep::BadLength,
        }
    } else {
        HeaderStep::More(known)
    }
}

/// Read one line of a header, with its line break. Names of fields are matched without
/// regard to case, and fields other than the length are skipped.
pub fn read_header_line(known: Option<usize>, line: &str) -> (r: HeaderStep)
    ensures
        r == header_step(known, line@),
{
    if text::str_eq(line, "\r\n") || text::str_eq(line, "\n") {
        return match known {
            Some(length) => HeaderStep::Body(length),
            None => HeaderStep::MissingLength,
        };
    }
    let lowered = text::to_ascii_lower(line);
    if !text::has_prefix(lowered.as_str(), "content-length:") {
        return HeaderStep::More(known);
    }
    let chars = text::chars_of(lowered.as_str());
    let prefix = text::chars_of("content-length:");
    let value = text::string_of(&chars, prefix.len(), chars.len());
    assert(value@ =~= lowered@.skip("content-length:"@.len() as int));
    let value = text::trimmed(value.as_str());
    match text::parse_usize(value.as_str()) {
        Some(length) => HeaderStep::More(Some(length)),
        None => HeaderStep::BadLength,
    }
}

/// The header of a body is read back: its lines are the one that gives the length of the
/// body and the empty one, and they end with that length.
pub proof fn law_frames_are_read_back(length: usize, known: Option<usize>)
    ensures
        frame_header(length as nat) == length_line(length as nat) + "\r\n"@,
        header_step(known, length_line(length as nat)) == HeaderStep::More(Some(length)),
        header_step(Some(length), "\r\n"@) == HeaderStep::Body(length),
{
    let figures = text::decimal(length as nat);
    let line = length_line(length as nat);
    let lowered = text::ascii_lowered(line);
    text::lemma_decimal(length as nat);
    reveal_strlit("Content-Length: ");
    reveal_strlit("content-length:");
    reveal_strlit("\r\n");
    reveal_strlit("\n");
    assert(figures.len() > 0);
    assert(line[0] == 'C');
    let rest = lowered.skip(15);
    assert forall|i: int| 0 <= i < figures.len() implies rest[i + 1] == #[trigger] figures[i] by {
        assert(line[i + 16] == figures[i]);
        assert(text::is_digit(figures[i]));
    }
    assert(text::ascii_lowered("Content-Length: "@).take(15) =~= "content-length:"@);
    assert forall|i: int| 0 <= i < 15 implies lowered[i] == #[trigger] "content-length:"@[i] by {
        assert(line[i] == "Content-Length: "@[i]);
        assert(text::ascii_lowered("Content-Length: "@).take(15)[i] == "content-length:"@[i]);
    }
    assert(lowered.subrange(0, 15) =~= "content-length:"@);
    assert(text::starts_with(lowered, "content-length:"@));
    assert(rest =~= seq![' '] + figures + "\r\n"@);
    lemma_trimmed_figures(figures);
    text::law_decimal_is_read_back(length as nat, usize::MAX as nat);
}

proof fn lemma_trimmed_figures(figures: Seq<char>)
    requires
        text::all_digits(figures),
    ensures
        text::trim(seq![' '] + figures + "\r\n"@) == figures,
{
    reveal_strlit("\r\n");
    let whole = seq![' '] + figures + "\r\n"@;
    assert(text::is_digit(figures[0]));
    assert(text::is_digit(figures.last()));
    let behind = figures + "\r\n"@;
    assert(whole.drop_first() =~= behind);
    assert(behind[0] == figures[0]);
    assert(text::trim_start(behind) == behind);
    assert(text::trim_start(whole) == behind);
    let shorter = figures.push('\r');
    assert(behind.drop_last() =~= shorter);
    assert(behind.last() == '\n');
    assert(shorter.drop_last() =~= figures);
    assert(text::trim_end(figures) == figures);
    assert(text::trim_end(shorter) == figures);
    assert(text::trim_end(behind) == figures);
}

// ---------------------------------------------------------------------------
// Messages
// ---------------------------------------------------------------------------

/// A message that expects no response.
pub open spec fn notification(method: Seq<char>, params: Document) -> Document {
    Document::Object(
        seq![
            ("jsonrpc"@, Document::Text("2.0"@)),
            ("method"@, Document::Text(method)),
            ("params"@, params),
        ],
    )
}

/// A message that expects no response.
pub fn notification_message(method: &str, params: Json) -> (r: Json)
    ensures
        json::document(r) == notification(method@, json::document(params)),
{
    let head = json::with(json::object("jsonrpc", Json::text("2.0")), "method", Json::text(method));
    let r = json::with(head, "params", params);
    proof {
        assert(json::document(r)->Object_0 =~= notification(
            method@,
            json::document(params),
        )->Object_0);
    }
    r
}

/// A message that expects the response with the same number.
pub open spec fn request(id: u64, method: Seq<char>, params: Document) -> Document {
    Document::Object(
        seq![
            ("jsonrpc"@, Document::Text("2.0"@)),
            ("id"@, Document::Unsigned(id)),
            ("method"@, Document::Text(method)),
            ("params"@, params),
        ],
    )
}

/// A message that expects the response with the same number.
pub fn request_message(id: u64, method: &str, params: Json) -> (r: Json)
    ensures
        json::document(r) == request(id, method@, json::document(params)),
{
    let numbered = json::with(
        json::object("jsonrpc", Json::text("2.0")),
        "id",
        Json::Unsigned(id),
    );
    let head = json::with(numbered, "method", Json::text(method));
    let r = json::with(head, "params", params);
    proof {
        assert(json::document(r)->Object_0 =~= request(
            id,
            method@,
            json::document(params),
        )->Object_0);
    }
    r
}

/// The response to a request of the server.
pub open spec fn response(id: u64, result: Document) -> Document {
    Document::Object(
        seq![
            ("jsonrpc"@, Document::Text("2.0"@)),
            ("id"@, Document::Unsigned(id)),
            ("result"@, result),
        ],
    )
}

/// The response to a request of the server.
pub fn response_message(id: u64, result: Json) -> (r: Json)
    ensures
        json::document(r) == response(id, json::document(result)),
{
    let numbered = json::with(
        json::object("jsonrpc", Json::text("2.0")),
        "id",
        Json::Unsigned(id),
    );
    let r = json::with(numbered, "result", result);
    proof {
        assert(json::document(r)->Object_0 =~= response(id, json::document(result))->Object_0);
    }
    r
}

/// The notification by which a server says that it is ready.
#[derive(Debug, Clone, Copy, PartialEq, Eq, Structural)]
pub enum Readiness {
    /// The server has none: only the timeout of a request bounds the wait.
    Never,
    /// `experimental/serverStatus` with `quiescent`.
    Quiescent,
    /// `language/status` of the type `Started`.
    Started,
}

impl Readiness {
    /// A message says that the server is ready.
    pub open spec fn says_ready(self, message: Document) -> bool {
        match self {
            Readiness::Never => false,
            Readiness::Quiescent => {
                &&& message.field("method"@).as_text() == Some("experimental/serverStatus"@)
                &&& message.field("params"@).field("quiescent"@) == Document::Bool(true)
            },
            Readiness::Started => {
                &&& message.field("method"@).as_text() == Some("language/status"@)
                &&& message.field("params"@).field("type"@).as_text() == Some("Started"@)
            },
        }
    }

    /// Report whether a message says that the server is ready.
    pub fn matches(self, message: &Json) -> (r: bool)
        ensures
            r == self.says_ready(json::document(*message)),
    {
        let method = match message.text_of("method") {
            Some(method) => method,
            None => {
                return false;
            },
        };
        let params = match message.get("params") {
            Some(params) => params,
            None => {
                return false;
            },
        };
        match self {
            Readiness::Never => false,
            Readiness::Quiescent => text::str_eq(method, "experimental/serverStatus")
                && match params.get("quiescent") {
                Some(Json::Bool(flag)) => *flag,
                _ => false,
            },
            Readiness::Started => text::str_eq(method, "language/status") && match params.text_of(
                "type",
            ) {
                Some(kind) => text::str_eq(kind, "Started"),
                None => false,
            },
        }
    }
}

/// What a message from the server asks for.
#[derive(Debug)]
pub enum Incoming {
    /// A request of the server, with the response to send.
    Answer { id: u64, message: Json },
    /// A notification, and whether it says that the server is ready.
    Notification { ready: bool },
    /// The response to a request: its result.
    Result { id: u64, result: Json },
    /// The response to a request: its error.
    Error { id: u64, error: Json },
}

/// What an [`Incoming`] says.
pub enum IncomingView {
    Answer { id: u64, message: Document },
    Notification { ready: bool },
    Result { id: u64, result: Document },
    Error { id: u64, error: Document },
}

impl View for Incoming {
    type V = IncomingView;

    open spec fn view(&self) -> IncomingView {
        match self {
            Incoming::Answer { id, message } => IncomingView::Answer {
                id: *id,
                message: json::document(*message),
            },
            Incoming::Notification { ready } => IncomingView::Notification { ready: *ready },
            Incoming::Result { id, result } => IncomingView::Result {
                id: *id,
                result: json::document(*result),
            },
            Incoming::Error { id, error } => IncomingView::Error {
                id: *id,
                error: json::document(*error),
            },
        }
    }
}

/// The result that a request of the server is answered with: no configuration for each
/// item that it asks for, null for every other request.
pub open spec fn answer(method: Seq<char>, message: Document) -> Document {
    if method == "workspace/configuration"@ {
        match message.field("params"@).field("items"@) {
            Document::List(items) => json::repeated(Document::Null, items.len()),
            _ => json::repeated(Document::Null, 1),
        }
    } else {
        Document::Null
    }
}

/// What a message asks for. One with a number and a method is a request of the server;
/// one without a number is a notification; all others are responses.
pub open spec fn incoming(message: Document, readiness: Readiness) -> IncomingView {
    match message.field("id"@).as_u64() {
        None => IncomingView::Notification { ready: readiness.says_ready(message) },
        Some(id) => match message.field("method"@).as_text() {
            Some(method) => IncomingView::Answer {
                id,
                message: response(id, answer(method, message)),
            },
            None => match message.get("error"@) {
                Some(error) => IncomingView::Error { id, error },
                None => IncomingView::Result { id, result: message.field("result"@) },
            },
        },
    }
}

/// How many items a configuration request asks for.
fn configuration_items(message: &Json) -> (r: usize)
    ensures
        r == (match json::document(*message).field("params"@).field("items"@) {
            Document::List(items) => items.len(),
            _ => 1,
        }),
{
    match message.get("params") {
        Some(params) => match params.get("items") {
            Some(Json::List(items)) => {
                proof {
                    json::lemma_documents(items@);
                }
                items.len()
            },
            _ => 1,
        },
        None => 1,
    }
}

/// Read a message from the server.
pub fn read_message(message: &Json, readiness: Readiness) -> (r: Incoming)
    ensures
        r@ == incoming(json::document(*message), readiness),
{
    let id = match message.u64_of("id") {
        Some(id) => id,
        None => {
            return Incoming::Notification { ready: readiness.matches(message) };
        },
    };
    if let Some(method) = message.text_of("method") {
        let result = if text::str_eq(method, "workspace/configuration") {
            json::nulls(configuration_items(message))
        } else {
            Json::Null
        };
        return Incoming::Answer { id, message: response_message(id, result) };
    }
    if let Some(error) = message.get("error") {
        return Incoming::Error { id, error: error.clone() };
    }
    match message.get("result") {
        Some(result) => Incoming::Result { id, result: result.clone() },
        None => Incoming::Result { id, result: Json::Null },
    }
}

/// Every request of the server is answered, with its own number: none of its requests is
/// taken for a response.
pub proof fn law_requests_of_the_server_are_answered(
    id: u64,
    method: Seq<char>,
    params: Document,
    readiness: Readiness,
)
    ensures
        incoming(request(id, method, params), readiness) is Answer,
        incoming(request(id, method, params), readiness)->Answer_id == id,
        incoming(
            incoming(request(id, method, params), readiness)->Answer_message,
            readiness,
        ) is Result,
{
    let message = request(id, method, params);
    let list = message->Object_0;
    reveal_strlit("jsonrpc");
    reveal_strlit("id");
    reveal_strlit("method");
    reveal_strlit("params");
    reveal_strlit("result");
    reveal_strlit("error");
    reveal_with_fuel(json::place, 5);
    assert("jsonrpc"@.len() != "id"@.len());
    assert("jsonrpc"@.len() != "method"@.len());
    assert("id"@.len() != "method"@.len());
    assert("result"@[0] != "method"@[0]);
    assert("error"@.len() != "result"@.len());
    assert("error"@.len() != "jsonrpc"@.len());
    assert("error"@.len() != "id"@.len());
    assert(json::place(list, "id"@, 0) == 1);
    assert(json::place(list, "method"@, 0) == 2);
    let answer = response(id, answer(method, message));
    let parts = answer->Object_0;
    assert(json::place(parts, "id"@, 0) == 1);
    assert(json::place(parts, "method"@, 0) == 3);
    assert(json::place(parts, "error"@, 0) == 3);
}

// ---------------------------------------------------------------------------
// Waiting
// ---------------------------------------------------------------------------

/// When a request is given up: `timeout` after it started, or after the last message of
/// any kind from the server, whichever is later.
pub open spec fn deadline(started: nat, last_activity: nat, timeout: nat) -> nat {
    (if last_activity > started {
        last_activity
    } else {
        started
    }) + timeout
}

/// How long a request may still wait, in one unit of one clock; `None` where the server has
/// been silent for the whole timeout.
pub fn time_left(now: u64, started: u64, last_activity: u64, timeout: u64) -> (r: Option<u64>)
    requires
        deadline(started as nat, last_activity as nat, timeout as nat) <= u64::MAX,
    ensures
        r == (if now >= deadline(started as nat, last_activity as nat, timeout as nat) {
            None::<u64>
        } else {
            Some(
                (deadline(started as nat, last_activity as nat, timeout as nat) - now) as u64,
            )
        }),
{
    let from: u64 = if last_activity > started {
        last_activity
    } else {
        started
    };
    let end: u64 = from + timeout;
    if now >= end {
        None
    } else {
        Some(end - now)
    }
}

/// A server that keeps sending messages is never given up: as long as each comes before
/// the deadline that the one in front of it left, the deadline moves on with it.
pub proof fn law_activity_extends_the_deadline(
    started: nat,
    last_activity: nat,
    next_activity: nat,
    timeout: nat,
)
    requires
        last_activity <= next_activity,
    ensures
        deadline(started, last_activity, timeout) <= deadline(started, next_activity, timeout),
        next_activity + timeout <= deadline(started, next_activity, timeout),
{
}

/// A response is read back with its number and its result, whatever the client waits for, and
/// a message without a number is a notification.
pub proof fn law_responses_are_read_back(
    id: u64,
    result: Document,
    method: Seq<char>,
    params: Document,
    readiness: Readiness,
)
    ensures
        incoming(response(id, result), readiness) == (IncomingView::Result { id, result }),
        incoming(notification(method, params), readiness) == (IncomingView::Notification {
            ready: readiness.says_ready(notification(method, params)),
        }),
{
    reveal_strlit("jsonrpc");
    reveal_strlit("id");
    reveal_strlit("method");
    reveal_strlit("params");
    reveal_strlit("result");
    reveal_strlit("error");
    reveal_with_fuel(json::place, 5);
    assert("jsonrpc"@.len() != "id"@.len());
    assert("jsonrpc"@.len() != "method"@.len());
    assert("jsonrpc"@.len() != "result"@.len());
    assert("jsonrpc"@.len() != "error"@.len());
    assert("id"@.len() != "method"@.len());
    assert("id"@.len() != "params"@.len());
    assert("id"@.len() != "result"@.len());
    assert("id"@.len() != "error"@.len());
    assert("error"@.len() != "result"@.len());
    assert("result"@[0] != "method"@[0]);
    let parts = response(id, result)->Object_0;
    assert(json::place(parts, "id"@, 0) == 1);
    assert(json::place(parts, "method"@, 0) == 3);
    assert(json::place(parts, "error"@, 0) == 3);
    assert(json::place(parts, "result"@, 0) == 2);
    let told = notification(method, params)->Object_0;
    assert(json::place(told, "id"@, 0) == 3);
}

/// Every request of a server is answered under its own number: a request for configuration
/// with as many empty answers as it asks for, and any other with nothing.
pub proof fn law_answers_fit_the_request(message: Document, readiness: Readiness, id: u64)
    requires
        message.get("id"@) == Some(Document::Unsigned(id)),
    ensures
        message.get("method"@) matches Some(Document::Text(method)) ==> ({
            let asked = message.field("params"@).field("items"@);
            let result = if method != "workspace/configuration"@ {
                Document::Null
            } else if asked is List {
                Document::List(Seq::new(asked->List_0.len(), |i: int| Document::Null))
            } else {
                Document::List(seq![Document::Null])
            };
            incoming(message, readiness) == (IncomingView::Answer {
                id,
                message: response(id, result),
            })
        }),
        message.get("method"@) is None && message.get("error"@) is Some ==> incoming(
            message,
            readiness,
        ) == (IncomingView::Error { id, error: message.get("error"@)->0 }),
        message.get("method"@) is None && message.get("error"@) is None ==> incoming(
            message,
            readiness,
        ) == (IncomingView::Result { id, result: message.field("result"@) }),
{
    assert(Seq::new(1, |i: int| Document::Null) =~= seq![Document::Null]);
}

/// A request is given up no sooner than its timeout after it started and after the last
/// message, and no later than both.
pub proof fn law_the_deadline_is_the_later_one(started: nat, last_activity: nat, timeout: nat)
    ensures
        deadline(started, last_activity, timeout) >= started + timeout,
        deadline(started, last_activity, timeout) >= last_activity + timeout,
        deadline(started, last_activity, timeout) == started + timeout || deadline(
            started,
            last_activity,
            timeout,
        ) == last_activity + timeout,
{
}

/// Only the header field for the length counts, and its case does not matter: any other line
/// leaves what is known, and the empty line ends the header.
pub proof fn law_other_header_fields_change_nothing(known: Option<usize>, line: Seq<char>)
    ensures
        !text::starts_with(text::ascii_lowered(line), "content-length:"@) && line != "\r\n"@ && line
            != "\n"@ ==> header_step(known, line) == HeaderStep::More(known),
        header_step(known, "\n"@) == header_step(known, "\r\n"@),
        header_step(None, "\n"@) == HeaderStep::MissingLength,
{
}

/// A server is ready when it says so in the way that is expected of it: by a status that is
/// quiescent, or by one of the type `Started`. No other message counts, and of a server that
/// says nothing no message does.
pub proof fn law_servers_say_when_they_are_ready(
    message: Document,
    method: Seq<char>,
    kind: Seq<char>,
    quiescent: bool,
)
    requires
        message.field("method"@) == Document::Text(method),
        message.field("params"@).field("quiescent"@) == Document::Bool(quiescent),
        message.field("params"@).field("type"@) == Document::Text(kind),
    ensures
        !Readiness::Never.says_ready(message),
        Readiness::Quiescent.says_ready(message) <==> method == "experimental/serverStatus"@
            && quiescent,
        Readiness::Started.says_ready(message) <==> method == "language/status"@ && kind
            == "Started"@,
{
}

} // verus!

//! Readiness of every required and optional dependency.

use crate::json::{self, Document, Json};
use crate::lsp::adapter::AdapterInfo;
use crate::{paths, text};
use vstd::prelude::*;

verus! {

/// One dependency.
#[derive(Debug)]
pub struct ReadinessComponent {
    pub name: &'static str,
    pub ready: bool,
    pub required: bool,
    pub detail: Option<String>,
}

/// What a [`ReadinessComponent`] says.
pub struct ComponentView {
    pub name: Seq<char>,
    pub ready: bool,
    pub required: bool,
    pub detail: Option<Seq<char>>,
}

impl View for ReadinessComponent {
    type V = ComponentView;

    open spec fn view(&self) -> ComponentView {
        ComponentView {
            name: self.name@,
            ready: self.ready,
            required: self.required,
            detail: paths::opt_view(self.detail),
        }
    }
}

/// What a list of components says.
pub open spec fn component_views(list: Seq<ReadinessComponent>) -> Seq<ComponentView> {
    list.map_values(|component: ReadinessComponent| component@)
}

/// A dependency that is not ready.
#[derive(Debug)]
pub struct ReadinessDegraded {
    pub name: &'static str,
    pub reason: String,
}

/// What a list of degraded dependencies says: names and reasons.
pub open spec fn degraded_views(list: Seq<ReadinessDegraded>) -> Seq<(Seq<char>, Seq<char>)> {
    list.map_values(|item: ReadinessDegraded| (item.name@, item.reason@))
}

/// The readiness of the application.
#[derive(Debug)]
pub struct ServiceStatus {
    pub ready: bool,
    pub can_create_semantic_index: bool,
    pub components: Vec<ReadinessComponent>,
    pub degraded: Vec<ReadinessDegraded>,
}

// ---------------------------------------------------------------------------
// Listings of models
// ---------------------------------------------------------------------------

/// What a service says of its models. That it does not list them is neutral for an optional
/// service and a failure for a required one.
#[derive(Debug)]
pub enum ModelListing {
    Listed,
    NotExposed,
    Failed(String),
}

/// What a [`ModelListing`] says.
pub enum Listing {
    Listed,
    NotExposed,
    Failed(Seq<char>),
}

impl View for ModelListing {
    type V = Listing;

    open spec fn view(&self) -> Listing {
        match self {
            ModelListing::Listed => Listing::Listed,
            ModelListing::NotExposed => Listing::NotExposed,
            ModelListing::Failed(reason) => Listing::Failed(reason@),
        }
    }
}

/// A URL with another path, and without query and fragment, or the text of the error that
/// the URL is refused with.
pub uninterp spec fn url_with_path(url: Seq<char>, path: Seq<char>) -> Result<Seq<char>, Seq<char>>;

/// What an address or an error is.
pub open spec fn address_view(address: Result<String, String>) -> Result<Seq<char>, Seq<char>> {
    match address {
        Ok(address) => Ok(address@),
        Err(error) => Err(error@),
    }
}

/// The length from which a URL is not given another path.
pub const MAX_URL_LENGTH: usize = 0x100_0000;

/// Calls `reqwest::Url::parse`, and on the result `reqwest::Url::set_path` with the path,
/// and `reqwest::Url::set_query` and `reqwest::Url::set_fragment` with nothing. The address,
/// and the text of the error where the URL is none, are named, not stated. The offsets of a
/// URL have 32 bits, so long texts, which may grow by escapes, are left out.
#[verifier::external_body]
fn at_path(url: &str, path: &str) -> (r: Result<String, String>)
    requires
        url@.len() < MAX_URL_LENGTH,
        path@.len() < MAX_URL_LENGTH,
    ensures
        address_view(r) == url_with_path(url@, path@),
{
    match reqwest::Url::parse(url) {
        Ok(mut parsed) => {
            parsed.set_path(path);
            parsed.set_query(None);
            parsed.set_fragment(None);
            Ok(parsed.to_string())
        },
        Err(error) => Err(error.to_string()),
    }
}

/// Where a service lists its models.
pub const LISTING_PATH: &'static str = "/v1/models";

/// An address, or the failed listing of a URL that is refused with an error.
pub fn address_or_failure(address: Result<String, String>, label: &str) -> (r: Result<
    String,
    ModelListing,
>)
    ensures
        match (r, address) {
            (Ok(found), address) => address == Ok::<String, String>(found),
            (Err(listing), Err(error)) => listing@ == Listing::Failed(
                "invalid "@ + label@ + " URL: "@ + error@,
            ),
            (Err(_), Ok(_)) => false,
        },
{
    match address {
        Ok(address) => Ok(address),
        Err(error) => {
            let head = text::concat3("invalid ", label, " URL: ");
            Err(ModelListing::Failed(text::concat2(head.as_str(), error.as_str())))
        },
    }
}

/// The address at which a service lists its models; a failed listing where its URL is none.
pub fn listing_address(url: &str, label: &str) -> (r: Result<String, ModelListing>)
    requires
        url@.len() < MAX_URL_LENGTH,
    ensures
        match (r, url_with_path(url@, LISTING_PATH@)) {
            (Ok(found), Ok(address)) => found@ == address,
            (Err(listing), Err(error)) => listing@ == Listing::Failed(
                "invalid "@ + label@ + " URL: "@ + error,
            ),
            _ => false,
        },
{
    proof {
        reveal_strlit("/v1/models");
    }
    address_or_failure(at_path(url, LISTING_PATH), label)
}

/// The class of a failed request. Its own text may hold the address, with credentials in
/// it, and is never shown.
pub open spec fn error_class(is_timeout: bool, is_connect: bool) -> Seq<char> {
    if is_timeout {
        "timeout"@
    } else if is_connect {
        "connection failure"@
    } else {
        "request failure"@
    }
}

/// The text of a failed request to a dependency.
pub open spec fn connect_failure(label: Seq<char>, is_timeout: bool, is_connect: bool) -> Seq<
    char,
> {
    "connect to "@ + label + ": "@ + error_class(is_timeout, is_connect)
}

/// The text of a failed request to a dependency: its label and the class of the failure.
pub fn connect_failure_text(label: &str, is_timeout: bool, is_connect: bool) -> (r: String)
    ensures
        r@ == connect_failure(label@, is_timeout, is_connect),
{
    let class = if is_timeout {
        "timeout"
    } else if is_connect {
        "connection failure"
    } else {
        "request failure"
    };
    let head = text::concat3("connect to ", label, ": ");
    text::concat2(head.as_str(), class)
}

/// What came back from the address of a listing.
#[derive(Debug)]
pub enum ListingReply {
    /// The request failed.
    Unreachable { is_timeout: bool, is_connect: bool },
    /// A response, with its status, the text of the status, and the body or the text of the
    /// error that it is refused with.
    Response { status: u16, status_text: String, body: Result<Json, String> },
}

/// A list of models holds a model by its identifier.
pub open spec fn lists_model(body: Document, model: Seq<char>) -> bool {
    match body.field("data"@) {
        Document::List(list) => exists|i: int|
            0 <= i < list.len() && (#[trigger] list[i]).field("id"@).as_text() == Some(model),
        _ => false,
    }
}

/// What a reply says of a model.
pub open spec fn listing_of(reply: ListingReply, model: Seq<char>, label: Seq<char>) -> Listing {
    match reply {
        ListingReply::Unreachable { is_timeout, is_connect } => Listing::Failed(
            connect_failure(label, is_timeout, is_connect),
        ),
        ListingReply::Response { status, status_text, body } => if status == 404 || status == 405 {
            Listing::NotExposed
        } else if !(200 <= status < 300) {
            Listing::Failed(label + " HTTP error: "@ + status_text@)
        } else {
            match body {
                Err(error) => Listing::Failed("invalid "@ + label + " response: "@ + error@),
                Ok(body) => if lists_model(json::document(body), model) {
                    Listing::Listed
                } else {
                    Listing::Failed(
                        "configured model "@ + model + " not present in "@ + label,
                    )
                },
            }
        },
    }
}

fn has_model(body: &Json, model: &str) -> (r: bool)
    ensures
        r == lists_model(json::document(*body), model@),
{
    let list = match body.get("data") {
        Some(Json::List(list)) => list,
        _ => {
            return false;
        },
    };
    let ghost all = json::documents(list@);
    proof {
        json::lemma_documents(list@);
    }
    let mut i: usize = 0;
    while i < list.len()
        invariant
            i <= list@.len(),
            all == json::documents(list@),
            all.len() == list@.len(),
            json::document(*body).field("data"@) == Document::List(all),
            forall|k: int|
                0 <= k < i ==> (#[trigger] all[k]).field("id"@).as_text() != Some(model@),
        decreases list@.len() - i,
    {
        proof {
            json::lemma_documents(list@);
            assert(all[i as int] == json::document(list@[i as int]));
        }
        if let Some(id) = list[i].text_of("id") {
            if text::str_eq(id, model) {
                return true;
            }
        }
        i = i + 1;
    }
    false
}

/// Read the reply from the address of a listing.
pub fn read_listing(reply: &ListingReply, model: &str, label: &str) -> (r: ModelListing)
    ensures
        r@ == listing_of(*reply, model@, label@),
{
    match reply {
        ListingReply::Unreachable { is_timeout, is_connect } => ModelListing::Failed(
            connect_failure_text(label, *is_timeout, *is_connect),
        ),
        ListingReply::Response { status, status_text, body } => {
            if *status == 404 || *status == 405 {
                return ModelListing::NotExposed;
            }
            if *status < 200 || *status >= 300 {
                return ModelListing::Failed(
                    text::concat3(label, " HTTP error: ", status_text.as_str()),
                );
            }
            match body {
                Err(error) => {
                    let head = text::concat3("invalid ", label, " response: ");
                    ModelListing::Failed(text::concat2(head.as_str(), error.as_str()))
                },
                Ok(body) => if has_model(body, model) {
                    ModelListing::Listed
                } else {
                    let head = text::concat3("configured model ", model, " not present in ");
                    ModelListing::Failed(text::concat2(head.as_str(), label))
                },
            }
        },
    }
}

// ---------------------------------------------------------------------------
// The report
// ---------------------------------------------------------------------------

/// What the probe of a language server found.
#[derive(Debug)]
pub struct ServerProbe {
    pub server: AdapterInfo,
    pub probe: Result<(), String>,
}

/// What the probes of all dependencies found.
#[derive(Debug)]
pub struct Probes {
    pub data_dir: Result<(), String>,
    pub lancedb: Result<(), String>,
    pub embedding_reach: Result<(), String>,
    pub embedding_models: ModelListing,
    pub reranker_reach: Result<(), String>,
    pub reranker_models: ModelListing,
    /// The path that ripgrep was found at.
    pub ripgrep_path: String,
    pub ripgrep: Result<(), String>,
    pub servers: Vec<ServerProbe>,
}

/// The command whose version the probe of a language server asks for: none where it is
/// disabled or not configured.
pub fn probed_command(server: &AdapterInfo) -> (r: Option<&str>)
    ensures
        match r {
            Some(command) => server.enabled && server.command is Some && command@
                == server.command->0@,
            None => !server.enabled || server.command is None,
        },
{
    if !server.enabled {
        return None;
    }
    match &server.command {
        Some(command) => Some(command.as_str()),
        None => None,
    }
}

/// The text of a failure.
pub open spec fn failure(probe: Result<(), String>) -> Option<Seq<char>> {
    match probe {
        Ok(_) => None,
        Err(error) => Some(error@),
    }
}

/// A component that is ready where its probe succeeded.
pub open spec fn probed(name: Seq<char>, required: bool, probe: Result<(), String>) -> ComponentView {
    ComponentView { name, ready: probe is Ok, required, detail: failure(probe) }
}

/// A component that is ready where its model is listed, and where its models are not
/// listed at all and it is optional.
pub open spec fn listed(name: Seq<char>, required: bool, listing: Listing) -> ComponentView {
    match listing {
        Listing::Listed => ComponentView { name, ready: true, required, detail: None },
        Listing::NotExposed => ComponentView {
            name,
            ready: !required,
            required,
            detail: Some("model listing not exposed (HTTP 404/405)"@),
        },
        Listing::Failed(reason) => ComponentView {
            name,
            ready: false,
            required,
            detail: Some(reason),
        },
    }
}

/// The component of ripgrep.
pub open spec fn ripgrep_component(path: Seq<char>, probe: Result<(), String>) -> ComponentView {
    ComponentView {
        name: "ripgrep_available"@,
        ready: probe is Ok,
        required: false,
        detail: Some(
            match probe {
                Ok(_) => "resolved ripgrep at "@ + path,
                Err(error) => "ripgrep at "@ + path + " unavailable: "@ + error@,
            },
        ),
    }
}

/// The component of a language server.
pub open spec fn server_component(server: ServerProbe) -> ComponentView {
    let name = server.server.provider.name();
    ComponentView {
        name: server.server.provider.component(),
        ready: server.probe is Ok,
        required: false,
        detail: Some(
            match server.server.command {
                None => name + " not configured"@,
                Some(command) => if !server.server.enabled {
                    name + " disabled"@
                } else {
                    match server.probe {
                        Ok(_) => "configured "@ + name + " command "@ + command@,
                        Err(error) => "configured "@ + name + " command "@ + command@
                            + " unavailable: "@ + error@,
                    }
                },
            },
        ),
    }
}

/// All components, the required ones first.
pub open spec fn components(probes: Probes) -> Seq<ComponentView> {
    seq![
        probed("writable_data_dir"@, true, probes.data_dir),
        probed("lancedb_accessible"@, true, probes.lancedb),
        probed("embedding_endpoint_reachable"@, true, probes.embedding_reach),
        listed("embedding_model_listed"@, true, probes.embedding_models@),
        probed("reranker_endpoint_reachable"@, false, probes.reranker_reach),
        listed("reranker_model_listed"@, false, probes.reranker_models@),
        ripgrep_component(probes.ripgrep_path@, probes.ripgrep),
    ] + probes.servers@.map_values(|server: ServerProbe| server_component(server))
}

/// The names and reasons of the components that are not ready.
pub open spec fn degraded(list: Seq<ComponentView>) -> Seq<(Seq<char>, Seq<char>)>
    decreases list.len(),
{
    if list.len() == 0 {
        seq![]
    } else {
        let before = degraded(list.drop_last());
        let last = list.last();
        if last.ready {
            before
        } else {
            before.push(
                (
                    last.name,
                    match last.detail {
                        Some(detail) => detail,
                        None => "unavailable"@,
                    },
                ),
            )
        }
    }
}

/// The four required components are ready.
pub open spec fn is_ready(probes: Probes) -> bool {
    probes.data_dir is Ok && probes.lancedb is Ok && probes.embedding_reach is Ok
        && probes.embedding_models is Listed
}

fn probed_component(name: &'static str, required: bool, probe: &Result<(), String>) -> (r:
    ReadinessComponent)
    ensures
        r@ == probed(name@, required, *probe),
{
    match probe {
        Ok(_) => ReadinessComponent { name, ready: true, required, detail: None },
        Err(error) => ReadinessComponent {
            name,
            ready: false,
            required,
            detail: Some(error.clone()),
        },
    }
}

fn listed_component(name: &'static str, required: bool, listing: &ModelListing) -> (r:
    ReadinessComponent)
    ensures
        r@ == listed(name@, required, listing@),
{
    match listing {
        ModelListing::Listed => ReadinessComponent { name, ready: true, required, detail: None },
        ModelListing::NotExposed => ReadinessComponent {
            name,
            ready: !required,
            required,
            detail: Some("model listing not exposed (HTTP 404/405)".to_owned()),
        },
        ModelListing::Failed(reason) => ReadinessComponent {
            name,
            ready: false,
            required,
            detail: Some(reason.clone()),
        },
    }
}

fn ripgrep_report(path: &str, probe: &Result<(), String>) -> (r: ReadinessComponent)
    ensures
        r@ == ripgrep_component(path@, *probe),
{
    match probe {
        Ok(_) => ReadinessComponent {
            name: "ripgrep_available",
            ready: true,
            required: false,
            detail: Some(text::concat2("resolved ripgrep at ", path)),
        },
        Err(error) => {
            let head = text::concat3("ripgrep at ", path, " unavailable: ");
            ReadinessComponent {
                name: "ripgrep_available",
                ready: false,
                required: false,
                detail: Some(text::concat2(head.as_str(), error.as_str())),
            }
        },
    }
}

fn server_report(server: &ServerProbe) -> (r: ReadinessComponent)
    ensures
        r@ == server_component(*server),
{
    let provider = server.server.provider.as_str();
    let detail = match &server.server.command {
        None => text::concat2(provider, " not configured"),
        Some(command) => if !server.server.enabled {
            text::concat2(provider, " disabled")
        } else {
            let head = text::concat3("configured ", provider, " command ");
            let configured = text::concat2(head.as_str(), command.as_str());
            match &server.probe {
                Ok(_) => configured,
                Err(error) => text::concat3(configured.as_str(), " unavailable: ", error.as_str()),
            }
        },
    };
    ReadinessComponent {
        name: server.server.provider.readiness_component_name(),
        ready: server.probe.is_ok(),
        required: false,
        detail: Some(detail),
    }
}

fn degraded_list(list: &[ReadinessComponent]) -> (r: Vec<ReadinessDegraded>)
    ensures
        degraded_views(r@) == degraded(component_views(list@)),
{
    let ghost all = component_views(list@);
    let mut out: Vec<ReadinessDegraded> = Vec::new();
    let mut i: usize = 0;
    assert(degraded_views(out@) =~= degraded(all.take(0)));
    while i < list.len()
        invariant
            i <= list@.len(),
            all == component_views(list@),
            degraded_views(out@) == degraded(all.take(i as int)),
        decreases list@.len() - i,
    {
        let ghost next = all.take(i + 1);
        let ghost before = out@;
        proof {
            assert(next.drop_last() =~= all.take(i as int));
            assert(next.last() == list@[i as int]@);
        }
        if !list[i].ready {
            let reason = match &list[i].detail {
                Some(detail) => detail.clone(),
                None => "unavailable".to_owned(),
            };
            let item = ReadinessDegraded { name: list[i].name, reason };
            out.push(item);
            assert(degraded_views(out@) =~= degraded_views(before).push(
                (item.name@, item.reason@),
            ));
        }
        i = i + 1;
    }
    assert(all.take(i as int) =~= all);
    out
}

/// Report the readiness of the application. Required components gate it; optional ones
/// only show as degraded.
pub fn service_status(probes: &Probes) -> (r: ServiceStatus)
    ensures
        r.ready == is_ready(*probes),
        r.can_create_semantic_index == r.ready,
        component_views(r.components@) == components(*probes),
        degraded_views(r.degraded@) == degraded(components(*probes)),
{
    let mut list: Vec<ReadinessComponent> = Vec::new();
    list.push(probed_component("writable_data_dir", true, &probes.data_dir));
    list.push(probed_component("lancedb_accessible", true, &probes.lancedb));
    list.push(probed_component("embedding_endpoint_reachable", true, &probes.embedding_reach));
    list.push(listed_component("embedding_model_listed", true, &probes.embedding_models));
    list.push(probed_component("reranker_endpoint_reachable", false, &probes.reranker_reach));
    list.push(listed_component("reranker_model_listed", false, &probes.reranker_models));
    list.push(ripgrep_report(probes.ripgrep_path.as_str(), &probes.ripgrep));
    let ready = list[0].ready && list[1].ready && list[2].ready && list[3].ready;
    let ghost fixed = component_views(list@);
    let mut i: usize = 0;
    let ghost servers = probes.servers@.map_values(|server: ServerProbe| server_component(server));
    proof {
        assert(fixed =~= components(*probes).take(7));
        assert(servers.take(0) =~= seq![]);
        assert(fixed + servers.take(0) =~= fixed);
    }
    while i < probes.servers.len()
        invariant
            i <= probes.servers@.len(),
            servers == probes.servers@.map_values(|server: ServerProbe| server_component(server)),
            component_views(list@) == fixed + servers.take(i as int),
        decreases probes.servers@.len() - i,
    {
        let ghost before = list@;
        list.push(server_report(&probes.servers[i]));
        proof {
            assert(servers.take(i + 1) =~= servers.take(i as int).push(servers[i as int]));
            assert(component_views(list@) =~= component_views(before).push(list@.last()@));
            assert(component_views(list@) =~= fixed + servers.take(i + 1));
        }
        i = i + 1;
    }
    proof {
        assert(servers.take(i as int) =~= servers);
        assert(component_views(list@) =~= components(*probes));
    }
    let unavailable = degraded_list(&list);
    ServiceStatus {
        ready,
        can_create_semantic_index: ready,
        components: list,
        degraded: unavailable,
    }
}

/// The HTTP status that readiness is answered with.
pub fn status_code(status: &ServiceStatus) -> (r: u16)
    ensures
        r == (if status.ready {
            200u16
        } else {
            503u16
        }),
{
    if status.ready {
        200
    } else {
        503
    }
}

/// The application is ready if and only if every required component is: an optional one
/// never stands in its way.
pub proof fn law_required_components_gate_readiness(probes: Probes)
    ensures
        is_ready(probes) <==> forall|i: int|
            0 <= i < components(probes).len() && (#[trigger] components(probes)[i]).required
                ==> components(probes)[i].ready,
{
    let all = components(probes);
    let servers = probes.servers@.map_values(|server: ServerProbe| server_component(server));
    assert forall|i: int| 7 <= i < all.len() implies !(#[trigger] all[i]).required by {
        assert(all[i] == servers[i - 7]);
    }
    assert(all[0] == probed("writable_data_dir"@, true, probes.data_dir));
    assert(all[1] == probed("lancedb_accessible"@, true, probes.lancedb));
    assert(all[2] == probed("embedding_endpoint_reachable"@, true, probes.embedding_reach));
    assert(all[3] == listed("embedding_model_listed"@, true, probes.embedding_models@));
    assert(!all[4].required && !all[5].required && !all[6].required);
}

/// Nothing is degraded if and only if every component is ready.
pub proof fn law_degraded_components_are_the_unavailable_ones(list: Seq<ComponentView>)
    ensures
        degraded(list).len() == 0 <==> forall|i: int|
            0 <= i < list.len() ==> (#[trigger] list[i]).ready,
        forall|i: int|
            0 <= i < list.len() && !(#[trigger] list[i]).ready ==> exists|k: int|
                0 <= k < degraded(list).len() && (#[trigger] degraded(list)[k]).0 == list[i].name,
    decreases list.len(),
{
    if list.len() > 0 {
        let front = list.drop_last();
        law_degraded_components_are_the_unavailable_ones(front);
        let before = degraded(front);
        let after = degraded(list);
        assert forall|i: int| 0 <= i < list.len() && !(#[trigger] list[i]).ready implies exists|
            k: int,
        |
            0 <= k < after.len() && (#[trigger] after[k]).0 == list[i].name by {
            if i < list.len() - 1 {
                assert(front[i] == list[i]);
                let k = choose|k: int| 0 <= k < before.len() && (#[trigger] before[k]).0
                    == front[i].name;
                assert(after[k] == before[k]);
            } else {
                assert(after[after.len() - 1].0 == list[i].name);
            }
        }
        if degraded(list).len() == 0 {
            assert forall|i: int| 0 <= i < list.len() implies (#[trigger] list[i]).ready by {
                if i < list.len() - 1 {
                    assert(front[i] == list[i]);
                }
            }
        }
        if forall|i: int| 0 <= i < list.len() ==> (#[trigger] list[i]).ready {
            assert forall|i: int| 0 <= i < front.len() implies (#[trigger] front[i]).ready by {
                assert(front[i] == list[i]);
            }
            assert(list[list.len() - 1].ready);
        }
    }
}

// ---------------------------------------------------------------------------
// The probe of the data directory
// ---------------------------------------------------------------------------

/// The name of the file that a probe of the data directory writes.
pub open spec fn probe_name(process: nat, time: nat, sequence: nat) -> Seq<char> {
    ".readiness_probe_"@ + text::decimal(process) + "_"@ + text::decimal(time) + "_"@
        + text::decimal(sequence)
}

/// The name of the file that a probe of the data directory writes, by the number of the
/// process, the time and the number of the probe in the process.
pub fn probe_file_name(process: u32, time: u64, sequence: u64) -> (r: String)
    ensures
        r@ == probe_name(process as nat, time as nat, sequence as nat),
{
    let process_text = text::decimal_text(process as u64);
    let time_text = text::decimal_text(time);
    let sequence_text = text::decimal_text(sequence);
    let head = text::concat3(".readiness_probe_", process_text.as_str(), "_");
    let middle = text::concat3(head.as_str(), time_text.as_str(), "_");
    text::concat2(middle.as_str(), sequence_text.as_str())
}

proof fn lemma_digits_before_separator(a: Seq<char>, x: Seq<char>, b: Seq<char>, y: Seq<char>)
    requires
        text::all_digits(a),
        text::all_digits(b),
        a + seq!['_'] + x == b + seq!['_'] + y,
    ensures
        a == b,
        x == y,
{
    let s = a + seq!['_'] + x;
    let t = b + seq!['_'] + y;
    if a.len() < b.len() {
        assert(s[a.len() as int] == '_');
        assert(t[a.len() as int] == b[a.len() as int]);
        assert(text::is_digit(b[a.len() as int]));
        assert(false);
    }
    if b.len() < a.len() {
        assert(t[b.len() as int] == '_');
        assert(s[b.len() as int] == a[b.len() as int]);
        assert(text::is_digit(a[b.len() as int]));
        assert(false);
    }
    assert(s.take(a.len() as int) =~= a);
    assert(t.take(b.len() as int) =~= b);
    assert(s.skip((a.len() + 1) as int) =~= x);
    assert(t.skip((b.len() + 1) as int) =~= y);
}

/// Concurrent probes never write the same file: two probes have the same name only where
/// process, time and number are the same.
pub proof fn law_probe_names_do_not_collide(a: (nat, nat, nat), b: (nat, nat, nat))
    ensures
        probe_name(a.0, a.1, a.2) == probe_name(b.0, b.1, b.2) ==> a == b,
{
    if probe_name(a.0, a.1, a.2) == probe_name(b.0, b.1, b.2) {
        reveal_strlit("_");
        let prefix = ".readiness_probe_"@;
        let under = seq!['_'];
        assert("_"@ =~= under);
        text::lemma_decimal(a.0);
        text::lemma_decimal(a.1);
        text::lemma_decimal(a.2);
        text::lemma_decimal(b.0);
        text::lemma_decimal(b.1);
        text::lemma_decimal(b.2);
        let a_rest = text::decimal(a.1) + under + text::decimal(a.2);
        let b_rest = text::decimal(b.1) + under + text::decimal(b.2);
        let a_all = text::decimal(a.0) + under + a_rest;
        let b_all = text::decimal(b.0) + under + b_rest;
        assert(probe_name(a.0, a.1, a.2) =~= prefix + a_all);
        assert(probe_name(b.0, b.1, b.2) =~= prefix + b_all);
        assert((prefix + a_all).skip(prefix.len() as int) =~= a_all);
        assert((prefix + b_all).skip(prefix.len() as int) =~= b_all);
        lemma_digits_before_separator(text::decimal(a.0), a_rest, text::decimal(b.0), b_rest);
        lemma_digits_before_separator(
            text::decimal(a.1),
            text::decimal(a.2),
            text::decimal(b.1),
            text::decimal(b.2),
        );
    }
}

/// A model is listed if and only if the listing came with success and holds an entry with its
/// identifier. Listings that are not offered are told from those that failed.
pub proof fn law_listed_models_stand_in_the_listing(
    reply: ListingReply,
    model: Seq<char>,
    label: Seq<char>,
)
    ensures
        listing_of(reply, model, label) is Listed <==> (reply matches ListingReply::Response {
            status,
            status_text,
            body,
        } && 200 <= status && status < 300 && body is Ok && json::document(body->Ok_0).field(
            "data"@,
        ) is List && exists|i: int|
            0 <= i < json::document(body->Ok_0).field("data"@)->List_0.len() && (
            #[trigger] json::document(body->Ok_0).field("data"@)->List_0[i]).field("id"@)
                == Document::Text(model)),
        listing_of(reply, model, label) is NotExposed <==> (reply matches ListingReply::Response {
            status,
            status_text,
            body,
        } && (status == 404 || status == 405)),
{
    if let ListingReply::Response { status, status_text, body } = reply {
        if let Ok(value) = body {
            let data = json::document(value).field("data"@);
            if let Document::List(list) = data {
                assert forall|i: int| 0 <= i < list.len() implies ((#[trigger] list[i]).field(
                    "id"@,
                ).as_text() == Some(model)) == (list[i].field("id"@) == Document::Text(model)) by {}
                if lists_model(json::document(value), model) {
                    let i = choose|i: int|
                        0 <= i < list.len() && (#[trigger] list[i]).field("id"@).as_text() == Some(
                            model,
                        );
                    assert(list[i].field("id"@) == Document::Text(model));
                }
            }
        }
    }
}

/// The application is ready if and only if its data directory can be written, its store can
/// be opened, its embedding endpoint answers, and its embedding model is listed.
pub proof fn law_readiness_needs_the_embedding_model(probes: Probes)
    ensures
        is_ready(probes) <==> probes.data_dir is Ok && probes.lancedb is Ok
            && probes.embedding_reach is Ok && probes.embedding_models@ == Listing::Listed,
        components(probes).len() == 7 + probes.servers@.len(),
        forall|i: int|
            0 <= i < components(probes).len() ==> ((#[trigger] components(probes)[i]).required
                <==> i < 4),
{
}

/// The degraded components are those that are not ready, in order, each with its reason.
pub proof fn law_degraded_components_give_their_reasons(list: Seq<ComponentView>)
    ensures
        degraded(list) == list.filter(|item: ComponentView| !item.ready).map_values(
            |item: ComponentView|
                (
                    item.name,
                    match item.detail {
                        Some(detail) => detail,
                        None => "unavailable"@,
                    },
                ),
        ),
    decreases list.len(),
{
    reveal(Seq::filter);
    let f = |item: ComponentView|
        (
            item.name,
            match item.detail {
                Some(detail) => detail,
                None => "unavailable"@,
            },
        );
    let kind = |item: ComponentView| !item.ready;
    if list.len() > 0 {
        let rest = list.drop_last();
        law_degraded_components_give_their_reasons(rest);
        let before = rest.filter(kind);
        assert(before.push(list.last()).map_values(f) =~= before.map_values(f).push(
            f(list.last()),
        ));
    } else {
        assert(list.filter(kind).map_values(f) =~= seq![]);
    }
}

} // verus!

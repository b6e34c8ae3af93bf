//! The embedding service and the reranker: what they are asked, and what their answers
//! must be.
//!
//! Numbers of the services are single-precision, by their bits.

use crate::config;
use crate::float;
use crate::json::{self, Document, Json};
use crate::order::{self, Ranked};
use crate::text;
use vstd::prelude::*;

verus! {

/// What stands in front of a query that is embedded.
pub const QUERY_INSTRUCTION: &'static str =
    "Instruct: Given a code search query, retrieve relevant code passages that answer the query\nQuery: ";

// ---------------------------------------------------------------------------
// Requests
// ---------------------------------------------------------------------------

/// The address of the embedding service.
pub fn embeddings_url(base: &str) -> (r: String)
    ensures
        r@ == config::without_trailing_slash(base@) + "/embeddings"@,
{
    let trimmed = config::trim_trailing_slash(base);
    text::concat2(trimmed.as_str(), "/embeddings")
}

/// The text by which a query is embedded.
pub fn query_text(query: &str) -> (r: String)
    ensures
        r@ == QUERY_INSTRUCTION@ + query@,
{
    text::concat2(QUERY_INSTRUCTION, query)
}

/// A list of texts.
pub open spec fn texts(list: Seq<Seq<char>>) -> Document {
    Document::List(list.map_values(|item: Seq<char>| Document::Text(item)))
}

fn text_list(list: &[String]) -> (r: Json)
    ensures
        json::document(r) == texts(text::views(list@)),
{
    let mut out: Vec<Json> = Vec::new();
    let mut i: usize = 0;
    while i < list.len()
        invariant
            i <= list@.len(),
            out@.len() == i,
            forall|k: int|
                0 <= k < i ==> json::document(#[trigger] out@[k]) == Document::Text(list@[k]@),
        decreases list@.len() - i,
    {
        out.push(Json::text(list[i].as_str()));
        i = i + 1;
    }
    proof {
        let views = text::views(list@);
        let says = views.map_values(|item: Seq<char>| Document::Text(item));
        json::lemma_documents(out@);
        assert forall|k: int| 0 <= k < out@.len() implies json::documents(out@)[k] == says[k] by {
            assert(json::documents(out@)[k] == json::document(out@[k]));
        }
        assert(json::documents(out@) =~= says);
    }
    Json::List(out)
}

/// The request for the embeddings of texts.
pub open spec fn embedding_query(model: Seq<char>, inputs: Seq<Seq<char>>) -> Document {
    Document::Object(
        seq![
            ("model"@, Document::Text(model)),
            ("input"@, texts(inputs)),
            ("encoding_format"@, Document::Text("float"@)),
        ],
    )
}

/// The request for the embeddings of texts; there must be one.
pub fn embedding_request(model: &str, inputs: &[String]) -> (r: Result<Json, EmbeddingError>)
    ensures
        match r {
            Ok(request) => inputs@.len() > 0 && json::document(request) == embedding_query(
                model@,
                text::views(inputs@),
            ),
            Err(error) => inputs@.len() == 0 && error == EmbeddingError::EmptyInput,
        },
{
    if inputs.len() == 0 {
        return Err(EmbeddingError::EmptyInput);
    }
    let head = json::with(json::object("model", Json::text(model)), "input", text_list(inputs));
    let request = json::with(head, "encoding_format", Json::text("float"));
    proof {
        assert(json::document(request)->Object_0 =~= embedding_query(
            model@,
            text::views(inputs@),
        )->Object_0);
    }
    Ok(request)
}

/// The request for the ranks of documents.
pub open spec fn rerank_query(
    model: Seq<char>,
    query: Seq<char>,
    documents: Seq<Seq<char>>,
) -> Document {
    Document::Object(
        seq![
            ("model"@, Document::Text(model)),
            ("query"@, Document::Text(query)),
            ("documents"@, texts(documents)),
            ("top_n"@, Document::Unsigned(documents.len() as u64)),
        ],
    )
}

/// The request for the ranks of documents, all of them.
pub fn rerank_request(model: &str, query: &str, documents: &[String]) -> (r: Json)
    ensures
        json::document(r) == rerank_query(model@, query@, text::views(documents@)),
{
    let head = json::with(json::object("model", Json::text(model)), "query", Json::text(query));
    let listed = json::with(head, "documents", text_list(documents));
    let r = json::with(listed, "top_n", Json::Unsigned(documents.len() as u64));
    proof {
        assert(json::document(r)->Object_0 =~= rerank_query(
            model@,
            query@,
            text::views(documents@),
        )->Object_0);
    }
    r
}

// ---------------------------------------------------------------------------
// Trying again
// ---------------------------------------------------------------------------

/// How often a request is sent at most. A service that is merely cold, or hiccups for a
/// moment, cannot be told from a dead one by one timeout.
pub const MAX_ATTEMPTS: u32 = 3;

/// The seconds behind the failed attempt `attempt`, the first being 1: doubled with each.
pub open spec fn backoff(attempt: nat) -> nat
    decreases attempt,
{
    if attempt <= 1 {
        1
    } else {
        2 * backoff((attempt - 1) as nat)
    }
}

/// How many seconds to wait before a failed request is sent again; `None` where it is not.
/// Only timeouts and failed connections are tried again: an error status or a malformed
/// response would come again.
pub fn retry_delay(attempt: u32, is_timeout: bool, is_connect: bool) -> (r: Option<u64>)
    requires
        1 <= attempt,
    ensures
        match r {
            Some(delay) => attempt < MAX_ATTEMPTS && (is_timeout || is_connect) && delay == backoff(
                attempt as nat,
            ),
            None => attempt >= MAX_ATTEMPTS || !(is_timeout || is_connect),
        },
{
    if attempt >= MAX_ATTEMPTS || !(is_timeout || is_connect) {
        return None;
    }
    proof {
        reveal_with_fuel(backoff, 3);
    }
    if attempt == 1 {
        Some(1)
    } else {
        Some(2)
    }
}

// ---------------------------------------------------------------------------
// Embeddings
// ---------------------------------------------------------------------------

/// One embedding of a response.
#[derive(Debug)]
pub struct EmbeddingItem {
    pub index: usize,
    pub embedding: Vec<u32>,
}

/// Why embeddings are refused.
#[derive(Debug, Clone, Copy, PartialEq, Eq, Structural)]
pub enum EmbeddingError {
    EmptyInput,
    CountMismatch,
    Index,
    Vector,
    ZeroVector,
    MixedDimensions,
}

impl EmbeddingError {
    /// The text of the error.
    pub open spec fn text(self) -> Seq<char> {
        match self {
            EmbeddingError::EmptyInput => "embedding input is empty"@,
            EmbeddingError::CountMismatch => "embedding response count mismatch"@,
            EmbeddingError::Index => "invalid/duplicate embedding index"@,
            EmbeddingError::Vector => "invalid embedding vector"@,
            EmbeddingError::ZeroVector => "zero embedding vector"@,
            EmbeddingError::MixedDimensions => "mixed embedding dimensions"@,
        }
    }

    /// The text of the error.
    pub fn message(&self) -> (r: &'static str)
        ensures
            r@ == self.text(),
    {
        match self {
            EmbeddingError::EmptyInput => "embedding input is empty",
            EmbeddingError::CountMismatch => "embedding response count mismatch",
            EmbeddingError::Index => "invalid/duplicate embedding index",
            EmbeddingError::Vector => "invalid embedding vector",
            EmbeddingError::ZeroVector => "zero embedding vector",
            EmbeddingError::MixedDimensions => "mixed embedding dimensions",
        }
    }
}

/// All numbers are finite.
pub open spec fn all_finite(vector: Seq<u32>) -> bool {
    forall|i: int| 0 <= i < vector.len() ==> float::is_finite(#[trigger] vector[i])
}

/// All numbers are zero.
pub open spec fn all_zero(vector: Seq<u32>) -> bool {
    forall|i: int| 0 <= i < vector.len() ==> float::is_zero(#[trigger] vector[i])
}

/// An earlier item has the index of item `i`.
pub open spec fn repeats_index(items: Seq<EmbeddingItem>, i: int) -> bool {
    exists|k: int| 0 <= k < i && (#[trigger] items[k]).index == items[i].index
}

/// Why item `i` of a response to `count` texts is refused.
pub open spec fn item_error(items: Seq<EmbeddingItem>, i: int, count: nat) -> Option<
    EmbeddingError,
> {
    let vector = items[i].embedding@;
    if items[i].index >= count || repeats_index(items, i) {
        Some(EmbeddingError::Index)
    } else if vector.len() == 0 || !all_finite(vector) {
        Some(EmbeddingError::Vector)
    } else if all_zero(vector) {
        Some(EmbeddingError::ZeroVector)
    } else if items[0].embedding@.len() != vector.len() {
        Some(EmbeddingError::MixedDimensions)
    } else {
        None
    }
}

/// Why the first `upto` items are refused: the error of the first bad one.
pub open spec fn first_error(items: Seq<EmbeddingItem>, upto: nat, count: nat) -> Option<
    EmbeddingError,
>
    decreases upto,
{
    if upto == 0 {
        None
    } else {
        match first_error(items, (upto - 1) as nat, count) {
            Some(error) => Some(error),
            None => item_error(items, upto - 1, count),
        }
    }
}

/// Why a response to `count` texts is refused.
pub open spec fn response_error(items: Seq<EmbeddingItem>, count: nat) -> Option<EmbeddingError> {
    if items.len() != count {
        Some(EmbeddingError::CountMismatch)
    } else {
        first_error(items, items.len(), count)
    }
}

/// Each item's vector stands at its index, and every place holds the vector of an item.
pub open spec fn are_ordered(vectors: Seq<Vec<u32>>, items: Seq<EmbeddingItem>) -> bool {
    &&& vectors.len() == items.len()
    &&& forall|i: int|
        0 <= i < items.len() ==> (#[trigger] items[i]).index < vectors.len()
            && vectors[items[i].index as int]@ == items[i].embedding@
    &&& forall|j: int| 0 <= j < vectors.len() ==> #[trigger] holds_an_item(vectors, items, j)
}

/// Place `j` holds the vector of an item.
pub open spec fn holds_an_item(vectors: Seq<Vec<u32>>, items: Seq<EmbeddingItem>, j: int) -> bool {
    exists|i: int|
        0 <= i < items.len() && (#[trigger] items[i]).index == j && vectors[j]@
            == items[i].embedding@
}

fn is_finite_vector(vector: &[u32]) -> (r: bool)
    ensures
        r == all_finite(vector@),
{
    let mut i: usize = 0;
    while i < vector.len()
        invariant
            i <= vector@.len(),
            forall|k: int| 0 <= k < i ==> float::is_finite(#[trigger] vector@[k]),
        decreases vector@.len() - i,
    {
        if !float::finite(vector[i]) {
            return false;
        }
        i = i + 1;
    }
    true
}

fn is_zero_vector(vector: &[u32]) -> (r: bool)
    ensures
        r == all_zero(vector@),
{
    let mut i: usize = 0;
    while i < vector.len()
        invariant
            i <= vector@.len(),
            forall|k: int| 0 <= k < i ==> float::is_zero(#[trigger] vector@[k]),
        decreases vector@.len() - i,
    {
        if !float::zero(vector[i]) {
            return false;
        }
        i = i + 1;
    }
    true
}

/// How many places are taken.
spec fn taken(slots: Seq<Option<Vec<u32>>>) -> nat
    decreases slots.len(),
{
    if slots.len() == 0 {
        0
    } else {
        taken(slots.drop_last()) + if slots.last() is Some {
            1nat
        } else {
            0nat
        }
    }
}

proof fn lemma_taken_bound(slots: Seq<Option<Vec<u32>>>)
    ensures
        taken(slots) <= slots.len(),
        taken(slots) == slots.len() ==> forall|j: int|
            0 <= j < slots.len() ==> (#[trigger] slots[j]) is Some,
    decreases slots.len(),
{
    if slots.len() > 0 {
        lemma_taken_bound(slots.drop_last());
        if taken(slots) == slots.len() {
            assert forall|j: int| 0 <= j < slots.len() implies (#[trigger] slots[j]) is Some by {
                if j < slots.len() - 1 {
                    assert(slots.drop_last()[j] == slots[j]);
                }
            }
        }
    }
}

proof fn lemma_taken_update(slots: Seq<Option<Vec<u32>>>, at: int, vector: Vec<u32>)
    requires
        0 <= at < slots.len(),
        slots[at] is None,
    ensures
        taken(slots.update(at, Some(vector))) == taken(slots) + 1,
    decreases slots.len(),
{
    let updated = slots.update(at, Some(vector));
    if at == slots.len() - 1 {
        assert(updated.drop_last() =~= slots.drop_last());
    } else {
        assert(updated.drop_last() =~= slots.drop_last().update(at, Some(vector)));
        lemma_taken_update(slots.drop_last(), at, vector);
    }
}

proof fn lemma_taken_none(slots: Seq<Option<Vec<u32>>>)
    requires
        forall|j: int| 0 <= j < slots.len() ==> (#[trigger] slots[j]) is None,
    ensures
        taken(slots) == 0,
    decreases slots.len(),
{
    if slots.len() > 0 {
        lemma_taken_none(slots.drop_last());
        assert(slots[slots.len() - 1] is None);
    }
}

proof fn lemma_error_stays(items: Seq<EmbeddingItem>, i: nat, upto: nat, count: nat)
    requires
        i <= upto,
        first_error(items, i, count) is Some,
    ensures
        first_error(items, upto, count) == first_error(items, i, count),
    decreases upto,
{
    if i < upto {
        lemma_error_stays(items, i, (upto - 1) as nat, count);
    }
}

fn empty_slots(count: usize) -> (r: Vec<Option<Vec<u32>>>)
    ensures
        r@.len() == count,
        forall|j: int| 0 <= j < count ==> (#[trigger] r@[j]) is None,
{
    let mut out: Vec<Option<Vec<u32>>> = Vec::new();
    while out.len() < count
        invariant
            out@.len() <= count,
            forall|j: int| 0 <= j < out@.len() ==> (#[trigger] out@[j]) is None,
        decreases count - out@.len(),
    {
        out.push(None);
    }
    out
}

/// Put the embeddings of a response into the order of the `count` texts. There must be one
/// for each text, all of one dimension, finite and not zero.
pub fn order_embeddings(count: usize, items: Vec<EmbeddingItem>) -> (r: Result<
    Vec<Vec<u32>>,
    EmbeddingError,
>)
    ensures
        match r {
            Ok(vectors) => response_error(items@, count as nat) is None && are_ordered(
                vectors@,
                items@,
            ),
            Err(error) => response_error(items@, count as nat) == Some(error),
        },
{
    let ghost all = items@;
    if items.len() != count {
        return Err(EmbeddingError::CountMismatch);
    }
    let mut slots = empty_slots(count);
    let mut i: usize = 0;
    let mut dimension: usize = 0;
    proof {
        lemma_taken_none(slots@);
    }
    for item in list: items
        invariant
            list.seq() == all,
            all.len() == count,
            i == list.index(),
            slots@.len() == count,
            first_error(all, i as nat, count as nat) is None,
            taken(slots@) == i,
            i > 0 ==> dimension == all[0].embedding@.len(),
            forall|k: int|
                0 <= k < i ==> (#[trigger] all[k]).index < count && slots@[all[k].index as int]
                    is Some && slots@[all[k].index as int]->0@ == all[k].embedding@,
            forall|j: int|
                0 <= j < count && (#[trigger] slots@[j]) is Some ==> exists|k: int|
                    0 <= k < i && (#[trigger] all[k]).index == j && slots@[j]->0@
                        == all[k].embedding@,
        ensures
            i == count,
            list.seq() == all,
            slots@.len() == count,
            all.len() == count,
            first_error(all, count as nat, count as nat) is None,
            taken(slots@) == count,
            forall|k: int|
                0 <= k < count ==> (#[trigger] all[k]).index < count && slots@[all[k].index as int]
                    is Some && slots@[all[k].index as int]->0@ == all[k].embedding@,
            forall|j: int|
                0 <= j < count && (#[trigger] slots@[j]) is Some ==> exists|k: int|
                    0 <= k < count && (#[trigger] all[k]).index == j && slots@[j]->0@
                        == all[k].embedding@,
    {
        assert(item == all[i as int]);
        let ghost error = item_error(all, i as int, count as nat);
        proof {
            assert(first_error(all, (i + 1) as nat, count as nat) == error);
            if error is Some {
                lemma_error_stays(all, (i + 1) as nat, count as nat, count as nat);
            }
        }
        if item.index >= count {
            return Err(EmbeddingError::Index);
        }
        if slots[item.index].is_some() {
            assert(slots@[item.index as int] is Some);
            assert(repeats_index(all, i as int));
            return Err(EmbeddingError::Index);
        }
        assert(!repeats_index(all, i as int));
        if item.embedding.len() == 0 || !is_finite_vector(&item.embedding) {
            return Err(EmbeddingError::Vector);
        }
        if is_zero_vector(&item.embedding) {
            return Err(EmbeddingError::ZeroVector);
        }
        if i > 0 && dimension != item.embedding.len() {
            return Err(EmbeddingError::MixedDimensions);
        }
        dimension = item.embedding.len();
        let ghost before = slots@;
        let at: usize = item.index;
        let ghost vector = item.embedding;
        slots.set(at, Some(item.embedding));
        proof {
            lemma_taken_update(before, at as int, vector);
            assert(all[i as int].index == at);
            assert forall|k: int| 0 <= k < i + 1 implies (#[trigger] all[k]).index < count
                && slots@[all[k].index as int] is Some && slots@[all[k].index as int]->0@
                == all[k].embedding@ by {
                if k < i {
                    assert(all[k].index != at);
                }
            }
            assert forall|j: int| 0 <= j < count && (#[trigger] slots@[j]) is Some implies exists|
                k: int,
            |
                0 <= k < i + 1 && (#[trigger] all[k]).index == j && slots@[j]->0@
                    == all[k].embedding@ by {
                if j == at {
                    assert(all[i as int].index == j);
                } else {
                    assert(before[j] == slots@[j]);
                    let k = choose|k: int|
                        0 <= k < i && (#[trigger] all[k]).index == j && before[j]->0@
                            == all[k].embedding@;
                    assert(all[k].index == j);
                }
            }
        }
        i = i + 1;
    }
    proof {
        lemma_taken_bound(slots@);
    }
    Ok(unwrap_slots(slots, Ghost(all)))
}

fn unwrap_slots(slots: Vec<Option<Vec<u32>>>, all: Ghost<Seq<EmbeddingItem>>) -> (r: Vec<Vec<u32>>)
    requires
        slots@.len() == all@.len(),
        forall|j: int| 0 <= j < slots@.len() ==> (#[trigger] slots@[j]) is Some,
        forall|k: int|
            0 <= k < all@.len() ==> (#[trigger] all@[k]).index < slots@.len()
                && slots@[all@[k].index as int]->0@ == all@[k].embedding@,
        forall|j: int|
            0 <= j < slots@.len() && (#[trigger] slots@[j]) is Some ==> exists|k: int|
                0 <= k < all@.len() && (#[trigger] all@[k]).index == j && slots@[j]->0@
                    == all@[k].embedding@,
    ensures
        are_ordered(r@, all@),
{
    let ghost places = slots@;
    let mut out: Vec<Vec<u32>> = Vec::new();
    for slot in list: slots
        invariant
            list.seq() == places,
            out@.len() == list.index(),
            forall|j: int| 0 <= j < places.len() ==> (#[trigger] places[j]) is Some,
            forall|j: int| 0 <= j < out@.len() ==> (#[trigger] out@[j]) == places[j]->0,
    {
        assert(slot == places[list.index() as int]);
        if let Some(vector) = slot {
            out.push(vector);
        }
    }
    proof {
        assert(out@.len() == places.len());
        assert forall|i: int| 0 <= i < all@.len() implies (#[trigger] all@[i]).index < out@.len()
            && out@[all@[i].index as int]@ == all@[i].embedding@ by {
            let j = all@[i].index as int;
            assert(places[j] is Some);
            assert(out@[j] == places[j]->0);
        }
        assert forall|j: int| 0 <= j < out@.len() implies #[trigger] holds_an_item(
            out@,
            all@,
            j,
        ) by {
            assert(places[j] is Some);
            let k = choose|k: int|
                0 <= k < all@.len() && (#[trigger] all@[k]).index == j && places[j]->0@
                    == all@[k].embedding@;
            assert(all@[k].index == j);
            assert(out@[j] == places[j]->0);
        }
    }
    out
}

/// The embeddings of an accepted response are one for each text, all of one dimension,
/// finite and none of them zero.
pub proof fn law_accepted_embeddings_are_valid(items: Seq<EmbeddingItem>, count: nat, i: int)
    requires
        response_error(items, count) is None,
        0 <= i < items.len(),
    ensures
        items.len() == count,
        items[i].index < count,
        !repeats_index(items, i),
        0 < items[i].embedding@.len() == items[0].embedding@.len(),
        all_finite(items[i].embedding@),
        !all_zero(items[i].embedding@),
{
    lemma_no_error(items, items.len(), count, i);
}

proof fn lemma_no_error(items: Seq<EmbeddingItem>, upto: nat, count: nat, i: int)
    requires
        first_error(items, upto, count) is None,
        0 <= i < upto,
    ensures
        item_error(items, i, count) is None,
    decreases upto,
{
    if i < upto - 1 {
        lemma_no_error(items, (upto - 1) as nat, count, i);
    }
}

// ---------------------------------------------------------------------------
// Ranks
// ---------------------------------------------------------------------------

/// Why ranks are refused.
#[derive(Debug, Clone, Copy, PartialEq, Eq, Structural)]
pub enum RerankError {
    CountMismatch,
    IndexOrScore,
}

impl RerankError {
    /// The text of the error.
    pub open spec fn text(self) -> Seq<char> {
        match self {
            RerankError::CountMismatch => "reranker response count mismatch"@,
            RerankError::IndexOrScore => "invalid reranker index/score"@,
        }
    }

    /// The text of the error.
    pub fn message(&self) -> (r: &'static str)
        ensures
            r@ == self.text(),
    {
        match self {
            RerankError::CountMismatch => "reranker response count mismatch",
            RerankError::IndexOrScore => "invalid reranker index/score",
        }
    }
}

/// A rank stands in front of another one: its score is higher, or the same and its index
/// lower.
pub open spec fn rank_precedes(a: (usize, u32), b: (usize, u32)) -> bool {
    ||| float::order_key(b.1) < float::order_key(a.1)
    ||| float::order_key(b.1) == float::order_key(a.1) && a.0 < b.0
}

impl Ranked for (usize, u32) {
    open spec fn below(self, other: Self) -> bool {
        rank_precedes(self, other)
    }

    proof fn asymmetric(a: Self, b: Self) {
    }

    proof fn weakly_ordered(a: Self, b: Self, c: Self) {
    }

    fn is_below(&self, other: &Self) -> (r: bool) {
        float::total_below(other.1, self.1) || (!float::total_below(self.1, other.1) && self.0
            < other.0)
    }
}

/// Each document has one rank, with a finite score.
pub open spec fn ranks_are_valid(ranks: Seq<(usize, u32)>, count: nat) -> bool {
    &&& ranks.len() == count
    &&& forall|i: int|
        0 <= i < ranks.len() ==> (#[trigger] ranks[i]).0 < count && float::is_finite(ranks[i].1)
    &&& forall|i: int, k: int|
        0 <= i < k < ranks.len() ==> (#[trigger] ranks[i]).0 != (#[trigger] ranks[k]).0
}

fn unseen(count: usize) -> (r: Vec<bool>)
    ensures
        r@.len() == count,
        forall|j: int| 0 <= j < count ==> !(#[trigger] r@[j]),
{
    let mut out: Vec<bool> = Vec::new();
    while out.len() < count
        invariant
            out@.len() <= count,
            forall|j: int| 0 <= j < out@.len() ==> !(#[trigger] out@[j]),
        decreases count - out@.len(),
    {
        out.push(false);
    }
    out
}

/// Put the ranks of a response into their order: by falling score, and by index where the
/// scores are the same. There must be one for each of the `count` documents.
pub fn order_ranks(count: usize, ranks: Vec<(usize, u32)>) -> (r: Result<
    Vec<(usize, u32)>,
    RerankError,
>)
    ensures
        match r {
            Ok(ordered) => ranks_are_valid(ranks@, count as nat) && ordered@ == order::sorted_by(
                ranks@,
                |a: (usize, u32), b: (usize, u32)| rank_precedes(a, b),
            ),
            Err(RerankError::CountMismatch) => ranks@.len() != count,
            Err(RerankError::IndexOrScore) => ranks@.len() == count && !ranks_are_valid(
                ranks@,
                count as nat,
            ),
        },
{
    if ranks.len() != count {
        return Err(RerankError::CountMismatch);
    }
    let mut seen = unseen(count);
    let mut i: usize = 0;
    while i < ranks.len()
        invariant
            i <= ranks@.len(),
            ranks@.len() == count,
            seen@.len() == count,
            forall|k: int|
                0 <= k < i ==> (#[trigger] ranks@[k]).0 < count && float::is_finite(ranks@[k].1)
                    && seen@[ranks@[k].0 as int],
            forall|k: int, m: int|
                0 <= k < m < i ==> (#[trigger] ranks@[k]).0 != (#[trigger] ranks@[m]).0,
            forall|j: int|
                0 <= j < count && #[trigger] seen@[j] ==> exists|k: int|
                    0 <= k < i && (#[trigger] ranks@[k]).0 == j,
        decreases ranks@.len() - i,
    {
        let (index, score) = ranks[i];
        if index >= count || !float::finite(score) {
            assert(ranks@[i as int].0 >= count || !float::is_finite(ranks@[i as int].1));
            return Err(RerankError::IndexOrScore);
        }
        if seen[index] {
            proof {
                let k = choose|k: int| 0 <= k < i && (#[trigger] ranks@[k]).0 == index as int;
                assert(ranks@[k].0 == ranks@[i as int].0);
            }
            return Err(RerankError::IndexOrScore);
        }
        let ghost before = seen@;
        seen.set(index, true);
        proof {
            assert forall|j: int| 0 <= j < count && #[trigger] seen@[j] implies exists|k: int|
                0 <= k < i + 1 && (#[trigger] ranks@[k]).0 == j by {
                if j == index {
                    assert(ranks@[i as int].0 == j);
                } else {
                    assert(before[j]);
                    let k = choose|k: int| 0 <= k < i && (#[trigger] ranks@[k]).0 == j;
                    assert(ranks@[k].0 == j);
                }
            }
            assert forall|k: int, m: int| 0 <= k < m < i + 1 implies (#[trigger] ranks@[k]).0
                != (#[trigger] ranks@[m]).0 by {
                if m == i {
                    assert(before[ranks@[k].0 as int]);
                }
            }
        }
        i = i + 1;
    }
    let ghost all = ranks@;
    let ordered = order::sort(ranks);
    proof {
        let named = |a: (usize, u32), b: (usize, u32)| rank_precedes(a, b);
        assert(order::rank::<(usize, u32)>() =~= named);
    }
    Ok(ordered)
}

/// The ordered ranks of an accepted response name each document once, and no score stands
/// behind a lower one.
pub proof fn law_each_document_has_one_rank(ranks: Seq<(usize, u32)>, count: nat)
    requires
        ranks_are_valid(ranks, count),
    ensures
        ({
            let ordered = order::sorted_by(
                ranks,
                |a: (usize, u32), b: (usize, u32)| rank_precedes(a, b),
            );
            &&& ranks_are_valid(ordered, count)
            &&& forall|i: int, k: int|
                0 <= i < k < ordered.len() ==> float::order_key((#[trigger] ordered[k]).1)
                    <= float::order_key((#[trigger] ordered[i]).1)
        }),
{
    broadcast use vstd::seq_lib::group_to_multiset_ensures;

    let before = |a: (usize, u32), b: (usize, u32)| rank_precedes(a, b);
    let ordered = order::sorted_by(ranks, before);
    assert(order::is_order(before));
    order::law_sorting_orders_the_items(ranks, before);
    assert(ranks.no_duplicates()) by {
        assert forall|i: int, k: int| 0 <= i < ranks.len() && 0 <= k < ranks.len() && i
            != k implies ranks[i] != ranks[k] by {
            if i < k {
                assert(ranks[i].0 != ranks[k].0);
            } else {
                assert(ranks[k].0 != ranks[i].0);
            }
        }
    }
    ranks.lemma_multiset_has_no_duplicates();
    ordered.lemma_multiset_has_no_duplicates_conv();
    assert forall|i: int| 0 <= i < ordered.len() implies (#[trigger] ordered[i]).0 < count
        && float::is_finite(ordered[i].1) by {
        assert(ordered.contains(ordered[i]));
        order::lemma_sorted_contains(ranks, before, ordered[i]);
        let k = choose|k: int| 0 <= k < ranks.len() && ranks[k] == ordered[i];
        assert(ranks[k].0 < count);
    }
    assert forall|i: int, k: int| 0 <= i < k < ordered.len() implies (#[trigger] ordered[i]).0 != (
    #[trigger] ordered[k]).0 by {
        assert(ordered.contains(ordered[i]) && ordered.contains(ordered[k]));
        order::lemma_sorted_contains(ranks, before, ordered[i]);
        order::lemma_sorted_contains(ranks, before, ordered[k]);
        let a = choose|a: int| 0 <= a < ranks.len() && ranks[a] == ordered[i];
        let b = choose|b: int| 0 <= b < ranks.len() && ranks[b] == ordered[k];
        assert(ordered[i] != ordered[k]);
        if a < b {
            assert(ranks[a].0 != ranks[b].0);
        } else if b < a {
            assert(ranks[b].0 != ranks[a].0);
        }
    }
    assert forall|i: int, k: int| 0 <= i < k < ordered.len() implies float::order_key((
    #[trigger] ordered[k]).1) <= float::order_key((#[trigger] ordered[i]).1) by {
        assert(!before(ordered[k], ordered[i]));
    }
}

/// An item is the embedding of a text: it names one that no item in front of it names, and
/// its numbers are finite, not all zero, and as many as those of the first item.
pub open spec fn is_sound(items: Seq<EmbeddingItem>, i: int, count: nat) -> bool {
    let vector = items[i].embedding@;
    &&& items[i].index < count
    &&& forall|k: int| 0 <= k < i ==> (#[trigger] items[k]).index != items[i].index
    &&& vector.len() > 0
    &&& vector.len() == items[0].embedding@.len()
    &&& forall|j: int|
        0 <= j < vector.len() ==> (#[trigger] vector[j]) < 0x7f80_0000 || 0x8000_0000 <= vector[j]
            < 0xff80_0000
    &&& exists|j: int|
        0 <= j < vector.len() && #[trigger] vector[j] != 0 && vector[j] != 0x8000_0000
}

proof fn lemma_sound(items: Seq<EmbeddingItem>, i: int, count: nat)
    requires
        0 <= i < items.len(),
    ensures
        item_error(items, i, count) is None <==> is_sound(items, i, count),
{
    let vector = items[i].embedding@;
    if item_error(items, i, count) is None {
        let j = choose|j: int|
            0 <= j < vector.len() && !float::is_zero(#[trigger] vector[j]);
        assert(vector[j] != 0 && vector[j] != 0x8000_0000);
        assert forall|j: int| 0 <= j < vector.len() implies (#[trigger] vector[j]) < 0x7f80_0000
            || 0x8000_0000 <= vector[j] < 0xff80_0000 by {
            assert(float::is_finite(vector[j]));
        }
    }
    if is_sound(items, i, count) {
        let j = choose|j: int|
            0 <= j < vector.len() && #[trigger] vector[j] != 0 && vector[j] != 0x8000_0000;
        assert(!float::is_zero(vector[j]));
        assert forall|j: int| 0 <= j < vector.len() implies float::is_finite(
            #[trigger] vector[j],
        ) by {}
    }
}

proof fn lemma_first_error(items: Seq<EmbeddingItem>, upto: nat, count: nat)
    requires
        upto <= items.len(),
    ensures
        first_error(items, upto, count) is None <==> forall|i: int|
            0 <= i < upto ==> #[trigger] is_sound(items, i, count),
    decreases upto,
{
    if upto > 0 {
        lemma_first_error(items, (upto - 1) as nat, count);
        lemma_sound(items, upto - 1, count);
    }
}

/// A response is accepted if and only if it has one item for each text and all of them are
/// sound.
pub proof fn law_sound_responses_are_accepted(items: Seq<EmbeddingItem>, count: nat)
    ensures
        response_error(items, count) is None <==> items.len() == count && forall|i: int|
            0 <= i < items.len() ==> #[trigger] is_sound(items, i, count),
{
    lemma_first_error(items, items.len(), count);
}

/// Documents stand by falling score, and those of equal score by their place in the request.
/// For positive scores the one with the greater bits is the greater.
pub proof fn law_documents_stand_by_falling_score(ranks: Seq<(usize, u32)>, i: int, k: int)
    requires
        0 <= i < k < ranks.len(),
    ensures
        ({
            let ordered = order::sorted_by(
                ranks,
                |a: (usize, u32), b: (usize, u32)| rank_precedes(a, b),
            );
            let (a, b) = (ordered[i], ordered[k]);
            &&& ordered.to_multiset() == ranks.to_multiset()
            &&& a.1 < 0x8000_0000 && b.1 < 0x8000_0000 ==> a.1 >= b.1
            &&& a.1 >= 0x8000_0000 ==> b.1 >= a.1
            &&& a.1 == b.1 ==> a.0 <= b.0
        }),
{
    let before = |a: (usize, u32), b: (usize, u32)| rank_precedes(a, b);
    let ordered = order::sorted_by(ranks, before);
    assert(order::is_order(before));
    order::law_sorting_orders_the_items(ranks, before);
    assert(!before(ordered[k], ordered[i]));
}

/// The wait is one second behind the first attempt, and twice as long behind each next one.
pub proof fn law_waits_double(attempt: nat)
    ensures
        backoff(1) == 1,
        attempt >= 1 ==> backoff(attempt + 1) == 2 * backoff(attempt),
{
}

/// Models are asked about all texts, in their order, and for the ranks of all documents.
pub proof fn law_models_are_asked_about_all_texts(
    model: Seq<char>,
    query: Seq<char>,
    inputs: Seq<Seq<char>>,
    i: int,
)
    requires
        inputs.len() <= u64::MAX,
        0 <= i < inputs.len(),
    ensures
        ({
            let embedding = embedding_query(model, inputs);
            let ranking = rerank_query(model, query, inputs);
            &&& embedding.field("model"@) == Document::Text(model)
            &&& embedding.field("input"@) is List
            &&& embedding.field("input"@)->List_0.len() == inputs.len()
            &&& embedding.field("input"@)->List_0[i] == Document::Text(inputs[i])
            &&& ranking.field("model"@) == Document::Text(model)
            &&& ranking.field("query"@) == Document::Text(query)
            &&& ranking.field("documents"@) == embedding.field("input"@)
            &&& ranking.field("top_n"@) == Document::Unsigned(inputs.len() as u64)
        }),
{
    reveal_strlit("model");
    reveal_strlit("input");
    reveal_strlit("encoding_format");
    reveal_strlit("query");
    reveal_strlit("documents");
    reveal_strlit("top_n");
    reveal_with_fuel(json::place, 5);
    let a = embedding_query(model, inputs)->Object_0;
    let b = rerank_query(model, query, inputs)->Object_0;
    assert("model"@[0] == 'm' && "input"@[0] == 'i' && "query"@[0] == 'q' && "documents"@[0] == 'd'
        && "top_n"@[0] == 't');
    assert(json::place(a, "model"@, 0) == 0);
    assert(json::place(a, "input"@, 0) == 1);
    assert(json::place(b, "model"@, 0) == 0);
    assert(json::place(b, "query"@, 0) == 1);
    assert(json::place(b, "documents"@, 0) == 2);
    assert(json::place(b, "top_n"@, 0) == 3);
}

/// Vectors stand in the order of the texts, whatever the order of the items: the vector at a
/// place is that of the item with its index.
pub proof fn law_vectors_stand_in_the_order_of_the_texts(
    vectors: Seq<Vec<u32>>,
    items: Seq<EmbeddingItem>,
    i: int,
)
    requires
        are_ordered(vectors, items),
        0 <= i < items.len(),
    ensures
        vectors.len() == items.len(),
        items[i].index < vectors.len(),
        vectors[items[i].index as int]@ == items[i].embedding@,
        exists|k: int|
            0 <= k < items.len() && (#[trigger] items[k]).index == i && vectors[i]@
                == items[k].embedding@,
{
    assert(holds_an_item(vectors, items, i));
}

/// A ranking is accepted if and only if it gives each document one rank, with a finite score.
pub proof fn law_sound_rankings_are_accepted(ranks: Seq<(usize, u32)>, count: nat)
    ensures
        ranks_are_valid(ranks, count) <==> {
            &&& ranks.len() == count
            &&& ranks.map_values(|rank: (usize, u32)| rank.0).no_duplicates()
            &&& forall|i: int|
                0 <= i < ranks.len() ==> (#[trigger] ranks[i]).0 < count && float::is_finite(
                    ranks[i].1,
                )
        },
{
    let places = ranks.map_values(|rank: (usize, u32)| rank.0);
    assert(forall|i: int| 0 <= i < ranks.len() ==> places[i] == (#[trigger] ranks[i]).0);
    if ranks_are_valid(ranks, count) {
        assert forall|i: int, k: int|
            0 <= i < places.len() && 0 <= k < places.len() && i != k implies places[i]
            != places[k] by {
            assert(places[i] == ranks[i].0 && places[k] == ranks[k].0);
            if i < k {
                assert(ranks[i].0 != ranks[k].0);
            } else {
                assert(ranks[k].0 != ranks[i].0);
            }
        }
    }
    if places.no_duplicates() {
        assert forall|i: int, k: int| 0 <= i < k < ranks.len() implies (#[trigger] ranks[i]).0 != (
        #[trigger] ranks[k]).0 by {
            assert(places[i] != places[k]);
        }
    }
}

} // verus!

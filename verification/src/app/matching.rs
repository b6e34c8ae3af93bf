//! Mapping of lexical matches and language-server locations onto chunks.

use crate::lexical::{self, LexicalMatch, LexicalMatchView};
use crate::lsp::Location;
use crate::order::{self, Ranked};
use crate::store::{self, Hit, HitView};
use crate::{text, unicode};
use vstd::prelude::*;

verus! {

// ---------------------------------------------------------------------------
// Lexical matches
// ---------------------------------------------------------------------------

/// A line of a chunk.
pub open spec fn has_line(hit: HitView, line: u32) -> bool {
    hit.chunk.start_line <= line <= hit.chunk.end_line
}

/// A path leads to a file: it is its path, or ends in it from some directory on.
pub open spec fn leads_to(path: Seq<char>, name: Seq<char>) -> bool {
    path == name || text::ends_with(path, "/"@ + name)
}

/// The first of `n` chunks that holds a line of the file that a path leads to, given the
/// name of each chunk's file.
pub open spec fn place_before(
    chunks: Seq<HitView>,
    names: Seq<Seq<char>>,
    path: Seq<char>,
    line: u32,
    n: nat,
) -> Option<int>
    decreases n,
{
    if n == 0 {
        None
    } else {
        match place_before(chunks, names, path, line, (n - 1) as nat) {
            Some(i) => Some(i),
            None => if leads_to(path, names[n - 1]) && has_line(chunks[n - 1], line) {
                Some(n - 1)
            } else {
                None
            },
        }
    }
}

/// The paths of chunks. Case does not matter.
pub open spec fn lowered_paths(chunks: Seq<HitView>) -> Seq<Seq<char>> {
    chunks.map_values(|hit: HitView| unicode::lowercase(hit.chunk.relative_file_path))
}

/// The first chunk that a match lies in.
pub open spec fn match_place(chunks: Seq<HitView>, found: LexicalMatchView) -> Option<int> {
    place_before(
        chunks,
        lowered_paths(chunks),
        unicode::lowercase(text::replaced(found.relative_path, '\\', '/')),
        found.line,
        chunks.len(),
    )
}

/// The chunk that each match lies in.
pub open spec fn match_places(
    chunks: Seq<HitView>,
    matches: Seq<LexicalMatchView>,
) -> Seq<Option<int>> {
    matches.map_values(|found: LexicalMatchView| match_place(chunks, found))
}

/// How many places are the chunk at `index`.
pub open spec fn place_count(places: Seq<Option<int>>, index: int) -> nat
    decreases places.len(),
{
    if places.len() == 0 {
        0
    } else if places.last() == Some(index) {
        place_count(places.drop_last(), index) + 1
    } else {
        place_count(places.drop_last(), index)
    }
}

/// The chunks among the first `n` that are places, in order.
pub open spec fn placed_chunks(places: Seq<Option<int>>, n: nat) -> Seq<int>
    decreases n,
{
    if n == 0 {
        seq![]
    } else {
        let before = placed_chunks(places, (n - 1) as nat);
        if place_count(places, n - 1) > 0 {
            before.push(n - 1)
        } else {
            before
        }
    }
}

pub open spec fn by_place_count(places: Seq<Option<int>>) -> spec_fn(int, int) -> bool {
    |a: int, b: int| place_count(places, a) > place_count(places, b)
}

/// Of `n` chunks those that are places: those with the most matches first, then in order.
pub open spec fn ranked_chunks(places: Seq<Option<int>>, n: nat) -> Seq<int> {
    order::sorted_by(placed_chunks(places, n), by_place_count(places))
}

/// The first `count` items.
pub open spec fn first_of<T>(list: Seq<T>, count: usize) -> Seq<T> {
    if list.len() > count {
        list.take(count as int)
    } else {
        list
    }
}

/// A chunk as a lexical hit.
pub open spec fn as_lexical(hit: HitView, rank: usize, count: u32) -> HitView {
    HitView {
        lexical_rank: Some(rank),
        lexical_match_count: count,
        retrieval_channels: hit.retrieval_channels.push("lexical"@),
        ..hit
    }
}

/// The lexical hits, given the chunk that each match lies in: the chunks with the most
/// matches, ranked from one.
pub open spec fn ranked_list(
    chunks: Seq<HitView>,
    places: Seq<Option<int>>,
    limit: usize,
) -> Seq<HitView> {
    let ranked = first_of(ranked_chunks(places, chunks.len()), limit);
    Seq::new(
        ranked.len(),
        |rank: int|
            as_lexical(
                chunks[ranked[rank]],
                (rank + 1) as usize,
                place_count(places, ranked[rank]) as u32,
            ),
    )
}

/// The lexical hits.
pub open spec fn lexical_list(
    chunks: Seq<HitView>,
    matches: Seq<LexicalMatchView>,
    limit: usize,
) -> Seq<HitView> {
    ranked_list(chunks, match_places(chunks, matches), limit)
}

/// Find the first chunk that holds a line of the file that a path leads to, given the name
/// of each chunk's file.
pub fn find_chunk(chunks: &[Hit], names: &[String], path: &str, line: u32) -> (r: Option<usize>)
    requires
        names@.len() == chunks@.len(),
    ensures
        place_view(r) == place_before(
            store::hit_views(chunks@),
            text::views(names@),
            path@,
            line,
            chunks@.len(),
        ),
        r is Some ==> r->0 < chunks@.len(),
{
    let ghost all = store::hit_views(chunks@);
    let ghost files = text::views(names@);
    let mut i: usize = 0;
    while i < chunks.len()
        invariant
            i <= chunks@.len(),
            names@.len() == chunks@.len(),
            all == store::hit_views(chunks@),
            files == text::views(names@),
            place_before(all, files, path@, line, i as nat) is None,
        decreases chunks@.len() - i,
    {
        assert(all[i as int] == chunks@[i as int]@);
        let chunk = &chunks[i].chunk;
        let name = names[i].as_str();
        if chunk.start_line <= line && line <= chunk.end_line && (text::str_eq(path, name)
            || text::has_suffix(path, text::concat2("/", name).as_str())) {
            proof {
                assert(place_before(all, files, path@, line, (i + 1) as nat) == Some(i as int));
                lemma_place_stays(all, files, path@, line, (i + 1) as nat, chunks@.len());
            }
            return Some(i);
        }
        i = i + 1;
    }
    None
}

proof fn lemma_place_stays(
    chunks: Seq<HitView>,
    names: Seq<Seq<char>>,
    path: Seq<char>,
    line: u32,
    n: nat,
    m: nat,
)
    requires
        n <= m,
        place_before(chunks, names, path, line, n) is Some,
    ensures
        place_before(chunks, names, path, line, m) == place_before(chunks, names, path, line, n),
    decreases m,
{
    if n < m {
        lemma_place_stays(chunks, names, path, line, n, (m - 1) as nat);
    }
}

/// A place as an index.
pub open spec fn place_view(place: Option<usize>) -> Option<int> {
    match place {
        Some(index) => Some(index as int),
        None => None,
    }
}

pub open spec fn place_views(places: Seq<Option<usize>>) -> Seq<Option<int>> {
    places.map_values(|place: Option<usize>| place_view(place))
}

/// The places are chunks.
pub open spec fn places_fit(places: Seq<Option<usize>>, count: nat) -> bool {
    forall|i: int| 0 <= i < places.len() && (#[trigger] places[i]) is Some ==> places[i]->0 < count
}

fn lowercase_paths(chunks: &[Hit]) -> (r: Vec<String>)
    ensures
        text::views(r@) == lowered_paths(store::hit_views(chunks@)),
{
    let ghost all = lowered_paths(store::hit_views(chunks@));
    let mut out: Vec<String> = Vec::new();
    let mut i: usize = 0;
    while i < chunks.len()
        invariant
            i <= chunks@.len(),
            all == lowered_paths(store::hit_views(chunks@)),
            out@.len() == i,
            forall|k: int| 0 <= k < i ==> (#[trigger] out@[k])@ == all[k],
        decreases chunks@.len() - i,
    {
        out.push(unicode::to_lowercase(chunks[i].chunk.relative_file_path.as_str()));
        i = i + 1;
    }
    assert(text::views(out@) =~= all);
    out
}

fn count_places(count: usize, places: &[Option<usize>]) -> (r: Vec<u32>)
    requires
        places@.len() <= u32::MAX,
        places_fit(places@, count as nat),
    ensures
        r@.len() == count,
        forall|i: int|
            0 <= i < r@.len() ==> #[trigger] r@[i] == place_count(place_views(places@), i),
{
    let ghost list = place_views(places@);
    let mut counts: Vec<u32> = Vec::new();
    while counts.len() < count
        invariant
            counts@.len() <= count,
            forall|k: int| 0 <= k < counts@.len() ==> counts@[k] == 0,
        decreases count - counts@.len(),
    {
        counts.push(0);
    }
    let mut i: usize = 0;
    assert(list.take(0) =~= seq![]);
    while i < places.len()
        invariant
            i <= places@.len() <= u32::MAX,
            places_fit(places@, count as nat),
            list == place_views(places@),
            counts@.len() == count,
            forall|k: int|
                0 <= k < counts@.len() ==> #[trigger] counts@[k] == place_count(
                    list.take(i as int),
                    k,
                ) && counts@[k] <= i,
        decreases places@.len() - i,
    {
        let ghost before = counts@;
        proof {
            let next = list.take(i + 1);
            assert(next.drop_last() =~= list.take(i as int));
            assert(next.last() == place_view(places@[i as int]));
        }
        if let Some(index) = places[i] {
            assert(places@[i as int] == Some(index));
            let seen: u32 = counts[index];
            counts.set(index, seen + 1);
        }
        proof {
            assert forall|k: int| 0 <= k < counts@.len() implies #[trigger] counts@[k]
                == place_count(list.take(i + 1), k) && counts@[k] <= i + 1 by {
                assert(before[k] == place_count(list.take(i as int), k));
            }
        }
        i = i + 1;
    }
    assert(list.take(list.len() as int) =~= list);
    counts
}

/// A chunk with how many matches belong to it.
struct Counted {
    index: usize,
    count: u32,
}

impl Ranked for Counted {
    closed spec fn below(self, other: Self) -> bool {
        self.count > other.count
    }

    proof fn asymmetric(a: Self, b: Self) {
    }

    proof fn weakly_ordered(a: Self, b: Self, c: Self) {
    }

    fn is_below(&self, other: &Self) -> (r: bool) {
        self.count > other.count
    }
}

/// A counted chunk as it is: the pair of its index and its count.
spec fn counted_pair(counted: Counted) -> (int, nat) {
    (counted.index as int, counted.count as nat)
}

spec fn pair_before() -> spec_fn((int, nat), (int, nat)) -> bool {
    |a: (int, nat), b: (int, nat)| a.1 > b.1
}

spec fn with_counts(places: Seq<Option<int>>, indexes: Seq<int>) -> Seq<(int, nat)> {
    indexes.map_values(|i: int| (i, place_count(places, i)))
}

proof fn lemma_counts_sort(places: Seq<Option<int>>, indexes: Seq<int>)
    ensures
        with_counts(places, order::sorted_by(indexes, by_place_count(places))) == order::sorted_by(
            with_counts(places, indexes),
            pair_before(),
        ),
{
    order::lemma_sorted_maps(
        indexes,
        |i: int| (i, place_count(places, i)),
        by_place_count(places),
        pair_before(),
    );
}

fn rank_counts(count: usize, places: &[Option<usize>]) -> (r: Vec<Counted>)
    requires
        places@.len() <= u32::MAX,
        places_fit(places@, count as nat),
    ensures
        ({
            let list = place_views(places@);
            let ranked = ranked_chunks(list, count as nat);
            &&& r@.len() == ranked.len()
            &&& forall|i: int|
                0 <= i < r@.len() ==> {
                    &&& (#[trigger] r@[i]).index == ranked[i]
                    &&& r@[i].count == place_count(list, ranked[i])
                    &&& r@[i].index < count
                }
        }),
{
    let counts = count_places(count, places);
    let ghost list = place_views(places@);
    let mut found: Vec<Counted> = Vec::new();
    let mut i: usize = 0;
    while i < counts.len()
        invariant
            i <= counts@.len(),
            counts@.len() == count,
            forall|k: int|
                0 <= k < counts@.len() ==> #[trigger] counts@[k] == place_count(list, k),
            found@.len() == placed_chunks(list, i as nat).len(),
            forall|k: int|
                0 <= k < found@.len() ==> {
                    &&& (#[trigger] found@[k]).index == placed_chunks(list, i as nat)[k]
                    &&& found@[k].count == place_count(list, placed_chunks(list, i as nat)[k])
                    &&& found@[k].index < i
                },
        decreases counts@.len() - i,
    {
        let seen: u32 = counts[i];
        if seen > 0 {
            found.push(Counted { index: i, count: seen });
        }
        i = i + 1;
    }
    let ghost unsorted = found@;
    let sorted = order::sort(found);
    proof {
        let indexes = placed_chunks(list, count as nat);
        let pairs = with_counts(list, indexes);
        assert(unsorted.map_values(|c: Counted| counted_pair(c)) =~= pairs);
        order::lemma_sorted_maps(
            unsorted,
            |c: Counted| counted_pair(c),
            order::rank::<Counted>(),
            pair_before(),
        );
        lemma_counts_sort(list, indexes);
        let ranked = ranked_chunks(list, count as nat);
        let views = sorted@.map_values(|c: Counted| counted_pair(c));
        assert(views == with_counts(list, ranked));
        order::lemma_rank_is_an_order::<Counted>();
        order::law_sorting_orders_the_items(unsorted, order::rank::<Counted>());
        assert forall|k: int| 0 <= k < sorted@.len() implies {
            &&& (#[trigger] sorted@[k]).index == ranked[k]
            &&& sorted@[k].count == place_count(list, ranked[k])
            &&& sorted@[k].index < count
        } by {
            assert(views[k] == counted_pair(sorted@[k]));
            assert(with_counts(list, ranked)[k] == (ranked[k], place_count(list, ranked[k])));
            assert(sorted@.contains(sorted@[k]));
            order::lemma_sorted_contains(unsorted, order::rank::<Counted>(), sorted@[k]);
            let m = choose|m: int| 0 <= m < unsorted.len() && unsorted[m] == sorted@[k];
            assert(unsorted[m].index < count);
        }
        assert(views.len() == ranked.len());
    }
    sorted
}

/// Rank the chunks that lexical matches lie in by how many lie in each, given the chunk
/// that each match lies in.
pub fn rank_matches(chunks: &[Hit], places: &[Option<usize>], limit: usize) -> (r: Vec<Hit>)
    requires
        places@.len() <= u32::MAX,
        places_fit(places@, chunks@.len()),
    ensures
        store::hit_views(r@) == ranked_list(
            store::hit_views(chunks@),
            place_views(places@),
            limit,
        ),
{
    let ranked = rank_counts(chunks.len(), places);
    let ghost all = store::hit_views(chunks@);
    let ghost list = place_views(places@);
    let ghost indexes = ranked_chunks(list, all.len());
    let ghost kept = first_of(indexes, limit);
    let mut out: Vec<Hit> = Vec::new();
    let mut i: usize = 0;
    while i < ranked.len() && i < limit
        invariant
            i <= ranked@.len(),
            i <= limit,
            all == store::hit_views(chunks@),
            indexes == ranked_chunks(list, all.len()),
            kept == first_of(indexes, limit),
            ranked@.len() == indexes.len(),
            forall|k: int|
                0 <= k < ranked@.len() ==> {
                    &&& (#[trigger] ranked@[k]).index == indexes[k]
                    &&& ranked@[k].count == place_count(list, indexes[k])
                    &&& ranked@[k].index < chunks@.len()
                },
            out@.len() == i,
            forall|k: int|
                0 <= k < i ==> (#[trigger] out@[k])@ == ranked_list(all, list, limit)[k],
        decreases ranked@.len() - i,
    {
        let index: usize = ranked[i].index;
        let mut hit = chunks[index].clone();
        let ghost plain = hit@;
        hit.lexical_rank = Some(i + 1);
        hit.lexical_match_count = ranked[i].count;
        hit.retrieval_channels.push("lexical".to_owned());
        proof {
            assert(all[index as int] == plain);
            assert(text::views(hit.retrieval_channels@) =~= plain.retrieval_channels.push(
                "lexical"@,
            ));
            assert(kept[i as int] == indexes[i as int]);
            assert(hit@ == as_lexical(plain, (i + 1) as usize, ranked@[i as int].count));
            assert(hit@ == ranked_list(all, list, limit)[i as int]);
        }
        out.push(hit);
        i = i + 1;
    }
    assert(store::hit_views(out@) =~= ranked_list(all, list, limit));
    out
}

/// Map lexical matches onto the chunks that contain them, ranked by how many matches
/// fall within each chunk.
pub fn map_lexical_matches(chunks: &[Hit], matches: &[LexicalMatch], limit: usize) -> (r: Vec<Hit>)
    requires
        matches@.len() <= u32::MAX,
    ensures
        store::hit_views(r@) == lexical_list(
            store::hit_views(chunks@),
            lexical::match_views(matches@),
            limit,
        ),
{
    let names = lowercase_paths(chunks);
    let ghost all = store::hit_views(chunks@);
    let ghost wanted = match_places(all, lexical::match_views(matches@));
    let mut places: Vec<Option<usize>> = Vec::new();
    let mut i: usize = 0;
    assert(text::views(names@).len() == all.len());
    while i < matches.len()
        invariant
            i <= matches@.len(),
            names@.len() == chunks@.len(),
            all == store::hit_views(chunks@),
            text::views(names@) == lowered_paths(all),
            wanted == match_places(all, lexical::match_views(matches@)),
            places@.len() == i,
            places_fit(places@, chunks@.len()),
            forall|k: int| 0 <= k < i ==> place_view(#[trigger] places@[k]) == wanted[k],
        decreases matches@.len() - i,
    {
        let unified = text::replace_char(matches[i].relative_path.as_str(), '\\', '/');
        let path = unicode::to_lowercase(unified.as_str());
        places.push(find_chunk(chunks, &names, path.as_str(), matches[i].line));
        i = i + 1;
    }
    assert(place_views(places@) =~= wanted);
    rank_matches(chunks, &places, limit)
}

proof fn lemma_place_count(places: Seq<Option<int>>, index: int)
    ensures
        place_count(places, index) <= places.len(),
    decreases places.len(),
{
    if places.len() > 0 {
        lemma_place_count(places.drop_last(), index);
    }
}

proof fn lemma_placed_chunks(places: Seq<Option<int>>, n: nat)
    ensures
        forall|k: int|
            0 <= k < placed_chunks(places, n).len() ==> place_count(
                places,
                #[trigger] placed_chunks(places, n)[k],
            ) > 0,
    decreases n,
{
    if n > 0 {
        lemma_placed_chunks(places, (n - 1) as nat);
        let before = placed_chunks(places, (n - 1) as nat);
        let all = placed_chunks(places, n);
        assert forall|k: int| 0 <= k < all.len() implies place_count(places, #[trigger] all[k])
            > 0 by {
            if k < before.len() {
                assert(all[k] == before[k]);
            }
        }
    }
}

/// At most `limit` chunks are lexical hits, each of them with a match, and none with more
/// matches than one in front of it.
pub proof fn law_lexical_hits_are_ranked(
    chunks: Seq<HitView>,
    places: Seq<Option<int>>,
    limit: usize,
)
    requires
        places.len() <= u32::MAX,
    ensures
        ({
            let hits = ranked_list(chunks, places, limit);
            &&& hits.len() <= limit
            &&& forall|k: int|
                0 <= k < hits.len() ==> (#[trigger] hits[k]).lexical_match_count > 0
                    && hits[k].lexical_rank == Some((k + 1) as usize)
            &&& forall|a: int, b: int|
                0 <= a < b < hits.len() ==> (#[trigger] hits[b]).lexical_match_count <= (
                #[trigger] hits[a]).lexical_match_count
        }),
{
    let hits = ranked_list(chunks, places, limit);
    let found = placed_chunks(places, chunks.len());
    let before = by_place_count(places);
    let ranked = order::sorted_by(found, before);
    let kept = first_of(ranked, limit);
    assert(order::is_order(before));
    order::law_sorting_orders_the_items(found, before);
    lemma_placed_chunks(places, chunks.len());
    assert forall|k: int| 0 <= k < hits.len() implies (#[trigger] hits[k]).lexical_match_count > 0
        && hits[k].lexical_match_count == place_count(places, ranked[k]) by {
        assert(kept[k] == ranked[k]);
        assert(ranked.contains(ranked[k]));
        order::lemma_sorted_contains(found, before, ranked[k]);
        let m = choose|m: int| 0 <= m < found.len() && found[m] == ranked[k];
        assert(place_count(places, found[m]) > 0);
        lemma_place_count(places, ranked[k]);
    }
    assert forall|a: int, b: int| 0 <= a < b < hits.len() implies (
    #[trigger] hits[b]).lexical_match_count <= (#[trigger] hits[a]).lexical_match_count by {
        assert(!before(ranked[b], ranked[a]));
    }
}

// ---------------------------------------------------------------------------
// Language-server locations
// ---------------------------------------------------------------------------

/// A location lies in a chunk of the same language. Case does not matter in ASCII
/// paths.
pub open spec fn location_in(hit: HitView, location: Location) -> bool {
    &&& location.relative_file_path is Some
    &&& location.language is Some
    &&& location.language->0@ == hit.chunk.language
    &&& text::ascii_lowered(hit.chunk.relative_file_path) == text::ascii_lowered(
        location.relative_file_path->0@,
    )
    &&& has_line(hit, location.start_line)
}

/// The first chunk that a location lies in.
pub open spec fn location_index(chunks: Seq<HitView>, location: Location) -> Option<int>
    decreases chunks.len(),
{
    if chunks.len() == 0 {
        None
    } else {
        match location_index(chunks.drop_last(), location) {
            Some(i) => Some(i),
            None => if location_in(chunks.last(), location) {
                Some(chunks.len() - 1)
            } else {
                None
            },
        }
    }
}

/// The chunks that locations lie in, in the order in which they are first seen.
pub open spec fn located_chunks(chunks: Seq<HitView>, locations: Seq<Location>) -> Seq<int>
    decreases locations.len(),
{
    if locations.len() == 0 {
        seq![]
    } else {
        let before = located_chunks(chunks, locations.drop_last());
        match location_index(chunks, locations.last()) {
            Some(i) => if before.contains(i) {
                before
            } else {
                before.push(i)
            },
            None => before,
        }
    }
}

/// A chunk as a language-server hit.
pub open spec fn as_lsp(hit: HitView, rank: usize) -> HitView {
    HitView {
        lsp_rank: Some(rank),
        retrieval_channels: hit.retrieval_channels.push("lsp"@),
        ..hit
    }
}

/// The language-server hits, ranked from one.
pub open spec fn lsp_list(
    chunks: Seq<HitView>,
    locations: Seq<Location>,
    limit: usize,
) -> Seq<HitView> {
    let kept = first_of(located_chunks(chunks, locations), limit);
    Seq::new(kept.len(), |rank: int| as_lsp(chunks[kept[rank]], (rank + 1) as usize))
}

proof fn lemma_location_index(chunks: Seq<HitView>, location: Location, i: int)
    requires
        0 <= i < chunks.len(),
        location_in(chunks[i], location),
        forall|k: int| 0 <= k < i ==> !location_in(#[trigger] chunks[k], location),
    ensures
        location_index(chunks, location) == Some(i),
    decreases chunks.len(),
{
    let rest = chunks.drop_last();
    if i < chunks.len() - 1 {
        assert(rest[i] == chunks[i]);
        assert forall|k: int| 0 <= k < i implies !location_in(#[trigger] rest[k], location) by {
            assert(rest[k] == chunks[k]);
        }
        lemma_location_index(rest, location, i);
    } else {
        assert forall|k: int| 0 <= k < rest.len() implies !location_in(
            #[trigger] rest[k],
            location,
        ) by {
            assert(rest[k] == chunks[k]);
        }
        lemma_no_location_index(rest, location);
    }
}

proof fn lemma_no_location_index(chunks: Seq<HitView>, location: Location)
    requires
        forall|k: int| 0 <= k < chunks.len() ==> !location_in(#[trigger] chunks[k], location),
    ensures
        location_index(chunks, location) is None,
    decreases chunks.len(),
{
    if chunks.len() > 0 {
        let rest = chunks.drop_last();
        assert forall|k: int| 0 <= k < rest.len() implies !location_in(
            #[trigger] rest[k],
            location,
        ) by {
            assert(rest[k] == chunks[k]);
        }
        lemma_no_location_index(rest, location);
        assert(!location_in(chunks[chunks.len() - 1], location));
    }
}

fn lies_in(hit: &Hit, location: &Location) -> (r: bool)
    ensures
        r == location_in(hit@, *location),
{
    let (path, language) = match (&location.relative_file_path, &location.language) {
        (Some(path), Some(language)) => (path, language),
        _ => {
            return false;
        },
    };
    text::str_eq(language.as_str(), hit.chunk.language.as_str()) && text::eq_ignore_ascii_case(
        hit.chunk.relative_file_path.as_str(),
        path.as_str(),
    ) && hit.chunk.start_line <= location.start_line && location.start_line <= hit.chunk.end_line
}

fn find_location(chunks: &[Hit], location: &Location) -> (r: Option<usize>)
    ensures
        match r {
            Some(i) => i < chunks@.len() && location_index(store::hit_views(chunks@), *location)
                == Some(i as int),
            None => location_index(store::hit_views(chunks@), *location) is None,
        },
{
    let ghost all = store::hit_views(chunks@);
    let mut i: usize = 0;
    while i < chunks.len()
        invariant
            i <= chunks@.len(),
            all == store::hit_views(chunks@),
            forall|k: int| 0 <= k < i ==> !location_in(#[trigger] all[k], *location),
        decreases chunks@.len() - i,
    {
        assert(all[i as int] == chunks@[i as int]@);
        if lies_in(&chunks[i], location) {
            proof {
                lemma_location_index(all, *location, i as int);
            }
            return Some(i);
        }
        i = i + 1;
    }
    proof {
        lemma_no_location_index(all, *location);
    }
    None
}

fn has_index(list: &[usize], wanted: usize) -> (r: bool)
    ensures
        r == list@.contains(wanted),
{
    let mut i: usize = 0;
    while i < list.len()
        invariant
            i <= list@.len(),
            forall|k: int| 0 <= k < i ==> list@[k] != wanted,
        decreases list@.len() - i,
    {
        if list[i] == wanted {
            assert(list@.contains(list@[i as int]));
            return true;
        }
        i = i + 1;
    }
    false
}

fn locate(chunks: &[Hit], locations: &[Location]) -> (r: Vec<usize>)
    ensures
        r@.map_values(|i: usize| i as int) == located_chunks(
            store::hit_views(chunks@),
            locations@,
        ),
        forall|k: int| 0 <= k < r@.len() ==> #[trigger] r@[k] < chunks@.len(),
{
    let ghost all = store::hit_views(chunks@);
    let ghost plain = |i: usize| i as int;
    let mut out: Vec<usize> = Vec::new();
    let mut i: usize = 0;
    proof {
        assert(locations@.take(0) =~= seq![]);
        assert(out@.map_values(plain) =~= seq![]);
    }
    while i < locations.len()
        invariant
            i <= locations@.len(),
            all == store::hit_views(chunks@),
            plain == (|i: usize| i as int),
            out@.map_values(plain) == located_chunks(all, locations@.take(i as int)),
            forall|k: int| 0 <= k < out@.len() ==> #[trigger] out@[k] < chunks@.len(),
        decreases locations@.len() - i,
    {
        proof {
            let next = locations@.take(i + 1);
            assert(next.drop_last() =~= locations@.take(i as int));
            assert(next.last() == locations@[i as int]);
        }
        if let Some(index) = find_location(chunks, &locations[i]) {
            let ghost seen = out@.map_values(plain);
            proof {
                if out@.contains(index) {
                    let k = choose|k: int| 0 <= k < out@.len() && out@[k] == index;
                    assert(seen[k] == index as int);
                }
                if seen.contains(index as int) {
                    let k = choose|k: int| 0 <= k < seen.len() && seen[k] == index as int;
                    assert(out@[k] == index);
                }
            }
            if !has_index(&out, index) {
                out.push(index);
                assert(out@.map_values(plain) =~= seen.push(index as int));
            }
        }
        i = i + 1;
    }
    assert(locations@.take(locations@.len() as int) =~= locations@);
    out
}

/// Map language-server locations onto the same-language chunks that contain them,
/// preserving first-seen order.
pub fn map_lsp_locations(chunks: &[Hit], locations: &[Location], limit: usize) -> (r: Vec<Hit>)
    ensures
        store::hit_views(r@) == lsp_list(store::hit_views(chunks@), locations@, limit),
{
    let places = locate(chunks, locations);
    let ghost all = store::hit_views(chunks@);
    let ghost found = located_chunks(all, locations@);
    let ghost kept = first_of(found, limit);
    let mut out: Vec<Hit> = Vec::new();
    let mut i: usize = 0;
    while i < places.len() && i < limit
        invariant
            i <= places@.len(),
            i <= limit,
            all == store::hit_views(chunks@),
            found == located_chunks(all, locations@),
            kept == first_of(found, limit),
            places@.map_values(|i: usize| i as int) == found,
            forall|k: int| 0 <= k < places@.len() ==> #[trigger] places@[k] < chunks@.len(),
            out@.len() == i,
            forall|k: int|
                0 <= k < i ==> (#[trigger] out@[k])@ == lsp_list(all, locations@, limit)[k],
        decreases places@.len() - i,
    {
        let index: usize = places[i];
        let mut hit = chunks[index].clone();
        let ghost plain = hit@;
        hit.lsp_rank = Some(i + 1);
        hit.retrieval_channels.push("lsp".to_owned());
        proof {
            assert(all[index as int] == plain);
            assert(text::views(hit.retrieval_channels@) =~= plain.retrieval_channels.push("lsp"@));
            assert(found[i as int] == index as int);
            assert(kept[i as int] == found[i as int]);
            assert(hit@ == lsp_list(all, locations@, limit)[i as int]);
        }
        out.push(hit);
        i = i + 1;
    }
    proof {
        assert(found.len() == places@.len());
        assert(store::hit_views(out@) =~= lsp_list(all, locations@, limit));
    }
    out
}

proof fn lemma_location_found(chunks: Seq<HitView>, location: Location)
    ensures
        location_index(chunks, location) matches Some(i) ==> 0 <= i < chunks.len() && location_in(
            chunks[i],
            location,
        ),
    decreases chunks.len(),
{
    if chunks.len() > 0 {
        lemma_location_found(chunks.drop_last(), location);
    }
}

proof fn lemma_located_chunks(chunks: Seq<HitView>, locations: Seq<Location>, k: int)
    requires
        0 <= k < located_chunks(chunks, locations).len(),
    ensures
        exists|i: int|
            0 <= i < locations.len() && location_in(
                chunks[located_chunks(chunks, locations)[k]],
                #[trigger] locations[i],
            ),
    decreases locations.len(),
{
    let rest = locations.drop_last();
    let before = located_chunks(chunks, rest);
    if k < before.len() {
        lemma_located_chunks(chunks, rest, k);
        let i = choose|i: int|
            0 <= i < rest.len() && location_in(chunks[before[k]], #[trigger] rest[i]);
        assert(location_in(chunks[located_chunks(chunks, locations)[k]], locations[i]));
    } else {
        lemma_location_found(chunks, locations.last());
        assert(location_in(
            chunks[located_chunks(chunks, locations)[k]],
            locations[locations.len() - 1],
        ));
    }
}

/// Each language-server hit holds a location in its file and in its own language, and
/// there are at most `limit` of them.
pub proof fn law_locations_map_to_their_language(
    chunks: Seq<HitView>,
    locations: Seq<Location>,
    limit: usize,
    rank: int,
)
    requires
        0 <= rank < lsp_list(chunks, locations, limit).len(),
    ensures
        exists|i: int|
            0 <= i < locations.len() && location_in(
                lsp_list(chunks, locations, limit)[rank],
                #[trigger] locations[i],
            ),
        lsp_list(chunks, locations, limit).len() <= limit,
{
    let found = located_chunks(chunks, locations);
    assert(first_of(found, limit)[rank] == found[rank]);
    lemma_located_chunks(chunks, locations, rank);
    let i = choose|i: int|
        0 <= i < locations.len() && location_in(chunks[found[rank]], #[trigger] locations[i]);
    assert(location_in(lsp_list(chunks, locations, limit)[rank], locations[i]));
}

// ---------------------------------------------------------------------------
// What hits mean
// ---------------------------------------------------------------------------

/// A chunk holds the line of a match, in the file that the path of the match leads to: they
/// are the same in lower case, or the path ends in the file behind a slash.
pub open spec fn holds_match(hit: HitView, found: LexicalMatchView) -> bool {
    let path = unicode::lowercase(text::replaced(found.relative_path, '\\', '/'));
    let name = unicode::lowercase(hit.chunk.relative_file_path);
    &&& hit.chunk.start_line <= found.line
    &&& found.line <= hit.chunk.end_line
    &&& path == name || path.len() > name.len() && path.skip(path.len() - name.len() - 1)
        == seq!['/'] + name
}

proof fn lemma_place_before(chunks: Seq<HitView>, found: LexicalMatchView, n: nat)
    requires
        n <= chunks.len(),
    ensures
        ({
            let place = place_before(
                chunks,
                lowered_paths(chunks),
                unicode::lowercase(text::replaced(found.relative_path, '\\', '/')),
                found.line,
                n,
            );
            match place {
                Some(i) => 0 <= i < n && holds_match(chunks[i], found) && forall|k: int|
                    0 <= k < i ==> !holds_match(#[trigger] chunks[k], found),
                None => forall|k: int| 0 <= k < n ==> !holds_match(#[trigger] chunks[k], found),
            }
        }),
    decreases n,
{
    if n > 0 {
        lemma_place_before(chunks, found, (n - 1) as nat);
        reveal_strlit("/");
        let path = unicode::lowercase(text::replaced(found.relative_path, '\\', '/'));
        let name = lowered_paths(chunks)[n - 1];
        let end = "/"@ + name;
        assert(end =~= seq!['/'] + name);
        if path.len() > name.len() {
            assert(path.subrange(path.len() - end.len(), path.len() as int) =~= path.skip(
                path.len() - name.len() - 1,
            ));
        }
        assert(leads_to(path, name) && has_line(chunks[n - 1], found.line) <==> holds_match(
            chunks[n - 1],
            found,
        ));
    }
}

/// A match belongs to the first chunk of its file that holds its line, if there is one.
pub proof fn law_a_match_belongs_to_the_first_chunk_with_its_line(
    chunks: Seq<HitView>,
    found: LexicalMatchView,
)
    ensures
        match match_place(chunks, found) {
            Some(i) => 0 <= i < chunks.len() && holds_match(chunks[i], found) && forall|k: int|
                0 <= k < i ==> !holds_match(#[trigger] chunks[k], found),
            None => forall|k: int|
                0 <= k < chunks.len() ==> !holds_match(#[trigger] chunks[k], found),
        },
{
    lemma_place_before(chunks, found, chunks.len());
}

/// How many matches belong to a chunk.
pub open spec fn belonging(places: Seq<Option<int>>, index: int) -> nat {
    places.filter(|place: Option<int>| place == Some(index)).len()
}

proof fn lemma_place_count_is_filtered(places: Seq<Option<int>>, index: int)
    ensures
        place_count(places, index) == belonging(places, index),
    decreases places.len(),
{
    reveal(Seq::filter);
    if places.len() > 0 {
        lemma_place_count_is_filtered(places.drop_last(), index);
    }
}

proof fn lemma_placed_ascend(places: Seq<Option<int>>, n: nat)
    ensures
        forall|a: int, b: int|
            0 <= a < b < placed_chunks(places, n).len() ==> (#[trigger] placed_chunks(
                places,
                n,
            )[a]) < (#[trigger] placed_chunks(places, n)[b]),
        forall|k: int|
            0 <= k < placed_chunks(places, n).len() ==> 0 <= (#[trigger] placed_chunks(
                places,
                n,
            )[k]) < n,
        forall|c: int|
            0 <= c < n && place_count(places, c) > 0 ==> #[trigger] placed_chunks(
                places,
                n,
            ).contains(c),
    decreases n,
{
    if n > 0 {
        let m = (n - 1) as nat;
        lemma_placed_ascend(places, m);
        let (before, out) = (placed_chunks(places, m), placed_chunks(places, n));
        assert forall|k: int| 0 <= k < out.len() implies 0 <= (#[trigger] out[k]) < n by {
            if k < before.len() {
                assert(out[k] == before[k]);
            }
        }
        assert forall|a: int, b: int| 0 <= a < b < out.len() implies (#[trigger] out[a]) < (
        #[trigger] out[b]) by {
            assert(out[a] == before[a]);
            if b < before.len() {
                assert(out[b] == before[b]);
            }
        }
        assert forall|c: int|
            0 <= c < n && place_count(places, c) > 0 implies #[trigger] out.contains(c) by {
            if c < m {
                assert(before.contains(c));
                let k = choose|k: int| 0 <= k < before.len() && before[k] == c;
                assert(out[k] == c);
            } else {
                assert(out[out.len() - 1] == c);
            }
        }
    }
}

/// Lexical hits are the chunks that matches belong to: each once, with the number of its
/// matches and its rank from one, those with more matches first, and those with equally many
/// as the chunks stand. A chunk with a match is left out only where the list is full of
/// chunks that stand before it.
pub proof fn law_lexical_hits_are_the_chunks_with_matches(
    chunks: Seq<HitView>,
    places: Seq<Option<int>>,
    limit: usize,
) -> (found: Seq<int>)
    requires
        places.len() <= u32::MAX,
    ensures
        ({
            let hits = ranked_list(chunks, places, limit);
            &&& hits.len() <= limit
            &&& found.len() == hits.len()
            &&& forall|k: int|
                0 <= k < found.len() ==> {
                    &&& 0 <= (#[trigger] found[k]) < chunks.len()
                    &&& belonging(places, found[k]) > 0
                    &&& hits[k] == (HitView {
                        lexical_rank: Some((k + 1) as usize),
                        lexical_match_count: belonging(places, found[k]) as u32,
                        retrieval_channels: chunks[found[k]].retrieval_channels.push("lexical"@),
                        ..chunks[found[k]]
                    })
                }
            &&& forall|a: int, b: int|
                0 <= a < b < found.len() ==> belonging(places, #[trigger] found[a]) > belonging(
                    places,
                    #[trigger] found[b],
                ) || belonging(places, found[a]) == belonging(places, found[b]) && found[a]
                    < found[b]
            &&& forall|c: int|
                0 <= c < chunks.len() && belonging(places, c) > 0 ==> #[trigger] found.contains(c)
                    || found.len() == limit && forall|k: int|
                    0 <= k < found.len() ==> belonging(places, #[trigger] found[k]) > belonging(
                        places,
                        c,
                    ) || belonging(places, found[k]) == belonging(places, c) && found[k] < c
        }),
{
    let all = placed_chunks(places, chunks.len());
    let before = by_place_count(places);
    let earlier = |a: int, b: int| a < b;
    let ranked = order::sorted_by(all, before);
    let found = first_of(ranked, limit);
    let hits = ranked_list(chunks, places, limit);
    assert(order::is_order(before));
    lemma_placed_ascend(places, chunks.len());
    lemma_placed_chunks(places, chunks.len());
    order::law_sorting_is_stable(all, before, earlier);
    assert forall|c: int| #[trigger] belonging(places, c) == place_count(places, c) by {
        lemma_place_count_is_filtered(places, c);
    }
    assert forall|k: int| 0 <= k < ranked.len() implies 0 <= (#[trigger] ranked[k]) < chunks.len()
        && belonging(places, ranked[k]) > 0 by {
        assert(ranked.contains(ranked[k]));
        order::lemma_sorted_contains(all, before, ranked[k]);
        let m = choose|m: int| 0 <= m < all.len() && all[m] == ranked[k];
        assert(place_count(places, all[m]) > 0);
    }
    assert forall|a: int, b: int| 0 <= a < b < ranked.len() implies belonging(
        places,
        #[trigger] ranked[a],
    ) > belonging(places, #[trigger] ranked[b]) || belonging(places, ranked[a]) == belonging(
        places,
        ranked[b],
    ) && ranked[a] < ranked[b] by {
        assert(before(ranked[a], ranked[b]) || (!before(ranked[b], ranked[a]) && earlier(
            ranked[a],
            ranked[b],
        )));
    }
    assert forall|k: int| 0 <= k < found.len() implies found[k] == #[trigger] ranked[k] by {}
    assert forall|c: int|
        0 <= c < chunks.len() && belonging(places, c) > 0 implies #[trigger] found.contains(c)
        || found.len() == limit && forall|k: int|
        0 <= k < found.len() ==> belonging(places, #[trigger] found[k]) > belonging(places, c)
            || belonging(places, found[k]) == belonging(places, c) && found[k] < c by {
        assert(all.contains(c));
        order::lemma_sorted_contains(all, before, c);
        let at = choose|at: int| 0 <= at < ranked.len() && ranked[at] == c;
        if at < found.len() {
            assert(found[at] == c);
        } else {
            assert forall|k: int| 0 <= k < found.len() implies belonging(
                places,
                #[trigger] found[k],
            ) > belonging(places, c) || belonging(places, found[k]) == belonging(places, c)
                && found[k] < c by {
                assert(found[k] == ranked[k]);
                assert(belonging(places, ranked[k]) > belonging(places, ranked[at]) || belonging(
                    places,
                    ranked[k],
                ) == belonging(places, ranked[at]) && ranked[k] < ranked[at]);
            }
        }
    }
    assert forall|k: int| 0 <= k < found.len() implies {
        &&& 0 <= (#[trigger] found[k]) < chunks.len()
        &&& belonging(places, found[k]) > 0
        &&& hits[k] == (HitView {
            lexical_rank: Some((k + 1) as usize),
            lexical_match_count: belonging(places, found[k]) as u32,
            retrieval_channels: chunks[found[k]].retrieval_channels.push("lexical"@),
            ..chunks[found[k]]
        })
    } by {
        assert(found[k] == ranked[k]);
    }
    found
}

/// A chunk holds the line of a location, in its file and in its language. Case does not
/// matter in ASCII paths.
pub open spec fn holds_location(hit: HitView, location: Location) -> bool {
    location.relative_file_path matches Some(path) && location.language matches Some(language)
        && language@ == hit.chunk.language && text::ascii_lowered(path@) == text::ascii_lowered(
        hit.chunk.relative_file_path,
    ) && hit.chunk.start_line <= location.start_line && location.start_line <= hit.chunk.end_line
}

/// A location belongs to the first chunk that holds it, if there is one.
pub proof fn law_a_location_belongs_to_the_first_chunk_with_its_line(
    chunks: Seq<HitView>,
    location: Location,
)
    ensures
        match location_index(chunks, location) {
            Some(i) => 0 <= i < chunks.len() && holds_location(chunks[i], location) && forall|
                k: int,
            |
                0 <= k < i ==> !holds_location(#[trigger] chunks[k], location),
            None => forall|k: int|
                0 <= k < chunks.len() ==> !holds_location(#[trigger] chunks[k], location),
        },
    decreases chunks.len(),
{
    if chunks.len() > 0 {
        let rest = chunks.drop_last();
        law_a_location_belongs_to_the_first_chunk_with_its_line(rest, location);
        let n = chunks.len() - 1;
        assert(forall|k: int| 0 <= k < n ==> rest[k] == #[trigger] chunks[k]);
        assert(location_in(chunks[n], location) <==> holds_location(chunks[n], location));
    }
}

/// Language-server hits are the chunks that locations belong to: each once, ranked from one,
/// in the order in which the locations name them. A chunk with a location is left out only
/// where the list is full.
pub proof fn law_language_server_hits_are_the_chunks_with_locations(
    chunks: Seq<HitView>,
    locations: Seq<Location>,
    limit: usize,
) -> (found: Seq<int>)
    ensures
        ({
            let hits = lsp_list(chunks, locations, limit);
            &&& hits.len() <= limit
            &&& found.len() == hits.len()
            &&& found.no_duplicates()
            &&& forall|k: int|
                0 <= k < found.len() ==> {
                    &&& 0 <= (#[trigger] found[k]) < chunks.len()
                    &&& hits[k] == (HitView {
                        lsp_rank: Some((k + 1) as usize),
                        retrieval_channels: chunks[found[k]].retrieval_channels.push("lsp"@),
                        ..chunks[found[k]]
                    })
                    &&& exists|i: int|
                        0 <= i < locations.len() && location_index(chunks, #[trigger] locations[i])
                            == Some(found[k])
                }
            &&& forall|i: int|
                0 <= i < locations.len() ==> (location_index(chunks, #[trigger] locations[i])
                    matches Some(c) ==> found.contains(c) || found.len() == limit)
        }),
{
    let all = located_chunks(chunks, locations);
    let found = first_of(all, limit);
    lemma_located(chunks, locations);
    assert forall|k: int| 0 <= k < found.len() implies {
        &&& 0 <= (#[trigger] found[k]) < chunks.len()
        &&& exists|i: int|
            0 <= i < locations.len() && location_index(chunks, #[trigger] locations[i]) == Some(
                found[k],
            )
    } by {
        assert(found[k] == all[k]);
    }
    assert forall|i: int| 0 <= i < locations.len() implies (location_index(
        chunks,
        #[trigger] locations[i],
    ) matches Some(c) ==> found.contains(c) || found.len() == limit) by {
        if let Some(c) = location_index(chunks, locations[i]) {
            assert(all.contains(c));
        }
    }
    found
}

proof fn lemma_located(chunks: Seq<HitView>, locations: Seq<Location>)
    ensures
        ({
            let all = located_chunks(chunks, locations);
            &&& all.no_duplicates()
            &&& forall|k: int|
                0 <= k < all.len() ==> {
                    &&& 0 <= (#[trigger] all[k]) < chunks.len()
                    &&& exists|i: int|
                        0 <= i < locations.len() && location_index(chunks, #[trigger] locations[i])
                            == Some(all[k])
                }
            &&& forall|i: int|
                0 <= i < locations.len() ==> (location_index(chunks, #[trigger] locations[i])
                    matches Some(c) ==> all.contains(c))
        }),
    decreases locations.len(),
{
    let all = located_chunks(chunks, locations);
    if locations.len() > 0 {
        let rest = locations.drop_last();
        lemma_located(chunks, rest);
        let before = located_chunks(chunks, rest);
        let n = locations.len() - 1;
        lemma_location_found(chunks, locations.last());
        assert forall|k: int| 0 <= k < all.len() implies {
            &&& 0 <= (#[trigger] all[k]) < chunks.len()
            &&& exists|i: int|
                0 <= i < locations.len() && location_index(chunks, #[trigger] locations[i])
                    == Some(all[k])
        } by {
            if k < before.len() {
                assert(all[k] == before[k]);
                let i = choose|i: int|
                    0 <= i < rest.len() && location_index(chunks, #[trigger] rest[i]) == Some(
                        before[k],
                    );
                assert(location_index(chunks, locations[i]) == Some(all[k]));
            } else {
                assert(location_index(chunks, locations[n]) == Some(all[k]));
            }
        }
        assert forall|i: int| 0 <= i < locations.len() implies (location_index(
            chunks,
            #[trigger] locations[i],
        ) matches Some(c) ==> all.contains(c)) by {
            if let Some(c) = location_index(chunks, locations[i]) {
                if i < n {
                    assert(location_index(chunks, rest[i]) == Some(c));
                    let k = choose|k: int| 0 <= k < before.len() && before[k] == c;
                    assert(all[k] == c);
                } else if !before.contains(c) {
                    assert(all[all.len() - 1] == c);
                }
            }
        }
    }
}

/// The chunks that locations name first are ranked first: a further location changes nothing
/// in front of its own chunk.
pub proof fn law_locations_are_ranked_as_they_come(
    chunks: Seq<HitView>,
    locations: Seq<Location>,
    next: Location,
    limit: usize,
)
    ensures
        lsp_list(chunks, locations, limit).is_prefix_of(
            lsp_list(chunks, locations.push(next), limit),
        ),
{
    assert(locations.push(next).drop_last() =~= locations);
    let (a, b) = (
        lsp_list(chunks, locations, limit),
        lsp_list(chunks, locations.push(next), limit),
    );
    assert(b.take(a.len() as int) =~= a);
}

/// How many matches belong to a chunk: those of which it is the first chunk that holds them.
pub open spec fn matches_of(
    chunks: Seq<HitView>,
    matches: Seq<LexicalMatchView>,
    index: int,
) -> nat {
    matches.filter(|found: LexicalMatchView| match_place(chunks, found) == Some(index)).len()
}

proof fn lemma_matches_of(chunks: Seq<HitView>, matches: Seq<LexicalMatchView>, index: int)
    ensures
        belonging(match_places(chunks, matches), index) == matches_of(chunks, matches, index),
    decreases matches.len(),
{
    reveal(Seq::filter);
    let places = match_places(chunks, matches);
    if matches.len() > 0 {
        let rest = matches.drop_last();
        lemma_matches_of(chunks, rest, index);
        assert(places.drop_last() =~= match_places(chunks, rest));
        assert(places.last() == match_place(chunks, matches.last()));
    }
}

/// The lexical hits of a search are the chunks that its matches lie in, each with the number
/// of its own matches, those with more matches first. A chunk with matches is left out only
/// where the list is full of chunks with at least as many.
pub proof fn law_lexical_hits_count_their_matches(
    chunks: Seq<HitView>,
    matches: Seq<LexicalMatchView>,
    limit: usize,
) -> (found: Seq<int>)
    requires
        matches.len() <= u32::MAX,
    ensures
        ({
            let hits = lexical_list(chunks, matches, limit);
            &&& hits.len() <= limit
            &&& found.len() == hits.len()
            &&& found.no_duplicates()
            &&& forall|k: int|
                0 <= k < found.len() ==> {
                    &&& 0 <= (#[trigger] found[k]) < chunks.len()
                    &&& hits[k].chunk == chunks[found[k]].chunk
                    &&& hits[k].lexical_rank == Some((k + 1) as usize)
                    &&& matches_of(chunks, matches, found[k]) > 0
                    &&& hits[k].lexical_match_count == matches_of(chunks, matches, found[k])
                }
            &&& forall|a: int, b: int|
                0 <= a < b < found.len() ==> matches_of(chunks, matches, #[trigger] found[a])
                    >= matches_of(chunks, matches, #[trigger] found[b])
            &&& forall|c: int|
                0 <= c < chunks.len() && matches_of(chunks, matches, c) > 0
                    ==> #[trigger] found.contains(c) || found.len() == limit && forall|k: int|
                    0 <= k < found.len() ==> matches_of(chunks, matches, #[trigger] found[k])
                        >= matches_of(chunks, matches, c)
        }),
{
    let places = match_places(chunks, matches);
    let found = law_lexical_hits_are_the_chunks_with_matches(chunks, places, limit);
    assert forall|c: int| #[trigger] matches_of(chunks, matches, c) == belonging(places, c) by {
        lemma_matches_of(chunks, matches, c);
    }
    let hits = lexical_list(chunks, matches, limit);
    assert forall|k: int| 0 <= k < found.len() implies {
        &&& 0 <= (#[trigger] found[k]) < chunks.len()
        &&& hits[k].chunk == chunks[found[k]].chunk
        &&& hits[k].lexical_rank == Some((k + 1) as usize)
        &&& matches_of(chunks, matches, found[k]) > 0
        &&& hits[k].lexical_match_count == matches_of(chunks, matches, found[k])
    } by {
        lemma_place_count_is_filtered(places, found[k]);
        lemma_place_count(places, found[k]);
        assert(matches_of(chunks, matches, found[k]) == belonging(places, found[k]));
    }
    assert forall|a: int, b: int| 0 <= a < b < found.len() implies matches_of(
        chunks,
        matches,
        #[trigger] found[a],
    ) >= matches_of(chunks, matches, #[trigger] found[b]) && found[a] != found[b] by {
        assert(belonging(places, found[a]) > belonging(places, found[b]) || belonging(
            places,
            found[a],
        ) == belonging(places, found[b]) && found[a] < found[b]);
        lemma_matches_of(chunks, matches, found[a]);
        lemma_matches_of(chunks, matches, found[b]);
    }
    assert forall|a: int, b: int| 0 <= a < found.len() && 0 <= b < found.len() && a
        != b implies found[a] != found[b] by {
        if a < b {
            assert(matches_of(chunks, matches, found[a]) >= matches_of(chunks, matches, found[b]));
        } else {
            assert(matches_of(chunks, matches, found[b]) >= matches_of(chunks, matches, found[a]));
        }
    }
    assert forall|c: int|
        0 <= c < chunks.len() && matches_of(chunks, matches, c) > 0 implies #[trigger] found.contains(
        c,
    ) || found.len() == limit && forall|k: int|
        0 <= k < found.len() ==> matches_of(chunks, matches, #[trigger] found[k]) >= matches_of(
            chunks,
            matches,
            c,
        ) by {
        lemma_matches_of(chunks, matches, c);
        if !found.contains(c) {
            assert forall|k: int| 0 <= k < found.len() implies matches_of(
                chunks,
                matches,
                #[trigger] found[k],
            ) >= matches_of(chunks, matches, c) by {
                lemma_matches_of(chunks, matches, found[k]);
            }
        }
    }
    found
}

} // verus!

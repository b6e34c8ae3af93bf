//! Reciprocal Rank Fusion of the retrieval channels, and the shortlist.

use crate::app::matching;
use crate::filter::request::FilterView;
use crate::filter::EffectiveFilter;
use crate::order::{self, Ranked};
use crate::store::{self, Hit, HitView};
use crate::{float, text};
use vstd::prelude::*;

verus! {

// ---------------------------------------------------------------------------
// Fusion
// ---------------------------------------------------------------------------

/// Two hits are the same chunk: by file path, start line, and content hash.
pub open spec fn same_chunk(a: HitView, b: HitView) -> bool {
    &&& a.chunk.relative_file_path == b.chunk.relative_file_path
    &&& a.chunk.start_line == b.chunk.start_line
    &&& a.chunk.content_hash == b.chunk.content_hash
}

/// The place of a chunk among the fused hits, or their number.
pub open spec fn fused_place(fused: Seq<HitView>, hit: HitView) -> int
    decreases fused.len(),
{
    if fused.len() == 0 {
        0
    } else {
        let before = fused_place(fused.drop_last(), hit);
        if before < fused.len() - 1 || same_chunk(fused.last(), hit) {
            before
        } else {
            fused.len() as int
        }
    }
}

/// A hit of the semantic channel, with its rank counted.
pub open spec fn semantic_entry(hit: HitView) -> HitView {
    HitView { fusion_terms: hit.fusion_terms.push(hit.semantic_rank->0), ..hit }
}

/// A hit of the lexical channel, with its rank counted.
pub open spec fn lexical_entry(hit: HitView) -> HitView {
    HitView { fusion_terms: seq![hit.lexical_rank->0], ..hit }
}

/// A hit of the language-server channel, with its rank counted.
pub open spec fn lsp_entry(hit: HitView) -> HitView {
    HitView { fusion_terms: seq![hit.lsp_rank->0], ..hit }
}

/// A fused hit that the lexical channel found too.
pub open spec fn with_lexical(fused: HitView, hit: HitView) -> HitView {
    HitView {
        lexical_rank: hit.lexical_rank,
        lexical_match_count: hit.lexical_match_count,
        fusion_terms: fused.fusion_terms.push(hit.lexical_rank->0),
        retrieval_channels: fused.retrieval_channels.push("lexical"@),
        ..fused
    }
}

/// A fused hit that the language-server channel found too.
pub open spec fn with_lsp(fused: HitView, hit: HitView) -> HitView {
    HitView {
        lsp_rank: hit.lsp_rank,
        fusion_terms: fused.fusion_terms.push(hit.lsp_rank->0),
        retrieval_channels: fused.retrieval_channels.push("lsp"@),
        ..fused
    }
}

/// Put an entry in its place: the chunk's, or a new one.
pub open spec fn placed(fused: Seq<HitView>, place: int, entry: HitView) -> Seq<HitView> {
    if place < fused.len() {
        fused.update(place, entry)
    } else {
        fused.push(entry)
    }
}

pub open spec fn fuse_semantic(hits: Seq<HitView>) -> Seq<HitView>
    decreases hits.len(),
{
    if hits.len() == 0 {
        seq![]
    } else {
        let before = fuse_semantic(hits.drop_last());
        placed(before, fused_place(before, hits.last()), semantic_entry(hits.last()))
    }
}

pub open spec fn fuse_lexical(fused: Seq<HitView>, hits: Seq<HitView>) -> Seq<HitView>
    decreases hits.len(),
{
    if hits.len() == 0 {
        fused
    } else {
        let before = fuse_lexical(fused, hits.drop_last());
        let place = fused_place(before, hits.last());
        if place < before.len() {
            before.update(place, with_lexical(before[place], hits.last()))
        } else {
            before.push(lexical_entry(hits.last()))
        }
    }
}

pub open spec fn fuse_lsp(fused: Seq<HitView>, hits: Seq<HitView>) -> Seq<HitView>
    decreases hits.len(),
{
    if hits.len() == 0 {
        fused
    } else {
        let before = fuse_lsp(fused, hits.drop_last());
        let place = fused_place(before, hits.last());
        if place < before.len() {
            before.update(place, with_lsp(before[place], hits.last()))
        } else {
            before.push(lsp_entry(hits.last()))
        }
    }
}

/// The fused hits of the three channels: each chunk once, with the ranks that count for
/// it.
pub open spec fn fused(
    semantic: Seq<HitView>,
    lexical: Seq<HitView>,
    lsp: Seq<HitView>,
) -> Seq<HitView> {
    fuse_lsp(fuse_lexical(fuse_semantic(semantic), lexical), lsp)
}

proof fn lemma_fused_place(fused: Seq<HitView>, hit: HitView)
    ensures
        0 <= fused_place(fused, hit) <= fused.len(),
        fused_place(fused, hit) < fused.len() ==> same_chunk(
            fused[fused_place(fused, hit)],
            hit,
        ),
        forall|k: int|
            0 <= k < fused_place(fused, hit) && k < fused.len() ==> !same_chunk(
                #[trigger] fused[k],
                hit,
            ),
    decreases fused.len(),
{
    if fused.len() > 0 {
        let rest = fused.drop_last();
        lemma_fused_place(rest, hit);
        let place = fused_place(fused, hit);
        assert forall|k: int| 0 <= k < place && k < fused.len() implies !same_chunk(
            #[trigger] fused[k],
            hit,
        ) by {
            if k < rest.len() {
                assert(rest[k] == fused[k]);
            }
        }
        if place < rest.len() {
            assert(rest[place] == fused[place]);
        }
    }
}

proof fn lemma_place_is(fused: Seq<HitView>, hit: HitView, i: int)
    requires
        0 <= i <= fused.len(),
        i < fused.len() ==> same_chunk(fused[i], hit),
        forall|k: int| 0 <= k < i ==> !same_chunk(#[trigger] fused[k], hit),
    ensures
        fused_place(fused, hit) == i,
{
    lemma_fused_place(fused, hit);
    let place = fused_place(fused, hit);
    if place < i {
        assert(!same_chunk(fused[place], hit));
    } else if i < place {
        assert(!same_chunk(fused[i], hit));
    }
}

fn find_fused(fused: &[Hit], hit: &Hit) -> (r: usize)
    ensures
        r == fused_place(store::hit_views(fused@), hit@),
        r <= fused@.len(),
{
    let ghost all = store::hit_views(fused@);
    let mut i: usize = 0;
    while i < fused.len()
        invariant
            i <= fused@.len(),
            all == store::hit_views(fused@),
            forall|k: int| 0 <= k < i ==> !same_chunk(#[trigger] all[k], hit@),
        decreases fused@.len() - i,
    {
        assert(all[i as int] == fused@[i as int]@);
        if fused[i].chunk.start_line == hit.chunk.start_line && text::str_eq(
            fused[i].chunk.relative_file_path.as_str(),
            hit.chunk.relative_file_path.as_str(),
        ) && text::str_eq(
            fused[i].chunk.content_hash.as_str(),
            hit.chunk.content_hash.as_str(),
        ) {
            proof {
                lemma_place_is(all, hit@, i as int);
            }
            return i;
        }
        i = i + 1;
    }
    proof {
        lemma_place_is(all, hit@, i as int);
    }
    i
}

/// Every hit has a rank in the semantic channel.
pub open spec fn all_semantic(hits: Seq<Hit>) -> bool {
    forall|i: int| 0 <= i < hits.len() ==> (#[trigger] hits[i]).semantic_rank is Some
}

/// Every hit has a rank in the lexical channel.
pub open spec fn all_lexical(hits: Seq<Hit>) -> bool {
    forall|i: int| 0 <= i < hits.len() ==> (#[trigger] hits[i]).lexical_rank is Some
}

/// Every hit has a rank in the language-server channel.
pub open spec fn all_lsp(hits: Seq<Hit>) -> bool {
    forall|i: int| 0 <= i < hits.len() ==> (#[trigger] hits[i]).lsp_rank is Some
}

fn add_semantic(all: &mut Vec<Hit>, hit: &Hit)
    requires
        hit.semantic_rank is Some,
    ensures
        store::hit_views(final(all)@) == placed(
            store::hit_views(old(all)@),
            fused_place(store::hit_views(old(all)@), hit@),
            semantic_entry(hit@),
        ),
{
    let ghost before = store::hit_views(all@);
    let place: usize = find_fused(all, hit);
    let mut entry = hit.clone();
    if let Some(rank) = hit.semantic_rank {
        entry.fusion_terms.push(rank);
    }
    assert(entry@ == semantic_entry(hit@));
    if place < all.len() {
        all.set(place, entry);
        assert(store::hit_views(all@) =~= before.update(place as int, entry@));
    } else {
        all.push(entry);
        assert(store::hit_views(all@) =~= before.push(entry@));
    }
}

fn add_lexical(all: &mut Vec<Hit>, hit: &Hit)
    requires
        hit.lexical_rank is Some,
    ensures
        ({
            let before = store::hit_views(old(all)@);
            let place = fused_place(before, hit@);
            store::hit_views(final(all)@) == if place < before.len() {
                before.update(place, with_lexical(before[place], hit@))
            } else {
                before.push(lexical_entry(hit@))
            }
        }),
{
    let ghost before = store::hit_views(all@);
    let place: usize = find_fused(all, hit);
    let rank: usize = match hit.lexical_rank {
        Some(rank) => rank,
        None => 0,
    };
    if place < all.len() {
        let mut entry = all[place].clone();
        let ghost old_entry = entry@;
        assert(old_entry == before[place as int]);
        entry.lexical_rank = hit.lexical_rank;
        entry.lexical_match_count = hit.lexical_match_count;
        entry.fusion_terms.push(rank);
        entry.retrieval_channels.push("lexical".to_owned());
        assert(text::views(entry.retrieval_channels@) =~= old_entry.retrieval_channels.push(
            "lexical"@,
        ));
        assert(entry@ == with_lexical(old_entry, hit@));
        all.set(place, entry);
        assert(store::hit_views(all@) =~= before.update(place as int, entry@));
    } else {
        let mut entry = hit.clone();
        let mut only: Vec<usize> = Vec::new();
        only.push(rank);
        assert(only@ =~= seq![rank]);
        entry.fusion_terms = only;
        assert(entry@ == lexical_entry(hit@));
        all.push(entry);
        assert(store::hit_views(all@) =~= before.push(entry@));
    }
}

fn add_lsp(all: &mut Vec<Hit>, hit: &Hit)
    requires
        hit.lsp_rank is Some,
    ensures
        ({
            let before = store::hit_views(old(all)@);
            let place = fused_place(before, hit@);
            store::hit_views(final(all)@) == if place < before.len() {
                before.update(place, with_lsp(before[place], hit@))
            } else {
                before.push(lsp_entry(hit@))
            }
        }),
{
    let ghost before = store::hit_views(all@);
    let place: usize = find_fused(all, hit);
    let rank: usize = match hit.lsp_rank {
        Some(rank) => rank,
        None => 0,
    };
    if place < all.len() {
        let mut entry = all[place].clone();
        let ghost old_entry = entry@;
        assert(old_entry == before[place as int]);
        entry.lsp_rank = hit.lsp_rank;
        entry.fusion_terms.push(rank);
        entry.retrieval_channels.push("lsp".to_owned());
        assert(text::views(entry.retrieval_channels@) =~= old_entry.retrieval_channels.push(
            "lsp"@,
        ));
        assert(entry@ == with_lsp(old_entry, hit@));
        all.set(place, entry);
        assert(store::hit_views(all@) =~= before.update(place as int, entry@));
    } else {
        let mut entry = hit.clone();
        let mut only: Vec<usize> = Vec::new();
        only.push(rank);
        assert(only@ =~= seq![rank]);
        entry.fusion_terms = only;
        assert(entry@ == lsp_entry(hit@));
        all.push(entry);
        assert(store::hit_views(all@) =~= before.push(entry@));
    }
}

/// Combine the three retrieval channels, keyed by file path, start line, and content
/// hash, so the same chunk reached through multiple channels stands once, with all
/// ranks that add to its fusion score.
pub fn fuse_hits(semantic: &[Hit], lexical: &[Hit], lsp: &[Hit]) -> (r: Vec<Hit>)
    requires
        all_semantic(semantic@),
        all_lexical(lexical@),
        all_lsp(lsp@),
    ensures
        store::hit_views(r@) == fused(
            store::hit_views(semantic@),
            store::hit_views(lexical@),
            store::hit_views(lsp@),
        ),
{
    let mut all: Vec<Hit> = Vec::new();
    let ghost a = store::hit_views(semantic@);
    let mut i: usize = 0;
    proof {
        assert(a.take(0) =~= seq![]);
        assert(store::hit_views(all@) =~= seq![]);
    }
    while i < semantic.len()
        invariant
            i <= semantic@.len(),
            all_semantic(semantic@),
            a == store::hit_views(semantic@),
            store::hit_views(all@) == fuse_semantic(a.take(i as int)),
        decreases semantic@.len() - i,
    {
        proof {
            let next = a.take(i + 1);
            assert(next.drop_last() =~= a.take(i as int));
            assert(next.last() == semantic@[i as int]@);
        }
        add_semantic(&mut all, &semantic[i]);
        i = i + 1;
    }
    assert(a.take(a.len() as int) =~= a);
    let ghost first = store::hit_views(all@);
    let ghost b = store::hit_views(lexical@);
    let mut j: usize = 0;
    assert(b.take(0) =~= seq![]);
    while j < lexical.len()
        invariant
            j <= lexical@.len(),
            all_lexical(lexical@),
            b == store::hit_views(lexical@),
            store::hit_views(all@) == fuse_lexical(first, b.take(j as int)),
        decreases lexical@.len() - j,
    {
        proof {
            let next = b.take(j + 1);
            assert(next.drop_last() =~= b.take(j as int));
            assert(next.last() == lexical@[j as int]@);
        }
        add_lexical(&mut all, &lexical[j]);
        j = j + 1;
    }
    assert(b.take(b.len() as int) =~= b);
    let ghost second = store::hit_views(all@);
    let ghost c = store::hit_views(lsp@);
    let mut k: usize = 0;
    assert(c.take(0) =~= seq![]);
    while k < lsp.len()
        invariant
            k <= lsp@.len(),
            all_lsp(lsp@),
            c == store::hit_views(lsp@),
            store::hit_views(all@) == fuse_lsp(second, c.take(k as int)),
        decreases lsp@.len() - k,
    {
        proof {
            let next = c.take(k + 1);
            assert(next.drop_last() =~= c.take(k as int));
            assert(next.last() == lsp@[k as int]@);
        }
        add_lsp(&mut all, &lsp[k]);
        k = k + 1;
    }
    assert(c.take(c.len() as int) =~= c);
    all
}

// ---------------------------------------------------------------------------
// Laws of fusion
// ---------------------------------------------------------------------------

/// No chunk stands twice.
pub open spec fn distinct_chunks(hits: Seq<HitView>) -> bool {
    forall|i: int, j: int|
        0 <= i < j < hits.len() ==> !same_chunk(#[trigger] hits[i], #[trigger] hits[j])
}

/// One of the hits is this chunk.
pub open spec fn has_chunk(hits: Seq<HitView>, hit: HitView) -> bool {
    exists|i: int| 0 <= i < hits.len() && same_chunk(#[trigger] hits[i], hit)
}

proof fn lemma_placing(fused: Seq<HitView>, hit: HitView, next: Seq<HitView>)
    requires
        distinct_chunks(fused),
        ({
            let place = fused_place(fused, hit);
            if place < fused.len() {
                &&& next.len() == fused.len()
                &&& same_chunk(next[place], hit)
                &&& forall|k: int|
                    0 <= k < fused.len() && k != place ==> #[trigger] next[k] == fused[k]
            } else {
                &&& next.len() == fused.len() + 1
                &&& same_chunk(next[fused.len() as int], hit)
                &&& forall|k: int| 0 <= k < fused.len() ==> #[trigger] next[k] == fused[k]
            }
        }),
    ensures
        distinct_chunks(next),
        forall|other: HitView| #[trigger]
            has_chunk(next, other) <==> has_chunk(fused, other) || same_chunk(hit, other),
{
    lemma_fused_place(fused, hit);
    let place = fused_place(fused, hit);
    assert forall|i: int, j: int| 0 <= i < j < next.len() implies !same_chunk(
        #[trigger] next[i],
        #[trigger] next[j],
    ) by {
        if place < fused.len() {
            assert(same_chunk(next[i], fused[i]));
            assert(same_chunk(next[j], fused[j]));
            assert(!same_chunk(fused[i], fused[j]));
        } else if j < fused.len() {
            assert(!same_chunk(fused[i], fused[j]));
        } else {
            assert(!same_chunk(fused[i], hit));
        }
    }
    assert forall|other: HitView| #[trigger]
        has_chunk(next, other) <==> has_chunk(fused, other) || same_chunk(hit, other) by {
        if has_chunk(next, other) {
            let k = choose|k: int| 0 <= k < next.len() && same_chunk(#[trigger] next[k], other);
            if k < fused.len() && k != place {
                assert(same_chunk(fused[k], other));
            }
        }
        if has_chunk(fused, other) {
            let k = choose|k: int| 0 <= k < fused.len() && same_chunk(#[trigger] fused[k], other);
            assert(same_chunk(next[k], other));
        }
        if same_chunk(hit, other) {
            if place < fused.len() {
                assert(same_chunk(next[place], other));
            } else {
                assert(same_chunk(next[fused.len() as int], other));
            }
        }
    }
}

proof fn lemma_has_chunk_split(hits: Seq<HitView>, other: HitView)
    requires
        hits.len() > 0,
    ensures
        has_chunk(hits, other) <==> has_chunk(hits.drop_last(), other) || same_chunk(
            hits.last(),
            other,
        ),
{
    let rest = hits.drop_last();
    if has_chunk(hits, other) {
        let k = choose|k: int| 0 <= k < hits.len() && same_chunk(#[trigger] hits[k], other);
        if k < rest.len() {
            assert(same_chunk(rest[k], other));
        }
    }
    if has_chunk(rest, other) {
        let k = choose|k: int| 0 <= k < rest.len() && same_chunk(#[trigger] rest[k], other);
        assert(same_chunk(hits[k], other));
    }
    if same_chunk(hits.last(), other) {
        assert(same_chunk(hits[hits.len() - 1], other));
    }
}

proof fn lemma_fuse_semantic(hits: Seq<HitView>)
    ensures
        distinct_chunks(fuse_semantic(hits)),
        forall|other: HitView| #[trigger]
            has_chunk(fuse_semantic(hits), other) <==> has_chunk(hits, other),
    decreases hits.len(),
{
    if hits.len() > 0 {
        let rest = hits.drop_last();
        lemma_fuse_semantic(rest);
        let before = fuse_semantic(rest);
        lemma_fused_place(before, hits.last());
        lemma_placing(before, hits.last(), fuse_semantic(hits));
        assert forall|other: HitView| #[trigger]
            has_chunk(fuse_semantic(hits), other) <==> has_chunk(hits, other) by {
            lemma_has_chunk_split(hits, other);
            assert(has_chunk(before, other) <==> has_chunk(rest, other));
        }
    }
}

proof fn lemma_fuse_lexical(start: Seq<HitView>, hits: Seq<HitView>)
    requires
        distinct_chunks(start),
    ensures
        distinct_chunks(fuse_lexical(start, hits)),
        forall|other: HitView| #[trigger]
            has_chunk(fuse_lexical(start, hits), other) <==> has_chunk(start, other) || has_chunk(
                hits,
                other,
            ),
    decreases hits.len(),
{
    if hits.len() > 0 {
        let rest = hits.drop_last();
        lemma_fuse_lexical(start, rest);
        let before = fuse_lexical(start, rest);
        lemma_fused_place(before, hits.last());
        lemma_placing(before, hits.last(), fuse_lexical(start, hits));
        assert forall|other: HitView| #[trigger]
            has_chunk(fuse_lexical(start, hits), other) <==> has_chunk(start, other) || has_chunk(
                hits,
                other,
            ) by {
            lemma_has_chunk_split(hits, other);
            assert(has_chunk(before, other) <==> has_chunk(start, other) || has_chunk(rest, other));
        }
    }
}

proof fn lemma_fuse_lsp(start: Seq<HitView>, hits: Seq<HitView>)
    requires
        distinct_chunks(start),
    ensures
        distinct_chunks(fuse_lsp(start, hits)),
        forall|other: HitView| #[trigger]
            has_chunk(fuse_lsp(start, hits), other) <==> has_chunk(start, other) || has_chunk(
                hits,
                other,
            ),
    decreases hits.len(),
{
    if hits.len() > 0 {
        let rest = hits.drop_last();
        lemma_fuse_lsp(start, rest);
        let before = fuse_lsp(start, rest);
        lemma_fused_place(before, hits.last());
        lemma_placing(before, hits.last(), fuse_lsp(start, hits));
        assert forall|other: HitView| #[trigger]
            has_chunk(fuse_lsp(start, hits), other) <==> has_chunk(start, other) || has_chunk(
                hits,
                other,
            ) by {
            lemma_has_chunk_split(hits, other);
            assert(has_chunk(before, other) <==> has_chunk(start, other) || has_chunk(rest, other));
        }
    }
}

/// Fusion keeps every chunk that a channel found, adds none, and lists each once.
pub proof fn law_fusion_lists_each_chunk_once(
    semantic: Seq<HitView>,
    lexical: Seq<HitView>,
    lsp: Seq<HitView>,
    other: HitView,
)
    ensures
        distinct_chunks(fused(semantic, lexical, lsp)),
        has_chunk(fused(semantic, lexical, lsp), other) <==> has_chunk(semantic, other)
            || has_chunk(lexical, other) || has_chunk(lsp, other),
{
    let first = fuse_semantic(semantic);
    let second = fuse_lexical(first, lexical);
    lemma_fuse_semantic(semantic);
    lemma_fuse_lexical(first, lexical);
    lemma_fuse_lsp(second, lsp);
    assert(has_chunk(first, other) <==> has_chunk(semantic, other));
    assert(has_chunk(second, other) <==> has_chunk(first, other) || has_chunk(lexical, other));
}

/// What tells chunks apart: the path, the first line, and the content hash.
pub open spec fn chunk_key(hit: HitView) -> (Seq<char>, u32, Seq<char>) {
    (hit.chunk.relative_file_path, hit.chunk.start_line, hit.chunk.content_hash)
}

/// A channel lists no chunk twice.
pub open spec fn distinct_keys(hits: Seq<HitView>) -> bool {
    forall|i: int, j: int|
        0 <= i < j < hits.len() ==> chunk_key(#[trigger] hits[i]) != chunk_key(#[trigger] hits[j])
}

/// A channel found the chunk of a hit.
pub open spec fn is_found(channel: Seq<HitView>, hit: HitView) -> bool {
    exists|k: int| 0 <= k < channel.len() && chunk_key(#[trigger] channel[k]) == chunk_key(hit)
}

/// The hit of a channel for the chunk of a hit.
pub open spec fn found_hit(channel: Seq<HitView>, hit: HitView) -> HitView {
    channel[choose|k: int|
        0 <= k < channel.len() && chunk_key(#[trigger] channel[k]) == chunk_key(hit)]
}

/// The rank for a chunk that a channel found, and nothing for one that it did not.
pub open spec fn counted_rank(found: bool, rank: Option<usize>) -> Seq<usize> {
    if found {
        seq![rank->0]
    } else {
        seq![]
    }
}

spec fn fuse_with(
    start: Seq<HitView>,
    hits: Seq<HitView>,
    join: spec_fn(HitView, HitView) -> HitView,
    entry: spec_fn(HitView) -> HitView,
) -> Seq<HitView>
    decreases hits.len(),
{
    if hits.len() == 0 {
        start
    } else {
        let before = fuse_with(start, hits.drop_last(), join, entry);
        let place = fused_place(before, hits.last());
        if place < before.len() {
            before.update(place, join(before[place], hits.last()))
        } else {
            before.push(entry(hits.last()))
        }
    }
}

/// What fusing a channel into `start` makes of an item.
spec fn fused_from(
    start: Seq<HitView>,
    hits: Seq<HitView>,
    join: spec_fn(HitView, HitView) -> HitView,
    entry: spec_fn(HitView) -> HitView,
    item: HitView,
    i: int,
) -> bool {
    if i < start.len() {
        &&& chunk_key(item) == chunk_key(start[i])
        &&& is_found(hits, item) ==> item == join(start[i], found_hit(hits, item))
        &&& !is_found(hits, item) ==> item == start[i]
    } else {
        &&& !is_found(start, item)
        &&& is_found(hits, item)
        &&& item == entry(found_hit(hits, item))
    }
}

proof fn lemma_found_hit(hits: Seq<HitView>, hit: HitView, k: int)
    requires
        distinct_keys(hits),
        0 <= k < hits.len(),
        chunk_key(hits[k]) == chunk_key(hit),
    ensures
        is_found(hits, hit),
        found_hit(hits, hit) == hits[k],
{
    let j = choose|j: int|
        0 <= j < hits.len() && chunk_key(#[trigger] hits[j]) == chunk_key(hit);
    if j < k {
        assert(chunk_key(hits[j]) != chunk_key(hits[k]));
    } else if k < j {
        assert(chunk_key(hits[k]) != chunk_key(hits[j]));
    }
}

proof fn lemma_found_split(hits: Seq<HitView>, hit: HitView)
    requires
        distinct_keys(hits),
        hits.len() > 0,
    ensures
        is_found(hits, hit) <==> is_found(hits.drop_last(), hit) || chunk_key(hits.last())
            == chunk_key(hit),
        chunk_key(hits.last()) == chunk_key(hit) ==> found_hit(hits, hit) == hits.last(),
        chunk_key(hits.last()) == chunk_key(hit) ==> !is_found(hits.drop_last(), hit),
        is_found(hits.drop_last(), hit) ==> found_hit(hits, hit) == found_hit(
            hits.drop_last(),
            hit,
        ),
{
    let rest = hits.drop_last();
    let n = hits.len() - 1;
    if is_found(rest, hit) {
        let k = choose|k: int|
            0 <= k < rest.len() && chunk_key(#[trigger] rest[k]) == chunk_key(hit);
        assert(rest[k] == hits[k]);
        lemma_found_hit(hits, hit, k);
        lemma_found_hit(rest, hit, k);
        assert(chunk_key(hits[k]) != chunk_key(hits[n]));
    }
    if chunk_key(hits.last()) == chunk_key(hit) {
        lemma_found_hit(hits, hit, n);
    }
    if is_found(hits, hit) && chunk_key(hits.last()) != chunk_key(hit) {
        let k = choose|k: int|
            0 <= k < hits.len() && chunk_key(#[trigger] hits[k]) == chunk_key(hit);
        assert(rest[k] == hits[k]);
    }
}

proof fn lemma_fuse_with(
    start: Seq<HitView>,
    hits: Seq<HitView>,
    join: spec_fn(HitView, HitView) -> HitView,
    entry: spec_fn(HitView) -> HitView,
)
    requires
        distinct_keys(start),
        distinct_keys(hits),
        forall|a: HitView, b: HitView| chunk_key(#[trigger] join(a, b)) == chunk_key(a),
        forall|a: HitView| chunk_key(#[trigger] entry(a)) == chunk_key(a),
    ensures
        ({
            let out = fuse_with(start, hits, join, entry);
            &&& out.len() >= start.len()
            &&& distinct_keys(out)
            &&& forall|i: int|
                0 <= i < out.len() ==> fused_from(start, hits, join, entry, #[trigger] out[i], i)
        }),
    decreases hits.len(),
{
    let out = fuse_with(start, hits, join, entry);
    if hits.len() > 0 {
        let rest = hits.drop_last();
        let last = hits.last();
        assert(distinct_keys(rest)) by {
            assert forall|i: int, j: int| 0 <= i < j < rest.len() implies chunk_key(
                #[trigger] rest[i],
            ) != chunk_key(#[trigger] rest[j]) by {
                assert(rest[i] == hits[i] && rest[j] == hits[j]);
            }
        }
        lemma_fuse_with(start, rest, join, entry);
        let before = fuse_with(start, rest, join, entry);
        let place = fused_place(before, last);
        lemma_fused_place(before, last);
        assert forall|i: int, j: int| 0 <= i < j < out.len() implies chunk_key(#[trigger] out[i])
            != chunk_key(#[trigger] out[j]) by {
            if j < before.len() {
                assert(chunk_key(before[i]) != chunk_key(before[j]));
                assert(chunk_key(out[i]) == chunk_key(before[i]));
                assert(chunk_key(out[j]) == chunk_key(before[j]));
            } else {
                assert(!same_chunk(before[i], last));
            }
        }
        assert forall|i: int| 0 <= i < out.len() implies fused_from(
            start,
            hits,
            join,
            entry,
            #[trigger] out[i],
            i,
        ) by {
            lemma_found_split(hits, out[i]);
            if i < before.len() && i != place {
                assert(out[i] == before[i]);
                assert(fused_from(start, rest, join, entry, before[i], i));
                if chunk_key(last) == chunk_key(before[i]) {
                    assert(same_chunk(before[i], last));
                    assert(i > place);
                    assert(chunk_key(before[place]) != chunk_key(before[i]));
                }
            } else if i == place && place < before.len() {
                assert(fused_from(start, rest, join, entry, before[i], i));
                assert(chunk_key(out[i]) == chunk_key(last));
                assert(!is_found(rest, out[i]));
                assert(!is_found(rest, before[i]));
            } else {
                assert(out[i] == entry(last));
                if is_found(start, out[i]) {
                    let k = choose|k: int|
                        0 <= k < start.len() && chunk_key(#[trigger] start[k]) == chunk_key(out[i]);
                    assert(fused_from(start, rest, join, entry, before[k], k));
                    assert(!same_chunk(before[k], last));
                }
            }
        }
    } else {
        assert forall|i: int| 0 <= i < out.len() implies fused_from(
            start,
            hits,
            join,
            entry,
            #[trigger] out[i],
            i,
        ) by {
            assert(!is_found(hits, out[i]));
        }
    }
}

spec fn semantic_join() -> spec_fn(HitView, HitView) -> HitView {
    |a: HitView, b: HitView|
        if chunk_key(a) == chunk_key(b) {
            semantic_entry(b)
        } else {
            a
        }
}

proof fn lemma_semantic_is_fused(hits: Seq<HitView>)
    ensures
        fuse_semantic(hits) == fuse_with(
            seq![],
            hits,
            semantic_join(),
            |b: HitView| semantic_entry(b),
        ),
    decreases hits.len(),
{
    if hits.len() > 0 {
        lemma_semantic_is_fused(hits.drop_last());
        lemma_fused_place(fuse_semantic(hits.drop_last()), hits.last());
    }
}

proof fn lemma_lexical_is_fused(start: Seq<HitView>, hits: Seq<HitView>)
    ensures
        fuse_lexical(start, hits) == fuse_with(
            start,
            hits,
            |a: HitView, b: HitView| with_lexical(a, b),
            |b: HitView| lexical_entry(b),
        ),
    decreases hits.len(),
{
    if hits.len() > 0 {
        lemma_lexical_is_fused(start, hits.drop_last());
    }
}

proof fn lemma_lsp_is_fused(start: Seq<HitView>, hits: Seq<HitView>)
    ensures
        fuse_lsp(start, hits) == fuse_with(
            start,
            hits,
            |a: HitView, b: HitView| with_lsp(a, b),
            |b: HitView| lsp_entry(b),
        ),
    decreases hits.len(),
{
    if hits.len() > 0 {
        lemma_lsp_is_fused(start, hits.drop_last());
    }
}

/// Where no channel lists a chunk twice and the semantic hits come without ranks that count,
/// the ranks that count for a fused hit are those of its chunk in the channels that found it,
/// one for each, in the order semantic, lexical, language server. The hit is that of the
/// first of these channels, with the ranks that the others gave it, and with their names.
pub proof fn law_every_channel_counts_once(
    semantic: Seq<HitView>,
    lexical: Seq<HitView>,
    lsp: Seq<HitView>,
    i: int,
)
    requires
        distinct_keys(semantic),
        distinct_keys(lexical),
        distinct_keys(lsp),
        forall|k: int|
            0 <= k < semantic.len() ==> (#[trigger] semantic[k]).fusion_terms == Seq::<
                usize,
            >::empty(),
        0 <= i < fused(semantic, lexical, lsp).len(),
    ensures
        ({
            let hit = fused(semantic, lexical, lsp)[i];
            let (s, l, p) = (
                is_found(semantic, hit),
                is_found(lexical, hit),
                is_found(lsp, hit),
            );
            let (a, b, c) = (
                found_hit(semantic, hit),
                found_hit(lexical, hit),
                found_hit(lsp, hit),
            );
            let first = if s {
                a
            } else if l {
                b
            } else {
                c
            };
            &&& s || l || p
            &&& hit.fusion_terms == counted_rank(s, a.semantic_rank) + counted_rank(
                l,
                b.lexical_rank,
            ) + counted_rank(p, c.lsp_rank)
            &&& hit.semantic_rank == first.semantic_rank
            &&& hit.lexical_rank == (if l {
                b.lexical_rank
            } else {
                first.lexical_rank
            })
            &&& hit.lexical_match_count == (if l {
                b.lexical_match_count
            } else {
                first.lexical_match_count
            })
            &&& hit.lsp_rank == (if p {
                c.lsp_rank
            } else {
                first.lsp_rank
            })
            &&& hit.retrieval_channels == first.retrieval_channels + (if s && l {
                seq!["lexical"@]
            } else {
                seq![]
            }) + (if (s || l) && p {
                seq!["lsp"@]
            } else {
                seq![]
            })
            &&& hit.chunk == first.chunk
            &&& hit.file_path == first.file_path
            &&& hit.semantic_score == first.semantic_score
            &&& hit.source_role == first.source_role
            &&& hit.source_role_prior == first.source_role_prior
            &&& hit.reranker_score == first.reranker_score
        }),
{
    let one = fuse_semantic(semantic);
    let two = fuse_lexical(one, lexical);
    let out = fused(semantic, lexical, lsp);
    let hit = out[i];
    let (join_a, entry_a) = (semantic_join(), |b: HitView| semantic_entry(b));
    let (join_b, entry_b) = (
        |a: HitView, b: HitView| with_lexical(a, b),
        |b: HitView| lexical_entry(b),
    );
    let (join_c, entry_c) = (|a: HitView, b: HitView| with_lsp(a, b), |b: HitView| lsp_entry(b));
    lemma_semantic_is_fused(semantic);
    lemma_lexical_is_fused(one, lexical);
    lemma_lsp_is_fused(two, lsp);
    lemma_fuse_with(seq![], semantic, join_a, entry_a);
    lemma_fuse_with(one, lexical, join_b, entry_b);
    lemma_fuse_with(two, lsp, join_c, entry_c);
    lemma_found_in_fused(seq![], semantic, join_a, entry_a, hit);
    lemma_found_in_fused(one, lexical, join_b, entry_b, hit);
    assert(!is_found(seq![], hit));
    assert(fused_from(two, lsp, join_c, entry_c, out[i], i));
    if i < two.len() {
        assert(fused_from(one, lexical, join_b, entry_b, two[i], i));
        lemma_same_key_same_found(semantic, hit, two[i]);
        lemma_same_key_same_found(lexical, hit, two[i]);
        lemma_same_key_same_found(one, hit, two[i]);
        if i < one.len() {
            assert(fused_from(seq![], semantic, join_a, entry_a, one[i], i));
            lemma_same_key_same_found(semantic, hit, one[i]);
            let k = choose|k: int|
                0 <= k < semantic.len() && chunk_key(#[trigger] semantic[k]) == chunk_key(hit);
            assert(semantic[k].fusion_terms == Seq::<usize>::empty());
        }
    }
    let (s, l, p) = (is_found(semantic, hit), is_found(lexical, hit), is_found(lsp, hit));
    let (a, b, c) = (found_hit(semantic, hit), found_hit(lexical, hit), found_hit(lsp, hit));
    assert(hit.fusion_terms =~= counted_rank(s, a.semantic_rank) + counted_rank(l, b.lexical_rank)
        + counted_rank(p, c.lsp_rank));
}

proof fn lemma_same_key_same_found(hits: Seq<HitView>, a: HitView, b: HitView)
    requires
        chunk_key(a) == chunk_key(b),
    ensures
        is_found(hits, a) == is_found(hits, b),
        found_hit(hits, a) == found_hit(hits, b),
{
    assert((|k: int| 0 <= k < hits.len() && chunk_key(hits[k]) == chunk_key(a)) =~= (|k: int|
        0 <= k < hits.len() && chunk_key(hits[k]) == chunk_key(b)));
}

proof fn lemma_found_in_fused(
    start: Seq<HitView>,
    hits: Seq<HitView>,
    join: spec_fn(HitView, HitView) -> HitView,
    entry: spec_fn(HitView) -> HitView,
    hit: HitView,
)
    requires
        distinct_keys(start),
        distinct_keys(hits),
        forall|a: HitView, b: HitView| chunk_key(#[trigger] join(a, b)) == chunk_key(a),
        forall|a: HitView| chunk_key(#[trigger] entry(a)) == chunk_key(a),
    ensures
        is_found(fuse_with(start, hits, join, entry), hit) <==> is_found(start, hit) || is_found(
            hits,
            hit,
        ),
    decreases hits.len(),
{
    if hits.len() > 0 {
        let rest = hits.drop_last();
        let last = hits.last();
        assert(distinct_keys(rest)) by {
            assert forall|i: int, j: int| 0 <= i < j < rest.len() implies chunk_key(
                #[trigger] rest[i],
            ) != chunk_key(#[trigger] rest[j]) by {
                assert(rest[i] == hits[i] && rest[j] == hits[j]);
            }
        }
        lemma_found_in_fused(start, rest, join, entry, hit);
        lemma_found_split(hits, hit);
        let before = fuse_with(start, rest, join, entry);
        let out = fuse_with(start, hits, join, entry);
        let place = fused_place(before, last);
        lemma_fused_place(before, last);
        if is_found(before, hit) {
            let k = choose|k: int|
                0 <= k < before.len() && chunk_key(#[trigger] before[k]) == chunk_key(hit);
            assert(chunk_key(out[k]) == chunk_key(hit));
        }
        if chunk_key(last) == chunk_key(hit) {
            assert(chunk_key(out[place]) == chunk_key(hit));
        }
        if is_found(out, hit) {
            let k = choose|k: int|
                0 <= k < out.len() && chunk_key(#[trigger] out[k]) == chunk_key(hit);
            if k < before.len() {
                assert(chunk_key(before[k]) == chunk_key(hit));
            }
        }
    } else {
        assert(!is_found(hits, hit));
    }
}

// ---------------------------------------------------------------------------
// The shortlist
// ---------------------------------------------------------------------------

/// The hits with their fusion scores.
pub open spec fn scored(hits: Seq<HitView>, scores: Seq<u32>) -> Seq<HitView> {
    Seq::new(hits.len(), |i: int| HitView { fusion_score: scores[i], ..hits[i] })
}

/// Hits stand by falling fusion score, then by path, then by first line.
pub open spec fn hit_before(a: HitView, b: HitView) -> bool {
    let (x, y) = (float::order_key(a.fusion_score), float::order_key(b.fusion_score));
    ||| x > y
    ||| x == y && order::precedes(a.chunk.relative_file_path, b.chunk.relative_file_path)
    ||| x == y && a.chunk.relative_file_path == b.chunk.relative_file_path && a.chunk.start_line
        < b.chunk.start_line
}

pub open spec fn by_score() -> spec_fn(HitView, HitView) -> bool {
    |a: HitView, b: HitView| hit_before(a, b)
}

/// The best hits that pass the filter.
pub open spec fn shortlisted(
    filter: FilterView,
    hits: Seq<HitView>,
    scores: Seq<u32>,
    limit: usize,
) -> Seq<HitView> {
    matching::first_of(
        order::sorted_by(store::passing(filter, scored(hits, scores)), by_score()),
        limit,
    )
}

impl Ranked for Hit {
    open spec fn below(self, other: Self) -> bool {
        hit_before(self@, other@)
    }

    proof fn asymmetric(a: Self, b: Self) {
        order::lemma_precedes_total(a.chunk.relative_file_path@, b.chunk.relative_file_path@);
    }

    proof fn weakly_ordered(a: Self, b: Self, c: Self) {
        let (x, y, z) = (
            a.chunk.relative_file_path@,
            b.chunk.relative_file_path@,
            c.chunk.relative_file_path@,
        );
        order::lemma_precedes_total(x, y);
        order::lemma_precedes_total(y, z);
        order::lemma_precedes_total(x, z);
        if x != y && y != z && !order::precedes(x, y) && !order::precedes(y, z) {
            order::lemma_precedes_transitive(z, y, x);
        }
    }

    fn is_below(&self, other: &Self) -> (r: bool) {
        proof {
            float::law_order_is_total(self.fusion_score, other.fusion_score);
            order::lemma_precedes_total(
                self.chunk.relative_file_path@,
                other.chunk.relative_file_path@,
            );
        }
        if self.fusion_score != other.fusion_score {
            return float::total_below(other.fusion_score, self.fusion_score);
        }
        if text::str_eq(
            self.chunk.relative_file_path.as_str(),
            other.chunk.relative_file_path.as_str(),
        ) {
            return self.chunk.start_line < other.chunk.start_line;
        }
        order::text_precedes(
            self.chunk.relative_file_path.as_str(),
            other.chunk.relative_file_path.as_str(),
        )
    }
}

fn with_scores(hits: Vec<Hit>, scores: &[u32]) -> (r: Vec<Hit>)
    requires
        hits@.len() == scores@.len(),
    ensures
        store::hit_views(r@) == scored(store::hit_views(hits@), scores@),
{
    let mut hits = hits;
    let ghost all = store::hit_views(hits@);
    let mut i: usize = 0;
    while i < hits.len()
        invariant
            i <= hits@.len(),
            hits@.len() == scores@.len(),
            all.len() == hits@.len(),
            forall|k: int|
                0 <= k < i ==> (#[trigger] hits@[k])@ == (HitView {
                    fusion_score: scores@[k],
                    ..all[k]
                }),
            forall|k: int| i <= k < hits@.len() ==> (#[trigger] hits@[k])@ == all[k],
        decreases hits@.len() - i,
    {
        let mut hit = hits[i].clone();
        hit.fusion_score = scores[i];
        hits.set(i, hit);
        i = i + 1;
    }
    assert(store::hit_views(hits@) =~= scored(all, scores@));
    hits
}

/// The first `limit` hits.
pub fn first_hits(hits: Vec<Hit>, limit: usize) -> (r: Vec<Hit>)
    ensures
        store::hit_views(r@) == matching::first_of(store::hit_views(hits@), limit),
{
    let ghost all = store::hit_views(hits@);
    let mut hits = hits;
    while hits.len() > limit
        invariant
            hits@.len() <= all.len(),
            store::hit_views(hits@) == all.take(hits@.len() as int),
            hits@.len() >= limit || hits@.len() == all.len(),
        decreases hits@.len(),
    {
        let ghost n = hits@.len() - 1;
        let _ = hits.pop();
        assert(store::hit_views(hits@) =~= all.take(n));
    }
    assert(all.take(all.len() as int) =~= all);
    hits
}

/// Give the fused hits their scores, keep those that pass the filter, and take the best
/// `limit` of them.
pub fn shortlist(filter: &EffectiveFilter, hits: Vec<Hit>, scores: &[u32], limit: usize) -> (r: Vec<
    Hit,
>)
    requires
        hits@.len() == scores@.len(),
    ensures
        store::hit_views(r@) == shortlisted(
            filter@,
            store::hit_views(hits@),
            scores@,
            limit,
        ),
{
    let all = with_scores(hits, scores);
    let kept = store::retain_matching(filter, &all);
    let ghost unsorted = kept@;
    let sorted = order::sort(kept);
    proof {
        order::lemma_sorted_maps(
            unsorted,
            |hit: Hit| hit@,
            order::rank::<Hit>(),
            by_score(),
        );
    }
    first_hits(sorted, limit)
}

proof fn lemma_by_score_is_an_order()
    ensures
        order::is_order(by_score()),
{
    let before = by_score();
    assert forall|a: HitView, b: HitView| #[trigger] before(a, b) implies !before(b, a) by {
        order::lemma_precedes_total(a.chunk.relative_file_path, b.chunk.relative_file_path);
    }
    assert forall|a: HitView, b: HitView, c: HitView|
        !(#[trigger] before(a, b)) && !(#[trigger] before(b, c)) implies !before(a, c) by {
        let (x, y, z) = (
            a.chunk.relative_file_path,
            b.chunk.relative_file_path,
            c.chunk.relative_file_path,
        );
        order::lemma_precedes_total(x, y);
        order::lemma_precedes_total(y, z);
        order::lemma_precedes_total(x, z);
        if x != y && y != z && !order::precedes(x, y) && !order::precedes(y, z) {
            order::lemma_precedes_transitive(z, y, x);
        }
    }
}

/// Every hit on the shortlist passes the filter.
pub proof fn law_the_shortlist_passes_the_filter(
    filter: FilterView,
    hits: Seq<HitView>,
    scores: Seq<u32>,
    limit: usize,
    i: int,
)
    requires
        0 <= i < shortlisted(filter, hits, scores, limit).len(),
    ensures
        store::hit_passes(filter, shortlisted(filter, hits, scores, limit)[i]),
{
    let kept = store::passing(filter, scored(hits, scores));
    let sorted = order::sorted_by(kept, by_score());
    let hit = shortlisted(filter, hits, scores, limit)[i];
    assert(sorted[i] == hit);
    assert(sorted.contains(hit));
    lemma_by_score_is_an_order();
    order::lemma_sorted_contains(kept, by_score(), hit);
    let k = choose|k: int| 0 <= k < kept.len() && kept[k] == hit;
    store::lemma_passing(filter, scored(hits, scores));
    assert(store::hit_passes(filter, kept[k]));
}

/// The shortlist stands by falling score, and no better hit that passes is left out.
pub proof fn law_the_shortlist_is_the_best(
    filter: FilterView,
    hits: Seq<HitView>,
    scores: Seq<u32>,
    limit: usize,
)
    ensures
        ({
            let list = shortlisted(filter, hits, scores, limit);
            let all = order::sorted_by(store::passing(filter, scored(hits, scores)), by_score());
            &&& list.len() <= limit
            &&& list.len() == limit || list.len() == all.len()
            &&& order::in_order(all, by_score())
            &&& list == all.take(list.len() as int)
        }),
{
    lemma_by_score_is_an_order();
    let kept = store::passing(filter, scored(hits, scores));
    order::law_sorting_orders_the_items(kept, by_score());
    let all = order::sorted_by(kept, by_score());
    assert(all.take(all.len() as int) =~= all);
}

/// A number is greater than another: both positive with the greater bits, both negative with
/// the smaller bits, or the one positive and the other negative.
pub open spec fn is_greater(a: u32, b: u32) -> bool {
    ||| a < 0x8000_0000 && b < 0x8000_0000 && a > b
    ||| a >= 0x8000_0000 && b >= 0x8000_0000 && a < b
    ||| a < 0x8000_0000 && b >= 0x8000_0000
}

/// On the shortlist no hit stands behind one with a lower score. Hits with the same score
/// stand by path, and those of one file by first line.
pub proof fn law_the_shortlist_stands_by_falling_score(
    filter: FilterView,
    hits: Seq<HitView>,
    scores: Seq<u32>,
    limit: usize,
    i: int,
    j: int,
)
    requires
        0 <= i < j < shortlisted(filter, hits, scores, limit).len(),
    ensures
        ({
            let list = shortlisted(filter, hits, scores, limit);
            let (a, b) = (list[i], list[j]);
            let (x, y) = (a.chunk.relative_file_path, b.chunk.relative_file_path);
            &&& !is_greater(b.fusion_score, a.fusion_score)
            &&& a.fusion_score == b.fusion_score ==> order::precedes(x, y) || x == y
                && a.chunk.start_line <= b.chunk.start_line
        }),
{
    lemma_by_score_is_an_order();
    let kept = store::passing(filter, scored(hits, scores));
    order::law_sorting_orders_the_items(kept, by_score());
    let all = order::sorted_by(kept, by_score());
    let list = shortlisted(filter, hits, scores, limit);
    assert(list[i] == all[i] && list[j] == all[j]);
    assert(!by_score()(all[j], all[i]));
    order::lemma_precedes_total(
        list[i].chunk.relative_file_path,
        list[j].chunk.relative_file_path,
    );
}

/// A fused hit that passes the filter is on the shortlist with its score, unless the
/// shortlist is full of hits that do not have a lower score.
pub proof fn law_no_better_hit_is_left_out(
    filter: FilterView,
    hits: Seq<HitView>,
    scores: Seq<u32>,
    limit: usize,
    k: int,
)
    requires
        0 <= k < hits.len(),
        store::hit_passes(filter, hits[k]),
    ensures
        ({
            let list = shortlisted(filter, hits, scores, limit);
            let hit = HitView { fusion_score: scores[k], ..hits[k] };
            list.contains(hit) || (list.len() == limit && forall|i: int|
                0 <= i < list.len() ==> !is_greater(
                    scores[k],
                    (#[trigger] list[i]).fusion_score,
                ))
        }),
{
    lemma_by_score_is_an_order();
    let given = scored(hits, scores);
    let kept = store::passing(filter, given);
    let hit = HitView { fusion_score: scores[k], ..hits[k] };
    order::law_sorting_orders_the_items(kept, by_score());
    let all = order::sorted_by(kept, by_score());
    let list = shortlisted(filter, hits, scores, limit);
    assert(given[k] == hit);
    lemma_passing_keeps(filter, given, k);
    order::lemma_sorted_contains(kept, by_score(), hit);
    let at = choose|at: int| 0 <= at < all.len() && all[at] == hit;
    if at < list.len() {
        assert(list[at] == hit);
    } else {
        assert forall|i: int| 0 <= i < list.len() implies !is_greater(
            scores[k],
            (#[trigger] list[i]).fusion_score,
        ) by {
            assert(list[i] == all[i]);
            assert(!by_score()(all[at], all[i]));
        }
    }
}

/// Every hit on the shortlist is one of the fused hits, with its score and nothing else
/// changed, and no more of them stand there than are wanted.
pub proof fn law_the_shortlist_adds_nothing(
    filter: FilterView,
    hits: Seq<HitView>,
    scores: Seq<u32>,
    limit: usize,
    i: int,
)
    requires
        0 <= i < shortlisted(filter, hits, scores, limit).len(),
    ensures
        shortlisted(filter, hits, scores, limit).len() <= limit,
        exists|k: int|
            0 <= k < hits.len() && shortlisted(filter, hits, scores, limit)[i] == (HitView {
                fusion_score: scores[k],
                ..#[trigger] hits[k]
            }),
{
    lemma_by_score_is_an_order();
    let given = scored(hits, scores);
    let kept = store::passing(filter, given);
    let all = order::sorted_by(kept, by_score());
    let hit = shortlisted(filter, hits, scores, limit)[i];
    assert(all[i] == hit);
    order::lemma_sorted_contains(kept, by_score(), hit);
    assert(all.contains(hit));
    let at = choose|at: int| 0 <= at < kept.len() && kept[at] == hit;
    store::lemma_passing(filter, given);
    assert(given.contains(kept[at]));
    let k = choose|k: int| 0 <= k < given.len() && given[k] == hit;
    assert(hits[k] == hits[k]);
}

proof fn lemma_passing_keeps(filter: FilterView, hits: Seq<HitView>, k: int)
    requires
        0 <= k < hits.len(),
        store::hit_passes(filter, hits[k]),
    ensures
        store::passing(filter, hits).contains(hits[k]),
    decreases hits.len(),
{
    let rest = hits.drop_last();
    let out = store::passing(filter, hits);
    if k < rest.len() {
        lemma_passing_keeps(filter, rest, k);
        let before = store::passing(filter, rest);
        let at = choose|at: int| 0 <= at < before.len() && before[at] == rest[k];
        assert(out[at] == hits[k]);
    } else {
        assert(out.last() == hits[k]);
    }
}

} // verus!

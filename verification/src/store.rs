//! What the vector store holds and hands back: table columns and search hits.

use crate::chunk::{self, Chunk, ChunkView};
use crate::filter::request::{self, FilterView};
use crate::filter::source_role::{self, SourceRole};
use crate::filter::EffectiveFilter;
use crate::table::Table;
use crate::workspace::Workspace;
use crate::{float, paths, text};
use vstd::prelude::*;

verus! {

// ---------------------------------------------------------------------------
// Hits
// ---------------------------------------------------------------------------

/// A chunk that a search found, with how it was found.
///
/// Scores are single-precision numbers by their bits. `fusion_terms` are the ranks
/// whose reciprocals add up to the fusion score, in the order in which they are added;
/// `source_role_prior`, in thousandths, is added last.
#[derive(Debug)]
pub struct Hit {
    pub file_path: String,
    pub chunk: Chunk,
    pub semantic_score: Option<u32>,
    pub semantic_rank: Option<usize>,
    pub lexical_rank: Option<usize>,
    pub lexical_match_count: u32,
    pub lsp_rank: Option<usize>,
    pub fusion_terms: Vec<usize>,
    pub fusion_score: u32,
    pub source_role: SourceRole,
    pub source_role_prior: u32,
    pub retrieval_channels: Vec<String>,
    pub reranker_score: Option<u32>,
}

/// What a [`Hit`] says.
pub struct HitView {
    pub file_path: Seq<char>,
    pub chunk: ChunkView,
    pub semantic_score: Option<u32>,
    pub semantic_rank: Option<usize>,
    pub lexical_rank: Option<usize>,
    pub lexical_match_count: u32,
    pub lsp_rank: Option<usize>,
    pub fusion_terms: Seq<usize>,
    pub fusion_score: u32,
    pub source_role: SourceRole,
    pub source_role_prior: u32,
    pub retrieval_channels: Seq<Seq<char>>,
    pub reranker_score: Option<u32>,
}

impl View for Hit {
    type V = HitView;

    open spec fn view(&self) -> HitView {
        HitView {
            file_path: self.file_path@,
            chunk: self.chunk@,
            semantic_score: self.semantic_score,
            semantic_rank: self.semantic_rank,
            lexical_rank: self.lexical_rank,
            lexical_match_count: self.lexical_match_count,
            lsp_rank: self.lsp_rank,
            fusion_terms: self.fusion_terms@,
            fusion_score: self.fusion_score,
            source_role: self.source_role,
            source_role_prior: self.source_role_prior,
            retrieval_channels: text::views(self.retrieval_channels@),
            reranker_score: self.reranker_score,
        }
    }
}

pub open spec fn hit_views(hits: Seq<Hit>) -> Seq<HitView> {
    hits.map_values(|hit: Hit| hit@)
}

fn clone_ranks(ranks: &[usize]) -> (r: Vec<usize>)
    ensures
        r@ == ranks@,
{
    let mut out: Vec<usize> = Vec::new();
    let mut i: usize = 0;
    while i < ranks.len()
        invariant
            i <= ranks@.len(),
            out@ == ranks@.take(i as int),
        decreases ranks@.len() - i,
    {
        out.push(ranks[i]);
        assert(out@ =~= ranks@.take(i + 1));
        i = i + 1;
    }
    assert(ranks@.take(ranks@.len() as int) =~= ranks@);
    out
}

impl Clone for Hit {
    fn clone(&self) -> (r: Self)
        ensures
            r@ == self@,
    {
        Hit {
            file_path: self.file_path.clone(),
            chunk: self.chunk.clone(),
            semantic_score: self.semantic_score,
            semantic_rank: self.semantic_rank,
            lexical_rank: self.lexical_rank,
            lexical_match_count: self.lexical_match_count,
            lsp_rank: self.lsp_rank,
            fusion_terms: clone_ranks(&self.fusion_terms),
            fusion_score: self.fusion_score,
            source_role: self.source_role,
            source_role_prior: self.source_role_prior,
            retrieval_channels: text::clone_texts(&self.retrieval_channels),
            reranker_score: self.reranker_score,
        }
    }
}

/// The fusion prior of a role, in thousandths: production source is preferred a little.
pub open spec fn role_prior(role: SourceRole) -> u32 {
    match role {
        SourceRole::Source => 4,
        _ => 0,
    }
}

/// The hit of a chunk that no channel has found yet.
pub open spec fn fresh_hit(root: Seq<char>, chunk: ChunkView) -> HitView {
    let role = source_role::role_of(chunk.relative_file_path);
    HitView {
        file_path: paths::below(root, chunk.relative_file_path),
        chunk,
        semantic_score: None,
        semantic_rank: None,
        lexical_rank: None,
        lexical_match_count: 0,
        lsp_rank: None,
        fusion_terms: seq![],
        fusion_score: 0,
        source_role: role,
        source_role_prior: role_prior(role),
        retrieval_channels: seq![],
        reranker_score: None,
    }
}

/// The hit of a chunk below `root` that no channel has found yet.
pub fn chunk_hit(root: &str, chunk: Chunk) -> (r: Hit)
    ensures
        r@ == fresh_hit(root@, chunk@),
{
    let role = source_role::classify_source_role(chunk.relative_file_path.as_str());
    let prior: u32 = match role {
        SourceRole::Source => 4,
        _ => 0,
    };
    let file_path = paths::join_path(root, chunk.relative_file_path.as_str());
    let fusion_terms: Vec<usize> = Vec::new();
    let retrieval_channels: Vec<String> = Vec::new();
    assert(fusion_terms@ =~= seq![]);
    assert(text::views(retrieval_channels@) =~= seq![]);
    Hit {
        file_path,
        chunk,
        semantic_score: None,
        semantic_rank: None,
        lexical_rank: None,
        lexical_match_count: 0,
        lsp_rank: None,
        fusion_terms,
        fusion_score: 0,
        source_role: role,
        source_role_prior: prior,
        retrieval_channels,
        reranker_score: None,
    }
}

/// A hit passes a filter.
pub open spec fn hit_passes(filter: FilterView, hit: HitView) -> bool {
    request::passes(filter, hit.chunk.language, hit.chunk.relative_file_path, hit.source_role)
}

/// Report whether a hit passes a filter.
pub fn hit_matches(filter: &EffectiveFilter, hit: &Hit) -> (r: bool)
    ensures
        r == hit_passes(filter@, hit@),
{
    filter.matches(
        hit.chunk.language.as_str(),
        hit.chunk.relative_file_path.as_str(),
        hit.source_role,
    )
}

/// The hits that pass a filter, in order.
pub open spec fn passing(filter: FilterView, hits: Seq<HitView>) -> Seq<HitView>
    decreases hits.len(),
{
    if hits.len() == 0 {
        seq![]
    } else {
        let before = passing(filter, hits.drop_last());
        if hit_passes(filter, hits.last()) {
            before.push(hits.last())
        } else {
            before
        }
    }
}

/// Keep the hits that pass a filter, in order.
pub fn retain_matching(filter: &EffectiveFilter, hits: &[Hit]) -> (r: Vec<Hit>)
    ensures
        hit_views(r@) == passing(filter@, hit_views(hits@)),
{
    let ghost all = hit_views(hits@);
    let mut out: Vec<Hit> = Vec::new();
    let mut i: usize = 0;
    proof {
        assert(all.take(0) =~= seq![]);
        assert(hit_views(out@) =~= seq![]);
    }
    while i < hits.len()
        invariant
            i <= hits@.len(),
            all == hit_views(hits@),
            hit_views(out@) == passing(filter@, all.take(i as int)),
        decreases hits@.len() - i,
    {
        proof {
            let next = all.take(i + 1);
            assert(next.drop_last() =~= all.take(i as int));
            assert(next.last() == hits@[i as int]@);
        }
        if hit_matches(filter, &hits[i]) {
            let ghost before = out@;
            let kept = hits[i].clone();
            out.push(kept);
            assert(hit_views(out@) =~= hit_views(before).push(kept@));
        }
        i = i + 1;
    }
    assert(all.take(all.len() as int) =~= all);
    out
}

/// Everything that is kept passes the filter, and nothing else is in the list.
pub proof fn lemma_passing(filter: FilterView, hits: Seq<HitView>)
    ensures
        forall|i: int|
            0 <= i < passing(filter, hits).len() ==> hit_passes(
                filter,
                #[trigger] passing(filter, hits)[i],
            ) && hits.contains(passing(filter, hits)[i]),
    decreases hits.len(),
{
    if hits.len() > 0 {
        let rest = hits.drop_last();
        lemma_passing(filter, rest);
        let kept = passing(filter, hits);
        assert forall|i: int| 0 <= i < kept.len() implies hit_passes(filter, #[trigger] kept[i])
            && hits.contains(kept[i]) by {
            if i < passing(filter, rest).len() {
                assert(kept[i] == passing(filter, rest)[i]);
                assert(rest.contains(kept[i]));
                let k = choose|k: int| 0 <= k < rest.len() && rest[k] == kept[i];
                assert(hits[k] == kept[i]);
            } else {
                assert(hits[hits.len() - 1] == kept[i]);
            }
        }
    }
}

/// The hits of stored chunks.
pub fn chunk_hits(root: &str, chunks: Vec<Chunk>) -> (r: Vec<Hit>)
    ensures
        r@.len() == chunks@.len(),
        forall|i: int| 0 <= i < r@.len() ==> (#[trigger] r@[i])@ == fresh_hit(root@, chunks@[i]@),
{
    let mut out: Vec<Hit> = Vec::new();
    let mut i: usize = 0;
    while i < chunks.len()
        invariant
            i <= chunks@.len(),
            out@.len() == i,
            forall|k: int|
                0 <= k < i ==> (#[trigger] out@[k])@ == fresh_hit(root@, chunks@[k]@),
        decreases chunks@.len() - i,
    {
        out.push(chunk_hit(root, chunks[i].clone()));
        i = i + 1;
    }
    out
}

// ---------------------------------------------------------------------------
// Semantic search
// ---------------------------------------------------------------------------

/// A row of a nearest-neighbour search: the chunk, its distance, and one minus its
/// distance, as numbers by their bits.
#[derive(Debug)]
pub struct SemanticRow {
    pub chunk: Chunk,
    pub distance: u32,
    pub score: u32,
}

/// What the store refuses.
#[derive(Debug, Clone, Copy, PartialEq, Eq, Structural)]
pub enum StoreError {
    QueryDimension,
    NonfiniteDistance,
    InvalidDimensions,
    DimensionChanged,
    MissingIdentity,
    VectorSchema,
}

impl StoreError {
    /// The text of the error.
    pub open spec fn text(self) -> Seq<char> {
        match self {
            StoreError::QueryDimension => "query embedding dimension differs from index; reindex workspace"@,
            StoreError::NonfiniteDistance => "nonfinite semantic distance"@,
            StoreError::InvalidDimensions => "invalid chunk/vector dimensions"@,
            StoreError::DimensionChanged => "embedding dimension changed; reindex with a stable model"@,
            StoreError::MissingIdentity => "missing index embedding identity"@,
            StoreError::VectorSchema => "invalid vector schema"@,
        }
    }

    /// The text of the error.
    pub fn message(&self) -> (r: &'static str)
        ensures
            r@ == self.text(),
    {
        match self {
            StoreError::QueryDimension => {
                "query embedding dimension differs from index; reindex workspace"
            },
            StoreError::NonfiniteDistance => "nonfinite semantic distance",
            StoreError::InvalidDimensions => "invalid chunk/vector dimensions",
            StoreError::DimensionChanged => {
                "embedding dimension changed; reindex with a stable model"
            },
            StoreError::MissingIdentity => "missing index embedding identity",
            StoreError::VectorSchema => "invalid vector schema",
        }
    }
}

/// Test that a query vector fits the index.
pub fn check_query_dimension(length: usize, dimension: usize) -> (r: Result<(), StoreError>)
    ensures
        r == if length == dimension {
            Ok::<(), StoreError>(())
        } else {
            Err::<(), StoreError>(StoreError::QueryDimension)
        },
{
    if length == dimension {
        Ok(())
    } else {
        Err(StoreError::QueryDimension)
    }
}

/// The hit of a row at a rank.
pub open spec fn semantic_hit(root: Seq<char>, row: SemanticRow, rank: usize) -> HitView {
    HitView {
        semantic_score: Some(row.score),
        semantic_rank: Some(rank),
        retrieval_channels: seq!["semantic"@],
        ..fresh_hit(root, row.chunk@)
    }
}

/// The hits of the rows that pass a filter, ranked in order from one.
pub open spec fn semantic_list(
    root: Seq<char>,
    filter: FilterView,
    rows: Seq<SemanticRow>,
) -> Seq<HitView>
    decreases rows.len(),
{
    if rows.len() == 0 {
        seq![]
    } else {
        let before = semantic_list(root, filter, rows.drop_last());
        let hit = semantic_hit(root, rows.last(), (before.len() + 1) as usize);
        if hit_passes(filter, hit) {
            before.push(hit)
        } else {
            before
        }
    }
}

pub open spec fn all_distances_finite(rows: Seq<SemanticRow>) -> bool {
    forall|i: int| 0 <= i < rows.len() ==> float::is_finite((#[trigger] rows[i]).distance)
}

/// Turn the rows of a nearest-neighbour search into ranked hits.
pub fn semantic_hits(root: &str, filter: &EffectiveFilter, rows: &[SemanticRow]) -> (r: Result<
    Vec<Hit>,
    StoreError,
>)
    ensures
        match r {
            Ok(hits) => {
                &&& all_distances_finite(rows@)
                &&& hit_views(hits@) == semantic_list(root@, filter@, rows@)
            },
            Err(error) => error == StoreError::NonfiniteDistance && !all_distances_finite(rows@),
        },
{
    let mut out: Vec<Hit> = Vec::new();
    let mut i: usize = 0;
    proof {
        assert(rows@.take(0) =~= seq![]);
        assert(hit_views(out@) =~= seq![]);
    }
    while i < rows.len()
        invariant
            i <= rows@.len(),
            out@.len() <= i,
            forall|k: int| 0 <= k < i ==> float::is_finite((#[trigger] rows@[k]).distance),
            hit_views(out@) == semantic_list(root@, filter@, rows@.take(i as int)),
        decreases rows@.len() - i,
    {
        let row = &rows[i];
        proof {
            let next = rows@.take(i + 1);
            assert(next.drop_last() =~= rows@.take(i as int));
            assert(next.last() == *row);
            assert(hit_views(out@).len() == out@.len());
        }
        if !float::finite(row.distance) {
            assert(!float::is_finite(rows@[i as int].distance));
            return Err(StoreError::NonfiniteDistance);
        }
        let mut hit = chunk_hit(root, row.chunk.clone());
        hit.semantic_score = Some(row.score);
        hit.semantic_rank = Some(out.len() + 1);
        hit.retrieval_channels.push("semantic".to_owned());
        proof {
            assert(text::views(hit.retrieval_channels@) =~= seq!["semantic"@]);
            assert(hit@ == semantic_hit(root@, *row, (out@.len() + 1) as usize));
        }
        if hit_matches(filter, &hit) {
            let ghost before = out@;
            let ghost added = hit@;
            out.push(hit);
            assert(hit_views(out@) =~= hit_views(before).push(added));
        }
        i = i + 1;
    }
    assert(rows@.take(rows@.len() as int) =~= rows@);
    Ok(out)
}

// ---------------------------------------------------------------------------
// Tables
// ---------------------------------------------------------------------------

/// The columns and the metadata of the table of a workspace. The vector column is
/// taken from the vectors as they are.
#[derive(Debug)]
pub struct TableContents {
    pub workspace_ids: Vec<String>,
    pub relative_file_paths: Vec<String>,
    pub languages: Vec<String>,
    pub codes: Vec<String>,
    pub content_hashes: Vec<String>,
    pub start_lines: Vec<u32>,
    pub end_lines: Vec<u32>,
    pub embedding_identity: String,
    pub workspace_path: String,
    pub indexed_at: String,
}

/// Every row of the columns is the chunk at its place.
pub open spec fn holds_chunks(
    table: TableContents,
    workspace_id: Seq<char>,
    chunks: Seq<Chunk>,
    count: int,
) -> bool {
    &&& table.workspace_ids@.len() == count
    &&& table.relative_file_paths@.len() == count
    &&& table.languages@.len() == count
    &&& table.codes@.len() == count
    &&& table.content_hashes@.len() == count
    &&& table.start_lines@.len() == count
    &&& table.end_lines@.len() == count
    &&& forall|i: int| 0 <= i < count ==> (#[trigger] table.workspace_ids@[i])@ == workspace_id
    &&& forall|i: int|
        0 <= i < count ==> {
            &&& table.relative_file_paths@[i]@ == (#[trigger] chunks[i]).relative_file_path@
            &&& table.languages@[i]@ == chunks[i].language@
            &&& table.codes@[i]@ == chunks[i].code@
            &&& table.content_hashes@[i]@ == chunks[i].content_hash@
            &&& table.start_lines@[i] == chunks[i].start_line
            &&& table.end_lines@[i] == chunks[i].end_line
        }
}

/// Every vector has `dimension` numbers.
pub open spec fn all_lengths(lengths: Seq<usize>, dimension: usize) -> bool {
    forall|i: int| 0 <= i < lengths.len() ==> #[trigger] lengths[i] == dimension
}

/// Lay out the table of a workspace. `lengths` are the lengths of the chunks' vectors,
/// and `now` is the time in seconds since the Unix epoch.
pub fn table_contents(
    workspace: &Workspace,
    chunks: &[Chunk],
    lengths: &[usize],
    identity: &str,
    dimension: usize,
    now: u64,
) -> (r: Result<TableContents, StoreError>)
    ensures
        match r {
            Ok(table) => {
                &&& chunks@.len() == lengths@.len()
                &&& dimension > 0
                &&& all_lengths(lengths@, dimension)
                &&& holds_chunks(table, workspace.id@, chunks@, chunks@.len() as int)
                &&& table.embedding_identity@ == identity@
                &&& table.workspace_path@ == workspace.path@
                &&& table.indexed_at@ == text::decimal(now as nat)
            },
            Err(StoreError::InvalidDimensions) => chunks@.len() != lengths@.len() || dimension == 0,
            Err(error) => {
                &&& error == StoreError::DimensionChanged
                &&& chunks@.len() == lengths@.len()
                &&& dimension > 0
                &&& !all_lengths(lengths@, dimension)
            },
        },
{
    if chunks.len() != lengths.len() || dimension == 0 {
        return Err(StoreError::InvalidDimensions);
    }
    let mut n: usize = 0;
    while n < lengths.len()
        invariant
            n <= lengths@.len(),
            chunks@.len() == lengths@.len(),
            dimension > 0,
            forall|i: int| 0 <= i < n ==> #[trigger] lengths@[i] == dimension,
        decreases lengths@.len() - n,
    {
        if lengths[n] != dimension {
            assert(!(lengths@[n as int] == dimension));
            return Err(StoreError::DimensionChanged);
        }
        n = n + 1;
    }
    let mut table = TableContents {
        workspace_ids: Vec::new(),
        relative_file_paths: Vec::new(),
        languages: Vec::new(),
        codes: Vec::new(),
        content_hashes: Vec::new(),
        start_lines: Vec::new(),
        end_lines: Vec::new(),
        embedding_identity: identity.to_owned(),
        workspace_path: workspace.path.clone(),
        indexed_at: text::decimal_text(now),
    };
    let mut i: usize = 0;
    while i < chunks.len()
        invariant
            i <= chunks@.len(),
            holds_chunks(table, workspace.id@, chunks@, i as int),
            table.embedding_identity@ == identity@,
            table.workspace_path@ == workspace.path@,
            table.indexed_at@ == text::decimal(now as nat),
        decreases chunks@.len() - i,
    {
        let chunk = &chunks[i];
        table.workspace_ids.push(workspace.id.clone());
        table.relative_file_paths.push(chunk.relative_file_path.clone());
        table.languages.push(chunk.language.clone());
        table.codes.push(chunk.code.clone());
        table.content_hashes.push(chunk.content_hash.clone());
        table.start_lines.push(chunk.start_line);
        table.end_lines.push(chunk.end_line);
        i = i + 1;
    }
    Ok(table)
}

/// The names of the text columns of a table, in order.
pub fn text_columns() -> (r: [&'static str; 5])
    ensures
        r@[0]@ == "workspace_id"@,
        r@[1]@ == "relative_file_path"@,
        r@[2]@ == "language"@,
        r@[3]@ == "code"@,
        r@[4]@ == "content_hash"@,
{
    ["workspace_id", "relative_file_path", "language", "code", "content_hash"]
}

// ---------------------------------------------------------------------------
// Snapshots
// ---------------------------------------------------------------------------

/// What is known of a snapshot.
#[derive(Debug)]
pub struct SnapshotInfo {
    pub identity: String,
    pub dimension: usize,
    pub indexed_at: String,
}

/// Read what the schema of a table says of a snapshot: the metadata `embedding_identity`
/// and `indexed_at`, and the length of the vectors where they have a fixed one.
pub fn read_snapshot(
    identity: Option<String>,
    dimension: Option<usize>,
    indexed_at: Option<String>,
) -> (r: Result<SnapshotInfo, StoreError>)
    ensures
        match r {
            Ok(info) => {
                &&& identity == Some(info.identity)
                &&& dimension == Some(info.dimension)
                &&& info.indexed_at@ == (match indexed_at {
                    Some(time) => time@,
                    None => seq![],
                })
            },
            Err(StoreError::MissingIdentity) => identity is None,
            Err(StoreError::VectorSchema) => identity is Some && dimension is None,
            Err(_) => false,
        },
{
    let identity = match identity {
        Some(identity) => identity,
        None => {
            return Err(StoreError::MissingIdentity);
        },
    };
    let dimension: usize = match dimension {
        Some(dimension) => dimension,
        None => {
            return Err(StoreError::VectorSchema);
        },
    };
    let indexed_at = match indexed_at {
        Some(time) => time,
        None => {
            let none = String::new();
            assert(none@ =~= seq![]);
            none
        },
    };
    Ok(SnapshotInfo { identity, dimension, indexed_at })
}

/// The vector of a chunk, by the hash of its content.
#[derive(Debug)]
pub struct VectorRow {
    pub content_hash: String,
    pub vector: Vec<u32>,
}

/// The vectors by the hashes of their chunks; the last row of a hash counts.
pub open spec fn vector_cache(rows: Seq<VectorRow>) -> Map<Seq<char>, Vec<u32>>
    decreases rows.len(),
{
    if rows.len() == 0 {
        Map::empty()
    } else {
        vector_cache(rows.drop_last()).insert(rows.last().content_hash@, rows.last().vector)
    }
}

/// Collect the vectors of a snapshot by the hashes of their chunks.
pub fn cached_vectors(rows: Vec<VectorRow>) -> (r: Table<Vec<u32>>)
    ensures
        r@ == vector_cache(rows@),
{
    let ghost all = rows@;
    let mut out: Table<Vec<u32>> = Table::new();
    assert(all.take(0) =~= seq![]);
    for row in list: rows
        invariant
            list.seq() == all,
            out@ == vector_cache(all.take(list.index() as int)),
    {
        proof {
            let next = all.take(list.index() + 1);
            assert(next.drop_last() =~= all.take(list.index() as int));
            assert(next.last() == row);
        }
        out.insert(row.content_hash, row.vector);
    }
    assert(all.take(all.len() as int) =~= all);
    out
}

// ---------------------------------------------------------------------------
// Laws of the store
// ---------------------------------------------------------------------------

/// Filtering keeps the hits that pass, and their order.
pub proof fn law_filtering_keeps_what_passes(filter: FilterView, hits: Seq<HitView>)
    ensures
        passing(filter, hits) == hits.filter(
            |hit: HitView|
                request::passes(
                    filter,
                    hit.chunk.language,
                    hit.chunk.relative_file_path,
                    hit.source_role,
                ),
        ),
    decreases hits.len(),
{
    reveal(Seq::filter);
    if hits.len() > 0 {
        law_filtering_keeps_what_passes(filter, hits.drop_last());
    }
}

/// Semantic hits are the rows whose files pass the filter, in their order and with their
/// scores, ranked from one without gaps. No other channel has found them yet.
pub proof fn law_semantic_hits_are_the_rows_that_pass(
    root: Seq<char>,
    filter: FilterView,
    rows: Seq<SemanticRow>,
    k: int,
)
    requires
        rows.len() < usize::MAX,
    ensures
        ({
            let list = semantic_list(root, filter, rows);
            let kept = rows.filter(|row: SemanticRow| row_passes(filter, row));
            &&& list.len() == kept.len()
            &&& 0 <= k < list.len() ==> {
                &&& list[k].chunk == kept[k].chunk@
                &&& list[k].semantic_score == Some(kept[k].score)
                &&& list[k].semantic_rank == Some((k + 1) as usize)
                &&& list[k].retrieval_channels == seq!["semantic"@]
                &&& list[k].file_path == paths::below(root, kept[k].chunk.relative_file_path@)
                &&& list[k].source_role == source_role::role_of(
                    kept[k].chunk.relative_file_path@,
                )
                &&& list[k].lexical_rank is None
                &&& list[k].lsp_rank is None
                &&& list[k].fusion_terms == Seq::<usize>::empty()
                &&& list[k].reranker_score is None
            }
        }),
    decreases rows.len(),
{
    reveal(Seq::filter);
    if rows.len() > 0 {
        let rest = rows.drop_last();
        law_semantic_hits_are_the_rows_that_pass(root, filter, rest, k);
    }
}

/// The file of a row passes a filter, with the role that its path has.
pub open spec fn row_passes(filter: FilterView, row: SemanticRow) -> bool {
    request::passes(
        filter,
        row.chunk.language@,
        row.chunk.relative_file_path@,
        source_role::role_of(row.chunk.relative_file_path@),
    )
}

/// Source files are preferred, by four thousandths, and all other roles are alike.
pub proof fn law_source_files_are_preferred(a: SourceRole, b: SourceRole)
    ensures
        a == SourceRole::Source && b != SourceRole::Source ==> role_prior(a) > role_prior(b),
        a != SourceRole::Source ==> role_prior(a) == 0,
        role_prior(SourceRole::Source) == 4,
{
}

/// The vector of a hash is that of the last row with it.
pub proof fn law_the_last_vector_of_a_hash_counts(rows: Seq<VectorRow>, hash: Seq<char>)
    ensures
        vector_cache(rows).contains_key(hash) <==> exists|i: int|
            0 <= i < rows.len() && (#[trigger] rows[i]).content_hash@ == hash,
        vector_cache(rows).contains_key(hash) ==> exists|i: int|
            {
                &&& 0 <= i < rows.len()
                &&& (#[trigger] rows[i]).content_hash@ == hash
                &&& vector_cache(rows)[hash] == rows[i].vector
                &&& forall|j: int|
                    i < j < rows.len() ==> (#[trigger] rows[j]).content_hash@ != hash
            },
    decreases rows.len(),
{
    if rows.len() > 0 {
        let rest = rows.drop_last();
        let n = rows.len() - 1;
        law_the_last_vector_of_a_hash_counts(rest, hash);
        assert(forall|i: int| 0 <= i < n ==> rest[i] == #[trigger] rows[i]);
        if rows[n].content_hash@ == hash {
            assert(vector_cache(rows)[hash] == rows[n].vector);
        } else if vector_cache(rest).contains_key(hash) {
            let i = choose|i: int|
                {
                    &&& 0 <= i < rest.len()
                    &&& (#[trigger] rest[i]).content_hash@ == hash
                    &&& vector_cache(rest)[hash] == rest[i].vector
                    &&& forall|j: int|
                        i < j < rest.len() ==> (#[trigger] rest[j]).content_hash@ != hash
                };
            assert(rows[i].content_hash@ == hash);
            assert forall|j: int| i < j < rows.len() implies (#[trigger] rows[j]).content_hash@
                != hash by {
                if j < n {
                    assert(rest[j].content_hash@ != hash);
                }
            }
        }
    }
}

/// A table that holds chunks has a row for each of them, at its place, with all that is known
/// of it, and no other rows.
pub proof fn law_every_chunk_is_a_row(
    table: TableContents,
    workspace_id: Seq<char>,
    chunks: Seq<Chunk>,
    i: int,
)
    requires
        holds_chunks(table, workspace_id, chunks, chunks.len() as int),
        0 <= i < chunks.len(),
    ensures
        table.workspace_ids@.len() == chunks.len() && table.relative_file_paths@.len()
            == chunks.len() && table.languages@.len() == chunks.len() && table.codes@.len()
            == chunks.len(),
        table.content_hashes@.len() == chunks.len() && table.start_lines@.len() == chunks.len()
            && table.end_lines@.len() == chunks.len(),
        table.workspace_ids@[i]@ == workspace_id,
        chunks[i]@ == (crate::chunk::ChunkView {
            relative_file_path: table.relative_file_paths@[i]@,
            language: table.languages@[i]@,
            start_line: table.start_lines@[i],
            end_line: table.end_lines@[i],
            code: table.codes@[i]@,
            content_hash: table.content_hashes@[i]@,
        }),
{
}

/// A hit that was just made is that of its chunk: its file lies below the root, it has the
/// role of its path, and no channel has found it yet.
pub proof fn law_hits_are_made_of_their_chunks(root: Seq<char>, chunk: ChunkView)
    ensures
        ({
            let hit = fresh_hit(root, chunk);
            &&& hit.chunk == chunk
            &&& hit.file_path == paths::below(root, chunk.relative_file_path)
            &&& hit.source_role == source_role::role_of(chunk.relative_file_path)
            &&& hit.source_role_prior == role_prior(hit.source_role)
            &&& hit.retrieval_channels.len() == 0 && hit.fusion_terms.len() == 0
            &&& hit.semantic_rank is None && hit.lexical_rank is None && hit.lsp_rank is None
            &&& hit.semantic_score is None && hit.reranker_score is None
            &&& hit.lexical_match_count == 0 && hit.fusion_score == 0
        }),
{
}

} // verus!

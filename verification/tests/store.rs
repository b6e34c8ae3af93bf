use local_code_intelligence::chunk::Chunk;
use local_code_intelligence::filter::{EffectiveFilter, FilterRequest, SourceRole};
use local_code_intelligence::store::{
    cached_vectors, check_query_dimension, chunk_hit, hit_matches, read_snapshot, retain_matching,
    semantic_hits, table_contents, text_columns, SemanticRow, StoreError, VectorRow,
};
use local_code_intelligence::workspace::{hash, Workspace, WorkspaceError};

fn chunk(path: &str) -> Chunk {
    Chunk {
        relative_file_path: path.to_owned(),
        language: "rust".to_owned(),
        start_line: 1,
        end_line: 2,
        code: "code".to_owned(),
        content_hash: "hash".to_owned(),
    }
}

fn row(path: &str, distance: f32) -> SemanticRow {
    SemanticRow {
        chunk: chunk(path),
        distance: distance.to_bits(),
        score: (1.0 - distance).to_bits(),
    }
}

fn excluding(pattern: &str) -> EffectiveFilter {
    let request = FilterRequest {
        exclude_paths: Some(vec![pattern.to_owned()]),
        ..FilterRequest::default()
    };
    EffectiveFilter::from_request(&request).unwrap()
}

fn workspace() -> Workspace {
    Workspace {
        id: "id".to_owned(),
        path: "/w".to_owned(),
    }
}

#[test]
fn hits_know_their_file_and_role() {
    let hit = chunk_hit("/w", chunk("src/a.rs"));
    assert_eq!(hit.file_path, "/w/src/a.rs");
    assert_eq!(hit.source_role, SourceRole::Source);
    assert_eq!(hit.source_role_prior, 4);
    assert_eq!(chunk_hit("/w", chunk("tests/a.rs")).source_role_prior, 0);
    assert!(hit_matches(&excluding("tests/**"), &hit));
    assert!(!hit_matches(&excluding("src/**"), &hit));
}

#[test]
fn semantic_hits_are_filtered_and_ranked() {
    let rows = [row("src/a.rs", 0.25), row("tests/b.rs", 0.5), row("src/c.rs", 0.75)];
    let hits = semantic_hits("/w", &excluding("tests/**"), &rows).unwrap();
    assert_eq!(hits.len(), 2);
    assert_eq!(hits[0].semantic_rank, Some(1));
    assert_eq!(hits[1].semantic_rank, Some(2));
    assert_eq!(hits[1].chunk.relative_file_path, "src/c.rs");
    assert_eq!(hits[1].semantic_score, Some(0.25f32.to_bits()));
    assert_eq!(hits[0].retrieval_channels, vec!["semantic"]);
    assert_eq!(retain_matching(&excluding("src/a*"), &hits).len(), 1);
}

#[test]
fn distances_must_be_finite() {
    let rows = [row("a.rs", 0.5), row("b.rs", f32::NAN)];
    let error = semantic_hits("/w", &excluding("x"), &rows).unwrap_err();
    assert_eq!(error, StoreError::NonfiniteDistance);
}

#[test]
fn tables_hold_chunks_of_one_dimension() {
    let chunks = [chunk("a.rs"), chunk("b.rs")];
    let table = table_contents(&workspace(), &chunks, &[3, 3], "identity", 3, 17).unwrap();
    assert_eq!(table.workspace_ids, vec!["id", "id"]);
    assert_eq!(table.relative_file_paths, vec!["a.rs", "b.rs"]);
    assert_eq!(table.end_lines, vec![2, 2]);
    assert_eq!(table.indexed_at, "17");
    assert_eq!(table.workspace_path, "/w");
    let refused = |lengths: &[usize], dimension: usize| {
        table_contents(&workspace(), &chunks, lengths, "identity", dimension, 17).unwrap_err()
    };
    assert_eq!(refused(&[3], 3), StoreError::InvalidDimensions);
    assert_eq!(refused(&[0, 0], 0), StoreError::InvalidDimensions);
    assert_eq!(refused(&[3, 4], 3), StoreError::DimensionChanged);
    assert_eq!(text_columns()[4], "content_hash");
}

#[test]
fn queries_have_the_dimension_of_the_table() {
    assert!(check_query_dimension(3, 3).is_ok());
    assert_eq!(check_query_dimension(3, 4), Err(StoreError::QueryDimension));
}

#[test]
fn snapshots_need_identity_and_dimension() {
    let info = read_snapshot(Some("i".to_owned()), Some(3), None).unwrap();
    assert_eq!((info.identity.as_str(), info.dimension), ("i", 3));
    assert_eq!(info.indexed_at, "");
    let missing = read_snapshot(None, Some(3), None).unwrap_err();
    assert_eq!(missing, StoreError::MissingIdentity);
    let schema = read_snapshot(Some("i".to_owned()), None, None).unwrap_err();
    assert_eq!(schema, StoreError::VectorSchema);
}

#[test]
fn the_last_vector_of_a_content_is_cached() {
    let vector = |content: &str, first: u32| VectorRow {
        content_hash: content.to_owned(),
        vector: vec![first],
    };
    let cache = cached_vectors(vec![vector("b", 1), vector("a", 2), vector("b", 3)]);
    assert_eq!(cache.len(), 2);
    assert_eq!(cache.get("b"), Some(&vec![3]));
    assert_eq!(cache.entry(0).0, "a");
    assert!(cache.get("c").is_none());
}

#[test]
fn hashes_are_sha256_in_hexadecimal_notation() {
    assert_eq!(
        hash("abc"),
        "ba7816bf8f01cfea414140de5dae2223b00361a396177a9cb410ff61f20015ad"
    );
}

#[test]
fn workspaces_and_data_are_apart() {
    let resolved = Workspace::resolve("/home/me/code", true, "/home/me/data").unwrap();
    assert_eq!(resolved.id, hash("/home/me/code"));
    assert_eq!(resolved.table_name(), format!("ws_{}", resolved.id));
    let refused = |path: &str, is_directory: bool| {
        Workspace::resolve(path, is_directory, "/home/me/data").unwrap_err()
    };
    assert_eq!(refused("/home/me", true), WorkspaceError::Overlap);
    assert_eq!(refused("/home/me/data/x", true), WorkspaceError::Overlap);
    assert_eq!(refused("/home/me/data", true), WorkspaceError::Overlap);
    assert_eq!(refused("/home/me/code", false), WorkspaceError::NotADirectory);
    assert!(Workspace::resolve("/home/me/database", true, "/home/me/data").is_ok());
}

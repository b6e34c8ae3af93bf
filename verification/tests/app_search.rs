use local_code_intelligence::app::fusion::{first_hits, fuse_hits, shortlist};
use local_code_intelligence::app::indexing::IndexAction;
use local_code_intelligence::app::matching::{
    find_chunk, map_lexical_matches, map_lsp_locations, rank_matches,
};
use local_code_intelligence::app::search::{
    add_warning, apply_ranks, begin_report, combine, conclude_report, indexed_languages,
    plan_search, provider_failure, rerank_documents, rerank_into_report, Candidates,
    ChannelOutcome, RerankOutcome, Retrieved, SearchError, SearchIndexLifecycle, SemanticFailure,
    Timings,
};
use local_code_intelligence::chunk::Chunk;
use local_code_intelligence::filter::{EffectiveFilter, FilterRequest};
use local_code_intelligence::lexical::LexicalMatch;
use local_code_intelligence::lsp::Location;
use local_code_intelligence::store::{chunk_hits, semantic_hits, Hit, SemanticRow};
use local_code_intelligence::workspace::Workspace;

fn chunk(path: &str, start: u32, end: u32) -> Chunk {
    Chunk {
        relative_file_path: path.to_owned(),
        language: "rust".to_owned(),
        start_line: start,
        end_line: end,
        code: format!("{path}:{start}"),
        content_hash: format!("{path}#{start}"),
    }
}

fn chunks() -> Vec<Hit> {
    chunk_hits(
        "/w",
        vec![
            chunk("src/a.rs", 1, 10),
            chunk("src/a.rs", 11, 20),
            chunk("tests/b.rs", 1, 5),
        ],
    )
}

fn found(path: &str, line: u32) -> LexicalMatch {
    LexicalMatch {
        relative_path: path.to_owned(),
        line,
    }
}

fn located(path: &str, line: u32, language: &str) -> Location {
    Location {
        file_path: format!("/w/{path}"),
        relative_file_path: Some(path.to_owned()),
        start_line: line,
        start_character: 0,
        end_line: line,
        end_character: 1,
        name: None,
        kind: None,
        language: Some(language.to_owned()),
        provider: None,
    }
}

fn no_filter() -> EffectiveFilter {
    EffectiveFilter::from_request(&FilterRequest::default()).unwrap()
}

fn tests_only() -> EffectiveFilter {
    let request = FilterRequest {
        source_roles: Some(vec!["test".to_owned()]),
        ..FilterRequest::default()
    };
    EffectiveFilter::from_request(&request).unwrap()
}

fn places(hits: &[Hit]) -> Vec<(&str, u32)> {
    hits.iter()
        .map(|hit| (hit.chunk.relative_file_path.as_str(), hit.chunk.start_line))
        .collect()
}

fn semantic(rows: Vec<(Chunk, f32)>) -> Vec<Hit> {
    let rows: Vec<SemanticRow> = rows
        .into_iter()
        .map(|(chunk, distance)| SemanticRow {
            chunk,
            distance: distance.to_bits(),
            score: (1.0 - distance).to_bits(),
        })
        .collect();
    semantic_hits("/w", &no_filter(), &rows).unwrap()
}

#[test]
fn chunks_with_more_matches_come_first() {
    let hits = map_lexical_matches(
        &chunks(),
        &[
            found("src/a.rs", 3),
            found("C:\\w\\TESTS\\B.rs", 2),
            found("tests/b.rs", 5),
            found("tests/b.rs", 6),
            found("src/c.rs", 1),
            found("xsrc/a.rs", 12),
        ],
        10,
    );
    assert_eq!(places(&hits), vec![("tests/b.rs", 1), ("src/a.rs", 1)]);
    assert_eq!(hits[0].lexical_match_count, 2);
    assert_eq!(hits[0].lexical_rank, Some(1));
    assert_eq!(hits[1].lexical_rank, Some(2));
    assert_eq!(hits[1].retrieval_channels, vec!["lexical"]);
    let limited = map_lexical_matches(&chunks(), &[found("src/a.rs", 3), found("src/a.rs", 12)], 1);
    assert_eq!(places(&limited), vec![("src/a.rs", 1)]);
}

#[test]
fn locations_count_once_per_chunk() {
    let hits = map_lsp_locations(
        &chunks(),
        &[
            located("tests/b.rs", 2, "rust"),
            located("src/A.rs", 12, "rust"),
            located("src/a.rs", 13, "rust"),
            located("src/a.rs", 2, "python"),
            Location {
                relative_file_path: None,
                ..located("src/a.rs", 2, "rust")
            },
        ],
        10,
    );
    assert_eq!(places(&hits), vec![("tests/b.rs", 1), ("src/a.rs", 11)]);
    assert_eq!(hits[1].lsp_rank, Some(2));
    assert_eq!(hits[1].retrieval_channels, vec!["lsp"]);
}

#[test]
fn fusion_lists_each_chunk_once() {
    let all = chunks();
    let near = semantic(vec![(chunk("src/a.rs", 11, 20), 0.25), (chunk("src/a.rs", 1, 10), 0.5)]);
    let lexical = map_lexical_matches(&all, &[found("src/a.rs", 3), found("tests/b.rs", 1)], 10);
    let lsp = map_lsp_locations(&all, &[located("tests/b.rs", 2, "rust")], 10);
    let fused = fuse_hits(&near, &lexical, &lsp);
    assert_eq!(
        places(&fused),
        vec![("src/a.rs", 11), ("src/a.rs", 1), ("tests/b.rs", 1)]
    );
    let terms: Vec<&[usize]> = fused.iter().map(|hit| hit.fusion_terms.as_slice()).collect();
    assert_eq!(terms, vec![&[1][..], &[2, 1][..], &[2, 1][..]]);
    assert_eq!(fused[1].retrieval_channels, vec!["semantic", "lexical"]);
    assert_eq!(fused[2].retrieval_channels, vec!["lexical", "lsp"]);
    assert_eq!(fused[1].lexical_match_count, 1);
    assert_eq!(fused[0].semantic_score, Some(0.75f32.to_bits()));
}

#[test]
fn the_shortlist_is_the_best_that_passes() {
    let scores = [0.1f32.to_bits(), 0.3f32.to_bits(), 0.2f32.to_bits()];
    let best = shortlist(&no_filter(), chunks(), &scores, 2);
    assert_eq!(places(&best), vec![("src/a.rs", 11), ("tests/b.rs", 1)]);
    assert_eq!(best[0].fusion_score, 0.3f32.to_bits());
    let passing = shortlist(&tests_only(), chunks(), &scores, 2);
    assert_eq!(places(&passing), vec![("tests/b.rs", 1)]);
    let level = shortlist(&no_filter(), chunks(), &[0; 3], 3);
    assert_eq!(
        places(&level),
        vec![("src/a.rs", 1), ("src/a.rs", 11), ("tests/b.rs", 1)]
    );
    assert_eq!(first_hits(chunks(), 1).len(), 1);
    assert_eq!(first_hits(chunks(), 9).len(), 3);
}

#[test]
fn requests_are_tested_before_they_are_carried_out() {
    let none = FilterRequest::default();
    let refused = |query: &str, top_k: Option<usize>| plan_search(query, top_k, 10, &none).unwrap_err();
    assert!(matches!(refused(" \t", None), SearchError::EmptyQuery));
    assert!(matches!(refused(&"é".repeat(8001), None), SearchError::QueryTooLong));
    assert!(matches!(refused("q", Some(0)), SearchError::TopKOutOfRange));
    assert!(matches!(refused("q", Some(41)), SearchError::TopKOutOfRange));
    let bad = FilterRequest {
        languages: Some(vec!["cobol".to_owned()]),
        ..FilterRequest::default()
    };
    assert!(matches!(plan_search("q", None, 10, &bad), Err(SearchError::Filter(_))));
    let plan = plan_search(&"é".repeat(8000), None, 10, &none).unwrap();
    assert_eq!(plan.top_k, 10);
    assert!(!plan.filtering_requested);
    let empty = FilterRequest {
        include_paths: Some(vec![]),
        ..FilterRequest::default()
    };
    let plan = plan_search("q", Some(40), 10, &empty).unwrap();
    assert_eq!(plan.top_k, 40);
    assert!(plan.filtering_requested);
    assert_eq!(SearchError::QueryTooLong.message(), "query exceeds 16000 bytes");
    assert_eq!(
        SearchError::NotIndexed.message(),
        "workspace is not indexed; call index_workspace first"
    );
}

fn retrieved(
    semantic: Result<Vec<Hit>, SemanticFailure>,
    lexical: ChannelOutcome<Vec<LexicalMatch>>,
) -> Retrieved {
    Retrieved {
        semantic,
        lexical,
        lsp_locations: vec![],
        lsp_failures: vec![],
    }
}

#[test]
fn channels_that_fail_are_told_of() {
    let parts = Retrieved {
        lsp_failures: vec![
            provider_failure("gopls", "gone"),
            provider_failure("pyright", "silent"),
        ],
        ..retrieved(
            Err(SemanticFailure::Embedding("refused".to_owned())),
            ChannelOutcome::Failed("no rg".to_owned()),
        )
    };
    let combined = combine(&chunks(), parts, 10, 10, false, Some("earlier".to_owned()));
    assert!(matches!(
        combined.candidates,
        Candidates::Failed(SearchError::NoCandidates)
    ));
    assert_eq!(
        combined.warning.as_deref(),
        Some("earlier; Optional LSP provider unavailable: gopls: gone; pyright: silent; Query embedding unavailable; lexical results used: refused; Lexical retrieval unavailable: no rg")
    );
    let parts = retrieved(
        Err(SemanticFailure::Retrieval("locked".to_owned())),
        ChannelOutcome::Found(vec![found("src/a.rs", 1)]),
    );
    let combined = combine(&chunks(), parts, 10, 10, false, None);
    assert_eq!(
        combined.warning.as_deref(),
        Some("Semantic retrieval unavailable: locked")
    );
    assert!(matches!(combined.candidates, Candidates::Fused(hits) if hits.len() == 1));
}

#[test]
fn a_filter_that_leaves_nothing_is_no_error() {
    let parts = retrieved(Ok(vec![]), ChannelOutcome::Found(vec![]));
    let combined = combine(&chunks(), parts, 10, 10, true, None);
    assert!(matches!(combined.candidates, Candidates::Nothing));
    assert_eq!(combined.warning, None);
}

#[test]
fn warnings_are_joined() {
    assert_eq!(add_warning(None, "a").as_deref(), Some("a"));
    assert_eq!(add_warning(Some("a".to_owned()), "b").as_deref(), Some("a; b"));
}

#[test]
fn reranked_results_pass_the_filter_and_are_bounded() {
    let ranks = vec![(2, 7), (1, 6), (0, 5)];
    let outcome = rerank_into_report(
        &no_filter(),
        chunks(),
        RerankOutcome::Ranks(ranks.clone()),
        2,
        Some("w".to_owned()),
    );
    assert!(outcome.reranked);
    assert_eq!(outcome.warning.as_deref(), Some("w"));
    assert_eq!(places(&outcome.results), vec![("tests/b.rs", 1), ("src/a.rs", 11)]);
    assert_eq!(outcome.results[0].reranker_score, Some(7));
    let filtered = rerank_into_report(&tests_only(), chunks(), RerankOutcome::Ranks(ranks), 3, None);
    assert_eq!(places(&filtered.results), vec![("tests/b.rs", 1)]);
    let failed = rerank_into_report(
        &no_filter(),
        chunks(),
        RerankOutcome::Failed("down".to_owned()),
        2,
        None,
    );
    assert!(!failed.reranked);
    assert_eq!(places(&failed.results), vec![("src/a.rs", 1), ("src/a.rs", 11)]);
    assert!(failed.warning.unwrap().ends_with("down"));
    assert_eq!(apply_ranks(&chunks(), &[(1, 3)], 5).len(), 1);
    assert_eq!(rerank_documents(&chunks())[2], "tests/b.rs\ntests/b.rs:1");
}

#[test]
fn searches_are_told_from_start_to_end() {
    let workspace = Workspace {
        id: "id".to_owned(),
        path: "/w".to_owned(),
    };
    let index = SearchIndexLifecycle {
        action: IndexAction::Created,
        wait_ns: 5,
    };
    let begun = begin_report(workspace, "q", &tests_only(), index, None);
    assert_eq!(begun.candidate_count, 0);
    assert!(begun.results.is_empty());
    assert_eq!(begun.filters.source_roles, Some(vec!["test".to_owned()]));
    let outcome = rerank_into_report(&no_filter(), chunks(), RerankOutcome::Ranks(vec![(0, 1)]), 9, None);
    let timings = Timings {
        query_embedding_ns: 1,
        lancedb_search_ns: 2,
        lexical_search_ns: 3,
        lsp_search_ns: 4,
        fusion_ns: 5,
        reranking_ns: 6,
        total_ns: 21,
    };
    let report = conclude_report(begun, 3, outcome, timings);
    assert_eq!(report.candidate_count, 3);
    assert_eq!(report.timings, timings);
    assert_eq!(report.index, index);
    assert!(report.reranked);
    assert_eq!(places(&report.results), vec![("src/a.rs", 1)]);
}

#[test]
fn languages_are_listed_once() {
    let mut list = chunks();
    list[1].chunk.language = "go".to_owned();
    assert_eq!(indexed_languages(&list), vec!["go", "rust"]);
}

#[test]
fn chunks_are_found_by_name_and_line() {
    let all = chunks();
    let names = ["src/a.rs", "src/a.rs", "tests/b.rs"].map(str::to_owned);
    assert_eq!(find_chunk(&all, &names, "src/a.rs", 11), Some(1));
    assert_eq!(find_chunk(&all, &names, "/w/tests/b.rs", 5), Some(2));
    assert_eq!(find_chunk(&all, &names, "xtests/b.rs", 5), None);
    assert_eq!(find_chunk(&all, &names, "src/a.rs", 21), None);
}

#[test]
fn chunks_are_ranked_by_their_matches() {
    let all = chunks();
    let ranked = rank_matches(&all, &[Some(2), None, Some(1), Some(2), Some(0)], 2);
    assert_eq!(places(&ranked), vec![("tests/b.rs", 1), ("src/a.rs", 1)]);
    assert_eq!(ranked[0].lexical_match_count, 2);
    assert_eq!(ranked[1].lexical_rank, Some(2));
    assert_eq!(ranked[0].retrieval_channels, vec!["lexical".to_owned()]);
    assert!(rank_matches(&all, &[None], 5).is_empty());
}

#[test]
fn locations_map_to_chunks_of_their_language() {
    let all = chunks();
    let locations = vec![
        located("SRC/A.rs", 12, "rust"),
        located("src/a.rs", 2, "go"),
        located("src/a.rs", 13, "rust"),
    ];
    let hits = map_lsp_locations(&all, &locations, 5);
    assert_eq!(places(&hits), vec![("src/a.rs", 11)]);
    assert_eq!(hits[0].lsp_rank, Some(1));
}

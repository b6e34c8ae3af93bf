use local_code_intelligence::json::Json;
use local_code_intelligence::models::{
    embedding_request, embeddings_url, order_embeddings, order_ranks, query_text, rerank_request,
    retry_delay, EmbeddingError, EmbeddingItem, RerankError, MAX_ATTEMPTS, QUERY_INSTRUCTION,
};

fn item(index: usize, vector: &[f32]) -> EmbeddingItem {
    EmbeddingItem {
        index,
        embedding: vector.iter().map(|value| value.to_bits()).collect(),
    }
}

fn bits(vector: &[f32]) -> Vec<u32> {
    vector.iter().map(|value| value.to_bits()).collect()
}

#[test]
fn embeddings_are_put_into_the_order_of_the_texts() {
    let ordered = order_embeddings(
        3,
        vec![item(2, &[3.0, 0.0]), item(0, &[1.0, 0.0]), item(1, &[0.0, 2.0])],
    )
    .unwrap();
    assert_eq!(ordered, vec![bits(&[1.0, 0.0]), bits(&[0.0, 2.0]), bits(&[3.0, 0.0])]);
    assert!(order_embeddings(0, vec![]).unwrap().is_empty());
}

#[test]
fn bad_embeddings_are_refused() {
    let one = |items: Vec<EmbeddingItem>| order_embeddings(2, items).unwrap_err();
    assert_eq!(one(vec![item(0, &[1.0])]), EmbeddingError::CountMismatch);
    assert_eq!(
        one(vec![item(0, &[1.0]), item(2, &[1.0])]),
        EmbeddingError::Index
    );
    assert_eq!(
        one(vec![item(0, &[1.0]), item(0, &[1.0])]),
        EmbeddingError::Index
    );
    assert_eq!(
        one(vec![item(0, &[1.0]), item(1, &[])]),
        EmbeddingError::Vector
    );
    assert_eq!(
        one(vec![item(0, &[f32::NAN]), item(1, &[1.0])]),
        EmbeddingError::Vector
    );
    assert_eq!(
        one(vec![item(0, &[0.0, -0.0]), item(1, &[1.0, 1.0])]),
        EmbeddingError::ZeroVector
    );
    assert_eq!(
        one(vec![item(0, &[1.0]), item(1, &[1.0, 1.0])]),
        EmbeddingError::MixedDimensions
    );
    assert_eq!(
        EmbeddingError::MixedDimensions.message(),
        "mixed embedding dimensions"
    );
    assert_eq!(
        embedding_request("m", &[]).unwrap_err(),
        EmbeddingError::EmptyInput
    );
}

#[test]
fn ranks_fall_with_the_score() {
    let ranks = vec![
        (0, 0.5f32.to_bits()),
        (1, 0.9f32.to_bits()),
        (2, 0.5f32.to_bits()),
        (3, (-1.0f32).to_bits()),
    ];
    let order: Vec<usize> = order_ranks(4, ranks).unwrap().into_iter().map(|rank| rank.0).collect();
    assert_eq!(order, vec![1, 0, 2, 3]);
}

#[test]
fn bad_ranks_are_refused() {
    let score = 0.5f32.to_bits();
    assert_eq!(order_ranks(2, vec![(0, score)]), Err(RerankError::CountMismatch));
    assert_eq!(order_ranks(1, vec![(1, score)]), Err(RerankError::IndexOrScore));
    assert_eq!(
        order_ranks(2, vec![(0, score), (0, score)]),
        Err(RerankError::IndexOrScore)
    );
    assert_eq!(
        order_ranks(1, vec![(0, f32::INFINITY.to_bits())]),
        Err(RerankError::IndexOrScore)
    );
    assert_eq!(RerankError::IndexOrScore.message(), "invalid reranker index/score");
}

#[test]
fn transient_failures_are_tried_again() {
    assert_eq!(MAX_ATTEMPTS, 3);
    assert_eq!(retry_delay(1, true, false), Some(1));
    assert_eq!(retry_delay(2, false, true), Some(2));
    assert_eq!(retry_delay(3, true, true), None);
    assert_eq!(retry_delay(1, false, false), None);
}

#[test]
fn requests_name_model_and_texts() {
    assert_eq!(embeddings_url("http://h/v1//"), "http://h/v1/embeddings");
    assert_eq!(query_text("q"), format!("{QUERY_INSTRUCTION}q"));
    let request = embedding_request("m", &["a".to_owned(), "b".to_owned()]).unwrap();
    assert_eq!(request.text_of("model"), Some("m"));
    assert_eq!(request.text_of("encoding_format"), Some("float"));
    assert!(matches!(
        request.get("input"),
        Some(Json::List(list)) if list.len() == 2 && list[1].as_text() == Some("b")
    ));
    let request = rerank_request("m", "q", &["a".to_owned()]);
    assert_eq!(request.text_of("query"), Some("q"));
    assert_eq!(request.u64_of("top_n"), Some(1));
}

#[test]
fn each_document_has_one_rank() {
    let ranks = vec![(2, 0.5f32.to_bits()), (0, 0.9f32.to_bits()), (1, 0.5f32.to_bits())];
    let ordered = order_ranks(3, ranks).unwrap();
    let mut documents: Vec<usize> = ordered.iter().map(|rank| rank.0).collect();
    assert_eq!(documents[0], 0);
    documents.sort();
    assert_eq!(documents, vec![0, 1, 2]);
}

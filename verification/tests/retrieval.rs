use hybrid_search::retrieval::{
    apply_rerank_order, hybrid_merge, merge_variant_results, query_marked, passage_marked,
    rerank_snippets, score_results, Candidate, IndexError, SearchError,
};

fn cand(path: &str, snippet: &str) -> Candidate {
    Candidate { path: path.to_string(), snippet: snippet.to_string() }
}

#[test]
fn hybrid_merge_keeps_every_vector_path_and_respects_limit() {
    let vector = vec![cand("a", "1"), cand("b", "2"), cand("c", "3")];
    let lexical = vec![cand("b", "x"), cand("d", "4"), cand("e", "5"), cand("f", "6")];
    let out = hybrid_merge(&vector, &lexical, 5);
    assert_eq!(out.len(), 5);
    let paths: Vec<&str> = out.iter().map(|c| c.path.as_str()).collect();
    assert_eq!(paths, vec!["a", "b", "c", "d", "e"]);
    // the snippet of a path seen in both channels comes from the vector channel
    assert_eq!(out[1].snippet, "2");
}

#[test]
fn hybrid_merge_never_exceeds_limit() {
    let vector = vec![cand("a", "1"), cand("b", "2")];
    let lexical = vec![cand("c", "3"), cand("d", "4")];
    let out = hybrid_merge(&vector, &lexical, 3);
    assert_eq!(out.len(), 3);
}

#[test]
fn merge_variant_results_first_seen_wins() {
    let lists = vec![
        vec![cand("a", "first"), cand("b", "1")],
        vec![cand("a", "second"), cand("c", "2")],
    ];
    let out = merge_variant_results(&lists);
    let paths: Vec<&str> = out.iter().map(|c| c.path.as_str()).collect();
    assert_eq!(paths, vec!["a", "b", "c"]);
    assert_eq!(out[0].snippet, "first");
}

#[test]
fn rerank_on_empty_candidates_plans_no_model_call() {
    let empty: Vec<Candidate> = Vec::new();
    assert!(rerank_snippets(&empty).is_none());
}

#[test]
fn rerank_snippets_lists_snippets_in_order() {
    let cands = vec![cand("a", "s1"), cand("b", "s2")];
    let s = rerank_snippets(&cands).unwrap();
    assert_eq!(s, vec!["s1", "s2"]);
}

#[test]
fn apply_rerank_order_reorders_by_model_indices() {
    let cands = vec![cand("a", "1"), cand("b", "2"), cand("c", "3")];
    let out = apply_rerank_order(&cands, &vec![2, 0, 1]);
    let paths: Vec<&str> = out.iter().map(|c| c.path.as_str()).collect();
    assert_eq!(paths, vec!["c", "a", "b"]);
}

#[test]
fn score_results_scores_descend_and_truncate() {
    let cands = vec![cand("a", "1"), cand("b", "2"), cand("c", "3")];
    let out = score_results(&cands, true, true, 2);
    assert_eq!(out.len(), 2);
    assert_eq!(out[0].score, 2 * 100 + 11);
    assert_eq!(out[1].score, 1 * 100 + 11);
    assert!(out[0].score > out[1].score);
    let plain = score_results(&cands, false, false, 20);
    assert_eq!(plain.len(), 3);
    assert_eq!(plain[0].score, 20 * 100);
}

#[test]
fn embedding_markers_are_prepended() {
    assert_eq!(query_marked("find me"), "query: find me");
    let marked = passage_marked(&vec!["body".to_string()]);
    assert_eq!(marked, vec!["passage: body"]);
}

#[test]
fn search_error_messages() {
    assert_eq!(
        SearchError::ModelNotReady.message(),
        "AI model is loading... Please wait a moment."
    );
    assert_eq!(
        SearchError::ModelLoadError("boom".to_string()).message(),
        "Model failed to load: boom"
    );
    assert_eq!(
        SearchError::EmbeddingError("empty".to_string()).message(),
        "Embedding failed: empty"
    );
    assert_eq!(IndexError::NoFoldersToReindex.message(), "No folders to reindex");
}

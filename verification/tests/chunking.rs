use hybrid_search::chunking::{chunk_with_overlap, get_chunk_config, semantic_chunk};

#[test]
fn test_chunk_with_overlap_basic() {
    let text = "Hello world. This is a test. Another sentence here.";
    let chunks = chunk_with_overlap(text, 30, 10);
    assert!(!chunks.is_empty());
    assert!(chunks.iter().all(|c| c.len() <= 31));
}

#[test]
fn test_chunk_with_overlap_preserves_content() {
    let text = "ABCDEFGHIJ";
    let chunks = chunk_with_overlap(text, 5, 2);
    assert!(chunks.len() >= 2);
}

#[test]
fn test_chunk_short_text() {
    let text = "Short";
    let chunks = chunk_with_overlap(text, 800, 200);
    assert_eq!(chunks.len(), 1);
    assert_eq!(chunks[0], "Short");
}

#[test]
fn test_get_chunk_config_code() {
    let cfg = get_chunk_config("rs");
    assert_eq!(cfg.max_bytes, 1200);
    assert_eq!(cfg.overlap_bytes, 200);
}

#[test]
fn test_get_chunk_config_docs() {
    let cfg = get_chunk_config("md");
    assert_eq!(cfg.max_bytes, 800);
    assert_eq!(cfg.overlap_bytes, 150);
}

#[test]
fn test_get_chunk_config_config() {
    let cfg = get_chunk_config("toml");
    assert_eq!(cfg.max_bytes, 600);
    assert_eq!(cfg.overlap_bytes, 100);
}

#[test]
fn test_get_chunk_config_default() {
    let cfg = get_chunk_config("pdf");
    assert_eq!(cfg.max_bytes, 800);
    assert_eq!(cfg.overlap_bytes, 150);
}

#[test]
fn test_semantic_chunk_rust() {
    let code = "use std::io;\n\nfn main() {\n    println!(\"hello\");\n}\n\npub fn helper() {\n    let x = 1;\n}\n";
    let chunks = semantic_chunk(code, "rs");
    assert!(!chunks.is_empty());
    assert!(chunks.iter().any(|c| c.contains("main")));
    assert!(chunks.iter().any(|c| c.contains("helper")));
}

#[test]
fn test_semantic_chunk_markdown() {
    let md = "# Title\n\nSome intro text.\n\n## Section A\n\nContent A.\n\n## Section B\n\nContent B.\n";
    let chunks = semantic_chunk(md, "md");
    assert!(!chunks.is_empty());
}

#[test]
fn test_semantic_chunk_fallback() {
    let long_func = format!("fn huge() {{\n{}\n}}", "    let x = 1;\n".repeat(500));
    let chunks = semantic_chunk(&long_func, "rs");
    assert!(chunks.len() >= 2);
    assert!(chunks.iter().all(|c| c.len() <= 1500));
}

#[test]
fn test_semantic_chunk_unknown_ext() {
    let text = "Just some plain text content here.";
    let chunks = semantic_chunk(text, "xyz");
    assert_eq!(chunks.len(), 1);
}

#[test]
fn chunk_with_overlap_empty_text_yields_nothing() {
    let chunks = chunk_with_overlap("", 800, 150);
    assert!(chunks.is_empty());
}

#[test]
fn chunk_with_overlap_exact_windows_without_separators() {
    let chunks = chunk_with_overlap("ABCDEFGHIJ", 5, 2);
    assert_eq!(chunks, vec!["ABCDE", "DEFGH", "GHIJ"]);
}

#[test]
fn chunk_with_overlap_never_splits_multibyte_characters() {
    let text = "\u{e4}\u{e4}"; // two 2-byte characters, 4 bytes in all
    let chunks = chunk_with_overlap(text, 3, 0);
    assert_eq!(chunks, vec!["\u{e4}", "\u{e4}"]);
}

#[test]
fn chunk_with_overlap_reconstructs_without_overlap() {
    let text = "alpha beta gamma delta epsilon zeta eta theta";
    let chunks = chunk_with_overlap(text, 12, 0);
    assert!(!chunks.is_empty());
    let joined: String = chunks.concat();
    assert_eq!(joined, text);
}

#[test]
fn chunk_with_overlap_prefers_newline_then_sentence_then_space() {
    let text = "one two\nthree four five six seven";
    let chunks = chunk_with_overlap(text, 12, 0);
    assert_eq!(chunks[0], "one two\n");
    let sentence = "ab. cd efgh ijkl";
    let chunks = chunk_with_overlap(sentence, 10, 0);
    assert_eq!(chunks[0], "ab.");
}

#[test]
fn semantic_chunk_empty_known_ext_returns_whole_text() {
    let chunks = semantic_chunk("", "rs");
    assert_eq!(chunks, vec![""]);
}

#[test]
fn semantic_chunk_respects_category_limit_loosely() {
    let md = "## A\n\ntext text text\n\n## B\n\nmore text\n";
    let chunks = semantic_chunk(md, "md");
    assert!(!chunks.is_empty());
    assert!(chunks.iter().all(|c| c.len() <= 800 + 1));
}

#[test]
fn semantic_chunk_loses_no_content_but_blank_tails() {
    let text = "fn alpha() {}\n\nfn beta() {}\n   \n";
    let chunks = semantic_chunk(text, "rs");
    let joined = chunks.concat();
    assert!(joined.contains("fn alpha()"));
    assert!(joined.contains("fn beta()"));
}

#[test]
fn chunk_with_overlap_returns_fitting_text_whole() {
    let chunks = chunk_with_overlap("fits in one window", 800, 150);
    assert_eq!(chunks, vec!["fits in one window"]);
}

use hybrid_search::query::expand_query;

#[test]
fn test_expand_query_basic() {
    let variants = expand_query("Hello World");
    assert!(variants.contains(&"Hello World".to_string()));
    assert!(variants.contains(&"hello world".to_string()));
}

#[test]
fn test_expand_query_stop_words() {
    let variants = expand_query("how to implement search");
    assert!(variants.iter().any(|v| v == "implement search"));
}

#[test]
fn test_expand_query_already_lowercase() {
    let variants = expand_query("hello");
    assert_eq!(variants.len(), 1);
}

#[test]
fn test_expand_query_turkish() {
    let variants = expand_query("bu dosya i\u{e7}in arama");
    assert!(variants.iter().any(|v| v == "dosya arama"));
}

#[test]
fn expand_query_original_always_first() {
    let variants = expand_query("The Quick Brown Fox");
    assert_eq!(variants[0], "The Quick Brown Fox");
    assert_eq!(variants[1], "the quick brown fox");
}

#[test]
fn expand_query_no_filtered_variant_when_too_few_tokens_remain() {
    // Filtering "the fox" leaves only one token, so no third variant.
    let variants = expand_query("the fox");
    assert_eq!(variants, vec!["the fox"]);
}

#[test]
fn expand_query_no_filtered_variant_when_nothing_removed() {
    let variants = expand_query("quick brown fox");
    assert_eq!(variants, vec!["quick brown fox"]);
}

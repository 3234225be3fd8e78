use rag::split_criteria::SplitCriteria;
use rag::types::{criteria_or_default, CreateIndexInput, MetricOptions, QueryInput};

#[test]
fn query_defaults_to_ten_results() {
    let q = QueryInput { index_name: "i".to_string(), query_text: "t".to_string(), top_k: None };
    assert_eq!(q.top_k_or_default(), 10);
    let q = QueryInput { index_name: "i".to_string(), query_text: "t".to_string(), top_k: Some(3) };
    assert_eq!(q.top_k_or_default(), 3);
}

#[test]
fn index_metric_defaults_to_cosine() {
    let c = CreateIndexInput { index_name: "i".to_string(), dimension: 768, metric: None };
    assert_eq!(c.metric_or_default(), MetricOptions::Cosine);
    let c = CreateIndexInput {
        index_name: "i".to_string(),
        dimension: 768,
        metric: Some(MetricOptions::Dotproduct),
    };
    assert_eq!(c.metric_or_default(), MetricOptions::Dotproduct);
}

#[test]
fn service_policy_defaults_to_token_count() {
    assert_eq!(
        criteria_or_default(None),
        SplitCriteria::TokenCount { max_tokens: 512, context_sentences: 1 }
    );
    assert_eq!(criteria_or_default(Some(SplitCriteria::Paragraph)), SplitCriteria::Paragraph);
}

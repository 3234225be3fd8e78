use rag::corpus::{Ask, SplitCriteria, WordPacker};
use rag::split_criteria::SplitError;
use std::str::FromStr;
use tokenizers::Tokenizer;

// A word-level tokenizer that needs no download: each whitespace-separated
// piece is one token, known words decode to themselves.
fn create_test_tokenizer() -> Tokenizer {
    let words = [
        "Supercalifragilisticexpialidocious", "is", "a", "very", "long", "word.", "This",
        "sentence", "that", "will", "be", "split", "into", "multiple", "chunks", "based", "on",
        "token", "count.", "word", "count",
    ];
    let mut vocab = String::from("\"[UNK]\": 0");
    for (i, w) in words.iter().enumerate() {
        vocab.push_str(&format!(", \"{}\": {}", w, i + 1));
    }
    let json = format!(
        r#"{{"version": "1.0", "truncation": null, "padding": null, "added_tokens": [],
            "normalizer": null, "pre_tokenizer": {{"type": "WhitespaceSplit"}},
            "post_processor": null, "decoder": null,
            "model": {{"type": "WordLevel", "vocab": {{{}}}, "unk_token": "[UNK]"}}}}"#,
        vocab
    );
    Tokenizer::from_str(&json).expect("Failed to load the tokenizer")
}

#[test]
fn corpus_test_split_end_of_sentence() {
    let text = "This is a test. It has three sentences. Last one here.";
    let criteria = SplitCriteria::EndOfSentence;
    let chunks = criteria.split(text, None).unwrap();
    assert_eq!(
        chunks,
        vec![
            "This is a test.",
            "It has three sentences.",
            "Last one here."
        ]
    );
}

#[test]
fn corpus_test_split_paragraph() {
    let text = "This is paragraph one.\nStill paragraph one.\n\nThis is paragraph two.\n\nThis is paragraph three.";
    let criteria = SplitCriteria::Paragraph;
    let chunks = criteria.split(text, None).unwrap();
    assert_eq!(
        chunks,
        vec![
            "This is paragraph one.\nStill paragraph one.",
            "This is paragraph two.",
            "This is paragraph three."
        ]
    );
}

#[test]
fn corpus_test_split_token_count() {
    let text =
        "This is a long sentence that will be split into multiple chunks based on token count.";
    let tokenizer = create_test_tokenizer();
    let criteria = SplitCriteria::TokenCount(5);
    let chunks = criteria.split(text, Some(&tokenizer)).unwrap();
    assert!(chunks.len() > 1);
    for chunk in chunks.iter() {
        let tokens = tokenizer.encode(chunk.clone(), false).unwrap();
        assert!(tokens.get_ids().len() <= 5);
    }
}

#[test]
fn corpus_test_split_token_count_long_word() {
    let text = "Supercalifragilisticexpialidocious is a very long word.";
    let tokenizer = create_test_tokenizer();
    let criteria = SplitCriteria::TokenCount(3);
    let chunks = criteria.split(text, Some(&tokenizer)).unwrap();
    assert!(chunks.len() > 1);
    assert!(chunks[0].contains("Supercalifragilisticexpialidocious"));
}

#[test]
fn corpus_test_split_token_count_no_tokenizer() {
    let text = "This should fail.";
    let criteria = SplitCriteria::TokenCount(5);
    let result = criteria.split(text, None);
    assert!(result.is_err());
}

#[test]
fn corpus_test_split_empty_text() {
    let text = "";
    let criteria = SplitCriteria::EndOfSentence;
    let chunks = criteria.split(text, None).unwrap();
    assert!(chunks.is_empty());
}

#[test]
fn corpus_test_split_unicode() {
    let text = "こんにちは。世界。";
    let criteria = SplitCriteria::EndOfSentence;
    let chunks = criteria.split(text, None).unwrap();
    assert_eq!(chunks, vec!["こんにちは。", "世界。"]);
}

#[test]
fn corpus_sentences_stay_in_their_paragraph() {
    let chunks = SplitCriteria::EndOfSentence
        .split("One. Two\n\nThree.", None)
        .unwrap();
    assert_eq!(chunks, vec!["One.", "Two", "Three."]);
}

#[test]
fn corpus_chunks_are_decoded_word_runs() {
    let tokenizer = create_test_tokenizer();
    let chunks = SplitCriteria::TokenCount(3)
        .split("This is a long word.\n\nThis is", Some(&tokenizer))
        .unwrap();
    assert_eq!(chunks, vec!["This is a", "long word", "This is"]);
}

#[test]
fn corpus_without_tokenizer_is_a_configuration_error() {
    let result = SplitCriteria::TokenCount(3).split("", None);
    assert_eq!(result, Err(SplitError::Configuration));
}

#[test]
fn word_packer_flushes_before_a_word_that_does_not_fit() {
    let mut packer = WordPacker::for_text("alpha beta gamma.", 2);
    match packer.query() {
        Ask::Encode(w) => assert_eq!(w.iter().collect::<String>(), "alpha"),
        Ask::Decode(_) => panic!("expected a word"),
    }
    packer.feed_ids(vec![1]);
    match packer.query() {
        Ask::Encode(w) => assert_eq!(w.iter().collect::<String>(), " beta"),
        Ask::Decode(_) => panic!("expected a word"),
    }
    packer.feed_ids(vec![2]);
    packer.feed_ids(vec![3]);
    match packer.query() {
        Ask::Decode(ids) => assert_eq!(ids, vec![1, 2]),
        Ask::Encode(_) => panic!("expected ids"),
    }
    packer.feed_text("alpha beta".chars().collect());
    match packer.query() {
        Ask::Decode(ids) => assert_eq!(ids, vec![3]),
        Ask::Encode(_) => panic!("expected ids"),
    }
    packer.feed_text(" gamma ".chars().collect());
    assert!(!packer.is_active());
    assert_eq!(packer.chunks(), vec!["alpha beta", "gamma"]);
}

#[test]
fn word_packer_sends_oversized_word_alone() {
    let mut packer = WordPacker::for_text("tiny enormous", 2);
    packer.feed_ids(vec![1]);
    packer.feed_ids(vec![2, 3, 4]);
    match packer.query() {
        Ask::Decode(ids) => assert_eq!(ids, vec![1]),
        Ask::Encode(_) => panic!("expected ids"),
    }
    packer.feed_text("tiny".chars().collect());
    match packer.query() {
        Ask::Decode(ids) => assert_eq!(ids, vec![2, 3, 4]),
        Ask::Encode(_) => panic!("expected ids"),
    }
    packer.feed_text("enormous".chars().collect());
    assert!(!packer.is_active());
    assert_eq!(packer.chunks(), vec!["tiny", "enormous"]);
}

#[test]
fn corpus_text_without_words_packs_to_nothing() {
    let tokenizer = create_test_tokenizer();
    assert_eq!(SplitCriteria::TokenCount(3).split(" \n\n\n ", Some(&tokenizer)), Ok(vec![]));
}

#[test]
fn corpus_paragraph_breaks_collapse() {
    let chunks = SplitCriteria::Paragraph.split("a\n\n\n\nb", None).unwrap();
    assert_eq!(chunks, vec!["a", "b"]);
}

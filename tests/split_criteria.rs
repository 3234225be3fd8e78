use rag::packing::Packer;
use rag::split_criteria::{SplitCriteria, SplitError};
use std::str::FromStr;
use tokenizers::Tokenizer;

// A tokenizer that needs no download: every whitespace-separated piece is one
// token, so a text's count is its number of pieces.
fn create_test_tokenizer() -> Tokenizer {
    let json = r#"{
        "version": "1.0",
        "truncation": null,
        "padding": null,
        "added_tokens": [],
        "normalizer": null,
        "pre_tokenizer": {"type": "WhitespaceSplit"},
        "post_processor": null,
        "decoder": null,
        "model": {"type": "WordLevel", "vocab": {"[UNK]": 0}, "unk_token": "[UNK]"}
    }"#;
    Tokenizer::from_str(json).expect("Failed to load the tokenizer")
}

// A tokenizer whose vocabulary lacks its unknown token: it fails on any word.
fn create_failing_tokenizer() -> Tokenizer {
    let json = r#"{
        "version": "1.0",
        "truncation": null,
        "padding": null,
        "added_tokens": [],
        "normalizer": null,
        "pre_tokenizer": {"type": "WhitespaceSplit"},
        "post_processor": null,
        "decoder": null,
        "model": {"type": "WordLevel", "vocab": {"hello": 0}, "unk_token": "[UNK]"}
    }"#;
    Tokenizer::from_str(json).expect("Failed to load the tokenizer")
}

fn token_count(tokenizer: &Tokenizer, text: &str, special: bool) -> usize {
    tokenizer.encode(text, special).unwrap().get_ids().len()
}

#[test]
fn split_criteria_test_split_end_of_sentence() {
    let text = "This is a test. It has three sentences. Last one here.";
    let criteria = SplitCriteria::EndOfSentence;
    let chunks = criteria.split(text, None).unwrap();
    assert_eq!(
        chunks,
        vec![
            "This is a test.",
            "It has three sentences.",
            "Last one here."
        ]
    );
}

#[test]
fn split_criteria_test_split_paragraph() {
    let text = "This is paragraph one.\nStill paragraph one.\n\nThis is paragraph two.\n\nThis is paragraph three.";
    let criteria = SplitCriteria::Paragraph;
    let chunks = criteria.split(text, None).unwrap();
    assert_eq!(
        chunks,
        vec![
            "This is paragraph one.\nStill paragraph one.",
            "This is paragraph two.",
            "This is paragraph three."
        ]
    );
}

#[test]
fn split_criteria_test_split_token_count() {
    let text =
        "This is a long sentence that will be split into multiple chunks based on token count.";
    let tokenizer = create_test_tokenizer();
    let criteria = SplitCriteria::TokenCount {
        max_tokens: 5,
        context_sentences: 1,
    };
    let chunks = criteria.split(text, Some(&tokenizer)).unwrap();
    assert!(chunks.len() > 1);
    for chunk in chunks.iter() {
        assert!(token_count(&tokenizer, chunk, false) <= 5);
    }
}

#[test]
fn split_criteria_test_split_token_count_long_word() {
    let text = "Supercalifragilisticexpialidocious is a very long word.";
    let tokenizer = create_test_tokenizer();
    let criteria = SplitCriteria::TokenCount {
        max_tokens: 5,
        context_sentences: 1,
    };
    let chunks = criteria.split(text, Some(&tokenizer)).unwrap();
    assert!(chunks.len() > 1);
    assert!(chunks[0].contains("Supercalifragilisticexpialidocious"));
}

#[test]
fn split_criteria_test_split_token_count_no_tokenizer() {
    let text = "This should fail.";
    let criteria = SplitCriteria::TokenCount {
        max_tokens: 5,
        context_sentences: 1,
    };
    let result = criteria.split(text, None);
    assert!(result.is_err());
}

#[test]
fn split_criteria_test_split_empty_text() {
    let text = "";
    let criteria = SplitCriteria::EndOfSentence;
    let chunks = criteria.split(text, None).unwrap();
    assert!(chunks.is_empty());
}

#[test]
fn split_criteria_test_split_unicode() {
    let text = "こんにちは。世界。";
    let criteria = SplitCriteria::EndOfSentence;
    let chunks = criteria.split(text, None).unwrap();
    assert_eq!(chunks, vec!["こんにちは。", "世界。"]);
}

#[test]
fn test_end_of_sentence_split() {
    let text = "This is a sentence. Here is another one! And a question?";
    let criteria = SplitCriteria::EndOfSentence;
    let chunks = criteria.split(text, None).unwrap();

    assert_eq!(chunks.len(), 3);
    assert_eq!(chunks[0], "This is a sentence.");
    assert_eq!(chunks[1], "Here is another one!");
    assert_eq!(chunks[2], "And a question?");
}

#[test]
fn test_paragraph_split() {
    let text = "Paragraph one.\n\nParagraph two.\n\nParagraph three.";
    let criteria = SplitCriteria::Paragraph;
    let chunks = criteria.split(text, None).unwrap();

    assert_eq!(chunks.len(), 3);
    assert_eq!(chunks[0], "Paragraph one.");
    assert_eq!(chunks[1], "Paragraph two.");
    assert_eq!(chunks[2], "Paragraph three.");
}

#[test]
fn test_token_count_split_basic() {
    let text = "This is a sample text.";
    let tokenizer = create_test_tokenizer();
    let criteria = SplitCriteria::TokenCount {
        max_tokens: 5,
        context_sentences: 0,
    };
    let chunks = criteria.split(text, Some(&tokenizer)).unwrap();
    assert!(!chunks.is_empty());
}

#[test]
fn test_token_count_split_with_context() {
    let text = "Sentence one. Sentence two. Sentence three. Sentence four.";
    let tokenizer = create_test_tokenizer();
    let criteria = SplitCriteria::TokenCount {
        max_tokens: 10,
        context_sentences: 1,
    };
    let chunks = criteria.split(text, Some(&tokenizer)).unwrap();

    assert_eq!(chunks.len(), 4);
    assert_eq!(chunks[0], "Sentence one.");
    assert_eq!(chunks[1], "Sentence one. Sentence two.");
    assert_eq!(chunks[2], "Sentence two. Sentence three.");
    assert_eq!(chunks[3], "Sentence three. Sentence four.");
}

#[test]
fn test_token_count_split_sentence_longer_than_max_tokens() {
    let text = "This is a very long sentence that might exceed the maximum token count set for splitting.";
    let tokenizer = create_test_tokenizer();
    let criteria = SplitCriteria::TokenCount {
        max_tokens: 5,
        context_sentences: 0,
    };
    let chunks = criteria.split(text, Some(&tokenizer)).unwrap();

    assert!(!chunks.is_empty());
    for chunk in chunks {
        assert!(token_count(&tokenizer, &chunk, true) <= 5);
    }
}

#[test]
fn test_token_count_split_with_zero_context_sentences() {
    let text = "First sentence. Second sentence.";
    let tokenizer = create_test_tokenizer();
    let criteria = SplitCriteria::TokenCount {
        max_tokens: 10,
        context_sentences: 0,
    };
    let chunks = criteria.split(text, Some(&tokenizer)).unwrap();

    assert_eq!(chunks.len(), 2);
    assert_eq!(chunks[0], "First sentence.");
    assert_eq!(chunks[1], "Second sentence.");
}

#[test]
fn test_token_count_split_context_greater_than_available_sentences() {
    let text = "Only one sentence here.";
    let tokenizer = create_test_tokenizer();
    let criteria = SplitCriteria::TokenCount {
        max_tokens: 10,
        context_sentences: 5,
    };
    let chunks = criteria.split(text, Some(&tokenizer)).unwrap();

    assert_eq!(chunks.len(), 1);
    assert_eq!(chunks[0], "Only one sentence here.");
}

#[test]
fn test_empty_text() {
    let text = "";
    let tokenizer = create_test_tokenizer();
    let criteria = SplitCriteria::TokenCount {
        max_tokens: 10,
        context_sentences: 1,
    };
    let chunks = criteria.split(text, Some(&tokenizer)).unwrap();

    assert!(chunks.is_empty());
}

#[test]
fn test_text_with_only_spaces() {
    let text = "     ";
    let tokenizer = create_test_tokenizer();
    let criteria = SplitCriteria::Paragraph;
    let chunks = criteria.split(text, Some(&tokenizer)).unwrap();

    assert_eq!(chunks.len(), 1);
    assert_eq!(chunks[0], "");
}

#[test]
fn test_text_with_only_newlines() {
    let text = "\n\n\n";
    let tokenizer = create_test_tokenizer();
    let criteria = SplitCriteria::Paragraph;
    let chunks = criteria.split(text, Some(&tokenizer)).unwrap();

    assert_eq!(chunks.len(), 2);
    for chunk in chunks {
        assert_eq!(chunk, "");
    }
}

#[test]
fn test_unicode_characters() {
    let text = "Here is a sentence with emojis üòäüòÇüëç.";
    let criteria = SplitCriteria::EndOfSentence;
    let chunks = criteria.split(text, None).unwrap();

    assert_eq!(chunks.len(), 1);
    assert_eq!(chunks[0], "Here is a sentence with emojis üòäüòÇüëç.");
}

#[test]
fn test_context_sentences_with_long_sentences() {
    let text = "Sentence one is short. This is sentence two which is significantly longer and may cause issues with the maximum token limit. Sentence three is here.";
    let tokenizer = create_test_tokenizer();
    let criteria = SplitCriteria::TokenCount {
        max_tokens: 15,
        context_sentences: 1,
    };
    let chunks = criteria.split(text, Some(&tokenizer)).unwrap();

    for chunk in chunks {
        assert!(token_count(&tokenizer, &chunk, true) <= 15);
    }
}

#[test]
fn test_max_tokens_exact_match() {
    let text = "This is a test.";
    let tokenizer = create_test_tokenizer();
    let count = token_count(&tokenizer, text, true);

    let criteria = SplitCriteria::TokenCount {
        max_tokens: count,
        context_sentences: 0,
    };
    let chunks = criteria.split(text, Some(&tokenizer)).unwrap();

    assert_eq!(chunks.len(), 1);
    assert_eq!(chunks[0], text);
}

#[test]
fn test_no_tokenizer_provided() {
    let text = "This is a test.";
    let criteria = SplitCriteria::TokenCount {
        max_tokens: 5,
        context_sentences: 0,
    };
    let result = criteria.split(text, None);

    assert!(result.is_err());
}

#[test]
fn test_special_characters() {
    let text = "Special characters: @#$%^&*() are included.";
    let criteria = SplitCriteria::EndOfSentence;
    let chunks = criteria.split(text, None).unwrap();

    assert_eq!(chunks.len(), 1);
    assert_eq!(chunks[0], "Special characters: @#$%^&*() are included.");
}

#[test]
fn test_paragraphs_with_multiple_newlines() {
    let text =
        "First paragraph.\n\n\nSecond paragraph after multiple newlines.\n\nThird paragraph.";
    let criteria = SplitCriteria::Paragraph;
    let chunks = criteria.split(text, None).unwrap();

    assert_eq!(chunks.len(), 3);
    assert_eq!(chunks[0], "First paragraph.");
    assert_eq!(chunks[1], "Second paragraph after multiple newlines.");
    assert_eq!(chunks[2], "Third paragraph.");
}

#[test]
fn test_sentence_splitting_with_abbreviations() {
    let text = "Dr. Smith went to Washington. He arrived at 3 p.m.";
    let criteria = SplitCriteria::EndOfSentence;
    let chunks = criteria.split(text, None).unwrap();

    assert_eq!(chunks.len(), 3);
    assert_eq!(chunks[0], "Dr.");
    assert_eq!(chunks[1], "Smith went to Washington.");
    assert_eq!(chunks[2], "He arrived at 3 p.m.");
}

#[test]
fn test_token_count_split_with_large_context() {
    let text = "Sentence one. Sentence two. Sentence three. Sentence four. Sentence five.";
    let tokenizer = create_test_tokenizer();
    let criteria = SplitCriteria::TokenCount {
        max_tokens: 20,
        context_sentences: 3,
    };
    let chunks = criteria.split(text, Some(&tokenizer)).unwrap();

    assert_eq!(chunks.len(), 5);
    assert_eq!(chunks[0], "Sentence one.");
    assert_eq!(chunks[1], "Sentence one. Sentence two.");
    assert_eq!(chunks[2], "Sentence one. Sentence two. Sentence three.");
    assert_eq!(
        chunks[3],
        "Sentence one. Sentence two. Sentence three. Sentence four."
    );
    assert_eq!(
        chunks[4],
        "Sentence two. Sentence three. Sentence four. Sentence five."
    );
}

#[test]
fn test_text_with_no_sentences() {
    let text = "No sentences here but some words";
    let criteria = SplitCriteria::EndOfSentence;
    let chunks = criteria.split(text, None).unwrap();

    assert_eq!(chunks.len(), 1);
    assert_eq!(chunks[0], "No sentences here but some words");
}

#[test]
fn sentences_rejoined_split_the_same() {
    let text = "Dr. Smith went to Washington.  He arrived at 3 p.m.\nThen he left!";
    let criteria = SplitCriteria::EndOfSentence;
    let first = criteria.split(text, None).unwrap();
    let again = criteria.split(&first.join(" "), None).unwrap();
    assert_eq!(first, again);
}

#[test]
fn paragraphs_keep_all_text() {
    let text = "  One. Two.\n\n\n Three.  \n\nFour";
    let chunks = SplitCriteria::Paragraph.split(text, None).unwrap();
    assert_eq!(chunks, vec!["One. Two.", "Three.", "Four"]);
    let stripped: String = text.chars().filter(|c| !c.is_whitespace()).collect();
    let rejoined: String = chunks.concat().chars().filter(|c| !c.is_whitespace()).collect();
    assert_eq!(stripped, rejoined);
}

#[test]
fn paragraph_literal_case() {
    let chunks = SplitCriteria::Paragraph.split("P1.\n\nP2.\n\nP3.", None).unwrap();
    assert_eq!(chunks, vec!["P1.", "P2.", "P3."]);
}

#[test]
fn empty_text_under_each_policy() {
    let tokenizer = create_test_tokenizer();
    assert!(SplitCriteria::EndOfSentence.split("", None).unwrap().is_empty());
    assert_eq!(SplitCriteria::Paragraph.split("", None).unwrap(), vec![""]);
    let criteria = SplitCriteria::TokenCount {
        max_tokens: 5,
        context_sentences: 2,
    };
    assert!(criteria.split("", Some(&tokenizer)).unwrap().is_empty());
}

#[test]
fn short_sentences_one_chunk_each_long_one_packed() {
    let tokenizer = create_test_tokenizer();
    let criteria = SplitCriteria::TokenCount {
        max_tokens: 5,
        context_sentences: 0,
    };
    let text = "Go. Go on. Go on now. Go on now then. Go on now then right away please.";
    let chunks = criteria.split(text, Some(&tokenizer)).unwrap();
    assert_eq!(
        chunks,
        vec![
            "Go.",
            "Go on.",
            "Go on now.",
            "Go on now then.",
            "Go on now then right",
            "away please",
        ]
    );
    for chunk in chunks {
        assert!(token_count(&tokenizer, &chunk, true) <= 5);
    }
}

#[test]
fn word_packing_drops_punctuation_of_split_sentence() {
    let tokenizer = create_test_tokenizer();
    let criteria = SplitCriteria::TokenCount {
        max_tokens: 3,
        context_sentences: 0,
    };
    let chunks = criteria.split("one two three four five.", Some(&tokenizer)).unwrap();
    assert_eq!(chunks, vec!["one two three", "four five"]);
}

#[test]
fn no_tokenizer_is_a_configuration_error() {
    for text in ["", "One.", "One. Two.\n\nThree."] {
        let criteria = SplitCriteria::TokenCount {
            max_tokens: 7,
            context_sentences: 1,
        };
        assert_eq!(criteria.split(text, None), Err(SplitError::Configuration));
    }
}

#[test]
fn tokenizer_failure_is_reported() {
    let tokenizer = create_failing_tokenizer();
    let criteria = SplitCriteria::TokenCount {
        max_tokens: 7,
        context_sentences: 1,
    };
    match criteria.split("Some words here.", Some(&tokenizer)) {
        Err(SplitError::Tokenization { text, message }) => {
            assert_eq!(text, "Some words here.");
            assert!(!message.is_empty());
        }
        other => panic!("unexpected result: {:?}", other),
    }
}

#[test]
fn unbounded_budget_gives_context_windows() {
    let tokenizer = create_test_tokenizer();
    let criteria = SplitCriteria::TokenCount {
        max_tokens: usize::MAX,
        context_sentences: 2,
    };
    let chunks = criteria.split("A one. B two. C three. D four.", Some(&tokenizer)).unwrap();
    assert_eq!(
        chunks,
        vec![
            "A one.",
            "A one. B two.",
            "A one. B two. C three.",
            "B two. C three. D four.",
        ]
    );
}

#[test]
fn context_stays_within_paragraph() {
    let tokenizer = create_test_tokenizer();
    let criteria = SplitCriteria::TokenCount {
        max_tokens: 100,
        context_sentences: 1,
    };
    let chunks = criteria.split("A one. B two.\n\nC three.", Some(&tokenizer)).unwrap();
    assert_eq!(chunks, vec!["A one.", "A one. B two.", "C three."]);
}

#[test]
fn window_shrinks_before_words_are_split() {
    let tokenizer = create_test_tokenizer();
    let criteria = SplitCriteria::TokenCount {
        max_tokens: 4,
        context_sentences: 1,
    };
    let chunks = criteria.split("One two three. Four five six.", Some(&tokenizer)).unwrap();
    assert_eq!(chunks, vec!["One two three.", "Four five six."]);
}

#[test]
fn packer_sends_oversized_first_word_alone() {
    let mut packer = Packer::for_text("Supercalifragilistic is long.", 2, 0);
    assert!(packer.is_active());
    let (text, special) = packer.query();
    assert_eq!(text.iter().collect::<String>(), "Supercalifragilistic is long.");
    assert!(special);
    packer.feed(9);
    let (text, special) = packer.query();
    assert_eq!(text.iter().collect::<String>(), "Supercalifragilistic");
    assert!(!special);
    packer.feed(6);
    let (text, _) = packer.query();
    assert_eq!(text.iter().collect::<String>(), "is long");
    packer.feed(2);
    assert!(!packer.is_active());
    assert_eq!(packer.chunks(), vec!["Supercalifragilistic", "is long"]);
}

#[test]
fn packer_sums_word_counts() {
    let mut packer = Packer::for_text("alpha beta gamma.", 3, 0);
    packer.feed(4);
    let (text, _) = packer.query();
    assert_eq!(text.iter().collect::<String>(), "alpha");
    packer.feed(1);
    let (text, _) = packer.query();
    assert_eq!(text.iter().collect::<String>(), " beta");
    packer.feed(2);
    let (text, _) = packer.query();
    assert_eq!(text.iter().collect::<String>(), " gamma");
    packer.feed(1);
    assert!(packer.is_active());
    let (text, special) = packer.query();
    assert_eq!(text.iter().collect::<String>(), "gamma");
    assert!(special);
    packer.feed(1);
    assert!(!packer.is_active());
    assert_eq!(packer.chunks(), vec!["alpha beta", "gamma"]);
}

#[test]
fn whitespace_only_text_has_no_sentences() {
    let chunks = SplitCriteria::EndOfSentence.split("   \n\t ", None).unwrap();
    assert!(chunks.is_empty());
}

#[test]
fn text_without_words_is_dropped_by_sentence_policy() {
    let text = "Mr. Fox jumped. [...] The dog was too lazy.";
    let chunks = SplitCriteria::EndOfSentence.split(text, None).unwrap();
    assert_eq!(chunks, vec!["Mr.", "Fox jumped.", "The dog was too lazy."]);
}

#[test]
fn runs_of_line_feeds_are_one_break() {
    let chunks = SplitCriteria::Paragraph.split("\n\n\n\n", None).unwrap();
    assert_eq!(chunks, vec!["", ""]);
    let chunks = SplitCriteria::Paragraph.split("a\n\n\n\nb", None).unwrap();
    assert_eq!(chunks, vec!["a", "b"]);
    let chunks = SplitCriteria::Paragraph.split("a\nb\n\n\n\n\nc", None).unwrap();
    assert_eq!(chunks, vec!["a\nb", "c"]);
}

#[test]
fn text_without_sentences_packs_to_nothing() {
    let tokenizer = create_failing_tokenizer();
    let criteria = SplitCriteria::TokenCount {
        max_tokens: 3,
        context_sentences: 1,
    };
    assert_eq!(criteria.split("  \n\n  ", Some(&tokenizer)), Ok(vec![]));
}

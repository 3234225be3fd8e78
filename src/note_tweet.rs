//! The records of a note-tweet archive.
use vstd::prelude::*;

verus! {

#[verifier::external_type_specification]
#[verifier::external_body]
pub struct ExValue(serde_json::Value);

/// One entry of the archive's note-tweet list.
#[derive(Debug, PartialEq, Eq)]
pub struct NoteTweetContainer {
    pub note_tweet: NoteTweet,
}

/// A long-form tweet as the archive records it.
#[derive(Debug, PartialEq, Eq)]
pub struct NoteTweet {
    pub note_tweet_id: String,
    pub updated_at: String,
    pub lifecycle: Lifecycle,
    pub created_at: String,
    pub core: Core,
}

/// The lifecycle state of a note tweet.
#[derive(Debug, PartialEq, Eq)]
pub struct Lifecycle {
    pub value: String,
    pub name: String,
    pub original_name: String,
    pub annotations: serde_json::Value,
}

/// A link and where it stands in the text.
#[derive(Debug, PartialEq, Eq)]
pub struct Url {
    pub expanded_url: String,
    pub to_index: String,
    pub short_url: String,
    pub display_url: String,
    pub from_index: String,
}

/// A mentioned user and where the mention stands in the text.
#[derive(Debug, PartialEq, Eq)]
pub struct Mention {
    pub screen_name: String,
    pub from_index: String,
    pub to_index: String,
}

/// Styles applied to a stretch of the text.
#[derive(Debug, PartialEq, Eq)]
pub struct StyleTag {
    pub style_types: Vec<StyleType>,
    pub from_index: String,
    pub to_index: String,
}

/// One style.
#[derive(Debug, PartialEq, Eq)]
pub struct StyleType {
    pub value: String,
    pub name: String,
    pub original_name: String,
    pub annotations: serde_json::Value,
}

/// The text of a note tweet and what it refers to.
#[derive(Debug, PartialEq, Eq)]
pub struct Core {
    pub styletags: Option<Vec<StyleTag>>,
    pub urls: Vec<Url>,
    pub text: String,
    pub mentions: Vec<Mention>,
    pub cashtags: Vec<String>,
    pub hashtags: Vec<String>,
}

} // verus!

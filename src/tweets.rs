//! The records of a tweet archive.
use vstd::prelude::*;

verus! {

/// One entry of the archive's tweet list.
#[derive(Debug, PartialEq, Eq)]
pub struct TweetContainer {
    pub tweet: Tweet,
}

/// A tweet as the archive records it.
#[derive(Debug, PartialEq, Eq)]
pub struct Tweet {
    pub edit_info: EditInfo,
    pub retweeted: bool,
    pub source: String,
    pub entities: Entities,
    pub display_text_range: Vec<String>,
    pub favorite_count: String,
    pub id_str: String,
    pub truncated: bool,
    pub retweet_count: String,
    pub id: String,
    pub possibly_sensitive: bool,
    pub created_at: String,
    pub favorited: bool,
    pub full_text: String,
    pub lang: String,
    pub in_reply_to_status_id_str: Option<String>,
    pub in_reply_to_user_id: Option<String>,
    pub in_reply_to_status_id: Option<String>,
    pub in_reply_to_screen_name: Option<String>,
    pub in_reply_to_user_id_str: Option<String>,
}

/// The edit history of a tweet.
#[derive(Debug, PartialEq, Eq)]
pub struct EditInfo {
    pub edit: Option<Edit>,
    pub initial: Option<EditControlInitial>,
}

/// A tweet that edits an earlier one.
#[derive(Debug, PartialEq, Eq)]
pub struct Edit {
    pub initial_tweet_id: String,
    pub edit_control_initial: EditControlInitial,
}

/// Whether, and until when, a tweet may be edited.
#[derive(Debug, PartialEq, Eq)]
pub struct EditControlInitial {
    pub edit_tweet_ids: Vec<String>,
    pub editable_until: String,
    pub edits_remaining: String,
    pub is_edit_eligible: bool,
}

/// A hashtag and where it stands in the text.
#[derive(Debug, PartialEq, Eq)]
pub struct HashTag {
    pub text: String,
    pub indices: Vec<String>,
}

/// What a tweet's text refers to.
#[derive(Debug, PartialEq, Eq)]
pub struct Entities {
    pub hashtags: Vec<HashTag>,
    pub symbols: Vec<Symbol>,
    pub user_mentions: Vec<UserMention>,
    pub urls: Vec<Url>,
}

/// A cashtag symbol and where it stands in the text.
#[derive(Debug, PartialEq, Eq)]
pub struct Symbol {
    pub text: String,
    pub indices: Vec<String>,
}

/// A mentioned user and where the mention stands in the text.
#[derive(Debug, PartialEq, Eq)]
pub struct UserMention {
    pub name: String,
    pub screen_name: String,
    pub indices: Vec<String>,
    pub id_str: String,
    pub id: String,
}

/// A link and where it stands in the text.
#[derive(Debug, PartialEq, Eq)]
pub struct Url {
    pub url: String,
    pub expanded_url: String,
    pub display_url: String,
    pub indices: Vec<String>,
}

} // verus!

//! Turning archived note tweets into texts to embed, each checked against
//! the archive's tweets.
//!
//! A note tweet is matched by a tweet whose text opens the same way: the
//! key of a tweet is the first ten bytes of its text before any ellipsis,
//! and the note's text must contain it.
use crate::note_tweet::NoteTweet;
use crate::tweets::Tweet;
use crate::types::TextToEmbed;
use vstd::prelude::*;
use vstd::utf8::encode_utf8;

verus! {

/// The number of bytes of a tweet's key.
pub const KEY_LEN: usize = 10;

/// Why note tweets could not be turned into texts to embed.
#[derive(Debug, PartialEq, Eq)]
pub enum ParseError {
    /// While looking for the tweet of the note tweet at `note`, the tweet at
    /// `tweet` had no key: its text before any ellipsis is shorter than the
    /// key, or the key would end inside a character.
    ShortTweet { note: usize, tweet: usize },
    /// No tweet matches the note tweet at `note`.
    NoMatchingTweet { note: usize },
}

/// The UTF-8 encoding of the ellipsis character.
pub open spec fn ellipsis() -> Seq<u8> {
    seq![0xE2u8, 0x80u8, 0xA6u8]
}

/// Whether `needle` stands in `hay` from index `i` on.
pub open spec fn occurs_at(hay: Seq<u8>, needle: Seq<u8>, i: int) -> bool {
    0 <= i && i + needle.len() <= hay.len() && hay.subrange(i, i + needle.len()) == needle
}

/// The index of the first ellipsis in `b` at or after `i`, else the length.
pub open spec fn ellipsis_from(b: Seq<u8>, i: int) -> int
    decreases b.len() - i,
{
    if i < 0 || i + 3 > b.len() {
        b.len() as int
    } else if occurs_at(b, ellipsis(), i) {
        i
    } else {
        ellipsis_from(b, i + 1)
    }
}

/// Whether a character starts at index `i` of `b` (or `i` is its end).
pub open spec fn boundary(b: Seq<u8>, i: int) -> bool {
    i == b.len() || (0 <= i < b.len() && !(0x80 <= b[i] && b[i] < 0xC0))
}

/// The key of a tweet's text: its first bytes before any ellipsis, when
/// there are enough of them and they end on a character boundary.
pub open spec fn tweet_key(b: Seq<u8>) -> Option<Seq<u8>> {
    let head = b.take(ellipsis_from(b, 0));
    if KEY_LEN <= head.len() && boundary(head, KEY_LEN as int) {
        Some(head.take(KEY_LEN as int))
    } else {
        None
    }
}

/// What looking through the tweets from `i` on finds for a note.
pub enum Lookup {
    /// The first tweet whose key the note's text contains.
    Found(int),
    /// The first tweet without a key, reached before any match.
    Keyless(int),
    /// No tweet matches.
    Missing,
}

/// The outcome of looking for the note's tweet among the tweets' texts,
/// from index `i` on, in order.
pub open spec fn lookup(note: Seq<u8>, tweets: Seq<Seq<u8>>, i: int) -> Lookup
    decreases tweets.len() - i,
{
    if i < 0 || i >= tweets.len() {
        Lookup::Missing
    } else {
        match tweet_key(tweets[i]) {
            None => Lookup::Keyless(i),
            Some(key) => if exists|p: int| occurs_at(note, key, p) {
                Lookup::Found(i)
            } else {
                lookup(note, tweets, i + 1)
            },
        }
    }
}

proof fn lemma_lookup_found(note: Seq<u8>, tb: Seq<Seq<u8>>, i: int, key: Seq<u8>, p: int)
    requires
        0 <= i < tb.len(),
        tweet_key(tb[i]) == Some(key),
        occurs_at(note, key, p),
    ensures
        lookup(note, tb, i) == Lookup::Found(i),
{
    assert(tweet_key(tb[i])->0 == key);
    assert(occurs_at(note, tweet_key(tb[i])->0, p));
}

/// The UTF-8 encodings of the tweets' texts.
pub open spec fn tweet_bytes(tweets: Seq<Tweet>) -> Seq<Seq<u8>> {
    tweets.map_values(|t: Tweet| encode_utf8(t.full_text@))
}

/// The UTF-8 encoding of a note tweet's text.
pub open spec fn note_bytes(n: NoteTweet) -> Seq<u8> {
    encode_utf8(n.core.text@)
}

/// Whether a tweet matches the note.
pub open spec fn note_found(n: NoteTweet, tb: Seq<Seq<u8>>) -> bool {
    lookup(note_bytes(n), tb, 0) is Found
}

/// The text to embed made of a note tweet, with its id: the note's text,
/// dated when the note was created, from the source `x`, by the author.
pub open spec fn entry_of(
    e: TextToEmbed,
    author: String,
    index_name: String,
    id: String,
    n: NoteTweet,
) -> bool {
    &&& e.query_id == id
    &&& e.index_name == index_name
    &&& e.content == n.core.text
    &&& e.source is Some && e.source->0@ == seq!['x']
    &&& e.author == Some(author)
    &&& e.page is None
    &&& e.date == Some(n.created_at)
}

/// The index of the first ellipsis in `b`, else its length.
fn first_ellipsis(b: &[u8]) -> (r: usize)
    ensures
        r as int == ellipsis_from(b@, 0),
        r <= b@.len(),
{
    let n = b.len();
    let mut i: usize = 0;
    while i < n && n - i >= 3
        invariant
            i <= n == b@.len(),
            ellipsis_from(b@, 0) == ellipsis_from(b@, i as int),
        decreases n - i,
    {
        if b[i] == 0xE2u8 && b[i + 1] == 0x80u8 && b[i + 2] == 0xA6u8 {
            proof {
                assert(b@.subrange(i as int, i + 3) =~= ellipsis());
            }
            return i;
        }
        proof {
            assert(!occurs_at(b@, ellipsis(), i as int)) by {
                if occurs_at(b@, ellipsis(), i as int) {
                    assert(b@.subrange(i as int, i + 3)[0] == b@[i as int]);
                    assert(b@.subrange(i as int, i + 3)[1] == b@[i + 1]);
                    assert(b@.subrange(i as int, i + 3)[2] == b@[i + 2]);
                }
            }
        }
        i += 1;
    }
    n
}

/// Whether `needle` stands in `hay` from index `p` on.
fn occurs_at_exec(hay: &[u8], needle: &[u8], p: usize) -> (r: bool)
    requires
        p + needle@.len() <= hay@.len(),
    ensures
        r == occurs_at(hay@, needle@, p as int),
{
    let n = hay.len();
    let m = needle.len();
    let mut k: usize = 0;
    while k < m
        invariant
            n == hay@.len(),
            m == needle@.len(),
            p + m <= n,
            k <= m,
            forall|j: int| 0 <= j < k ==> hay@[p + j] == needle@[j],
        decreases m - k,
    {
        if hay[p + k] != needle[k] {
            proof {
                assert(hay@.subrange(p as int, p + m)[k as int] != needle@[k as int]);
            }
            return false;
        }
        k += 1;
    }
    proof {
        assert(hay@.subrange(p as int, p + m) =~= needle@);
    }
    true
}

/// Whether `needle` stands anywhere in `hay`.
fn contains_bytes(hay: &[u8], needle: &[u8]) -> (r: bool)
    ensures
        r == exists|p: int| occurs_at(hay@, needle@, p),
{
    let n = hay.len();
    let m = needle.len();
    if m > n {
        return false;
    }
    if m == 0 {
        proof {
            assert(occurs_at(hay@, needle@, 0)) by {
                assert(hay@.subrange(0, 0) =~= needle@);
            }
        }
        return true;
    }
    let mut p: usize = 0;
    while m <= n - p
        invariant
            n == hay@.len(),
            m == needle@.len(),
            1 <= m <= n,
            p <= n,
            forall|q: int| 0 <= q < p ==> !occurs_at(hay@, needle@, q),
        decreases n - p,
    {
        if occurs_at_exec(hay, needle, p) {
            return true;
        }
        p += 1;
    }
    proof {
        assert forall|q: int| !occurs_at(hay@, needle@, q) by {
            if occurs_at(hay@, needle@, q) {
                assert(q < p);
            }
        }
    }
    false
}

/// What looking through the tweets finds for a note.
enum TweetLookup {
    Found(usize),
    Keyless(usize),
    Missing,
}

/// Looks for the first tweet whose key the note's text contains, stopping
/// at a tweet without a key.
fn find_tweet(note: &[u8], tweets: &Vec<Tweet>) -> (r: TweetLookup)
    ensures
        lookup(note@, tweet_bytes(tweets@), 0) == match r {
            TweetLookup::Found(i) => Lookup::Found(i as int),
            TweetLookup::Keyless(i) => Lookup::Keyless(i as int),
            TweetLookup::Missing => Lookup::Missing,
        },
{
    let ghost tb = tweet_bytes(tweets@);
    let mut i: usize = 0;
    while i < tweets.len()
        invariant
            i <= tweets@.len(),
            tb == tweet_bytes(tweets@),
            lookup(note@, tb, 0) == lookup(note@, tb, i as int),
        decreases tweets.len() - i,
    {
        let b = tweets[i].full_text.as_str().as_bytes();
        proof {
            assert(tb.len() == tweets@.len());
            assert(b@ == tb[i as int]);
        }
        let cut = first_ellipsis(b);
        let has_key = KEY_LEN <= cut && (KEY_LEN == cut || !(0x80u8 <= b[KEY_LEN] && b[KEY_LEN]
            < 0xC0u8));
        proof {
            let head = b@.take(cut as int);
            if KEY_LEN < cut {
                assert(head[KEY_LEN as int] == b@[KEY_LEN as int]);
            }
            assert(has_key == (KEY_LEN <= head.len() && boundary(head, KEY_LEN as int)));
        }
        if !has_key {
            proof {
                assert(tweet_key(tb[i as int]) is None);
                assert(lookup(note@, tb, i as int) == Lookup::Keyless(i as int));
            }
            return TweetLookup::Keyless(i);
        }
        let key = &b[0..KEY_LEN];
        proof {
            assert(key@ =~= b@.take(cut as int).take(KEY_LEN as int));
        }
        proof {
            assert(tweet_key(tb[i as int]) == Some(key@));
        }
        if contains_bytes(note, key) {
            proof {
                assert(tb.len() == tweets@.len());
                let p = choose|p: int| occurs_at(note@, key@, p);
                lemma_lookup_found(note@, tb, i as int, key@, p);
            }
            return TweetLookup::Found(i);
        }
        i += 1;
    }
    TweetLookup::Missing
}

/// Turns note tweets, each with the id computed for it, into texts to
/// embed, after checking that each is matched by one of the tweets.
///
/// For each note in order, the tweets are looked through in order: the
/// first tweet without a key ends the work with `ShortTweet`, the first
/// whose key the note's text contains is its match, and a note that none
/// matches ends the work with `NoMatchingTweet`.
pub fn parse_tweet_data_to_embed(
    author: String,
    index_name: String,
    note_tweets: Vec<(String, NoteTweet)>,
    tweets: Vec<Tweet>,
) -> (r: Result<Vec<TextToEmbed>, ParseError>)
    ensures
        ({
            let tb = tweet_bytes(tweets@);
            match r {
                Ok(v) => {
                    &&& forall|j: int|
                        0 <= j < note_tweets@.len() ==> note_found(#[trigger] note_tweets@[j].1, tb)
                    &&& v@.len() == note_tweets@.len()
                    &&& forall|j: int|
                        0 <= j < v@.len() ==> entry_of(
                            #[trigger] v@[j],
                            author,
                            index_name,
                            note_tweets@[j].0,
                            note_tweets@[j].1,
                        )
                },
                Err(ParseError::ShortTweet { note, tweet }) => {
                    &&& note < note_tweets@.len()
                    &&& forall|j: int|
                        0 <= j < note ==> note_found(#[trigger] note_tweets@[j].1, tb)
                    &&& lookup(note_bytes(note_tweets@[note as int].1), tb, 0) == Lookup::Keyless(
                        tweet as int,
                    )
                },
                Err(ParseError::NoMatchingTweet { note }) => {
                    &&& note < note_tweets@.len()
                    &&& forall|j: int|
                        0 <= j < note ==> note_found(#[trigger] note_tweets@[j].1, tb)
                    &&& lookup(note_bytes(note_tweets@[note as int].1), tb, 0) == Lookup::Missing
                },
            }
        }),
{
    let ghost tb = tweet_bytes(tweets@);
    let mut out: Vec<TextToEmbed> = Vec::new();
    let mut j: usize = 0;
    while j < note_tweets.len()
        invariant
            j <= note_tweets@.len(),
            tb == tweet_bytes(tweets@),
            out@.len() == j,
            forall|q: int| 0 <= q < j ==> note_found(#[trigger] note_tweets@[q].1, tb),
            forall|q: int|
                0 <= q < j ==> entry_of(
                    #[trigger] out@[q],
                    author,
                    index_name,
                    note_tweets@[q].0,
                    note_tweets@[q].1,
                ),
        decreases note_tweets.len() - j,
    {
        let (id, note) = &note_tweets[j];
        let nb = note.core.text.as_str().as_bytes();
        match find_tweet(nb, &tweets) {
            TweetLookup::Found(_) => {},
            TweetLookup::Keyless(i) => {
                return Err(ParseError::ShortTweet { note: j, tweet: i });
            },
            TweetLookup::Missing => {
                return Err(ParseError::NoMatchingTweet { note: j });
            },
        }
        let source = String::from_str("x");
        proof {
            reveal_strlit("x");
        }
        let e = TextToEmbed {
            query_id: id.clone(),
            index_name: index_name.clone(),
            content: note.core.text.clone(),
            source: Some(source),
            author: Some(author.clone()),
            page: None,
            date: Some(note.created_at.clone()),
        };
        proof {
            assert(e.source->0@ == seq!['x']);
            assert(entry_of(
                e,
                author,
                index_name,
                note_tweets@[j as int].0,
                note_tweets@[j as int].1,
            ));
        }
        let ghost before = out@;
        out.push(e);
        proof {
            assert forall|q: int| 0 <= q < j implies #[trigger] out@[q] == before[q] by {}
        }
        j += 1;
    }
    Ok(out)
}

} // verus!

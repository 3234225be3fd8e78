//! A word-level splitter that cuts every paragraph on its own and, under a
//! token budget, packs the token ids of words and decodes each chunk back
//! into text.
//!
//! Its token-count policy is a state machine, as the packer is: it asks
//! for the ids of one word or the text of one run of ids at a time, and
//! takes the tokenizer's answer as a plain value.
use crate::packing::texts;
use crate::segment::{sentences_of, unicode_sentences, unicode_words, words_of};
use crate::split_criteria::{strings, trim_all, SplitError};
use crate::text::{
    chars_of, copy_range, paragraphs, push_all, space, split_paragraphs, string_of, trim,
    trim_chars,
};
use crate::tokens::{decode_ids, encode_ids};
use tokenizers::Tokenizer;
use vstd::prelude::*;

verus! {

/// Defines the criteria for splitting text into chunks.
#[derive(Clone, Copy, Debug, PartialEq, Eq)]
pub enum SplitCriteria {
    /// Splits each paragraph at the end of each sentence.
    EndOfSentence,
    /// Splits the text at paragraph breaks (runs of two line feeds or more).
    Paragraph,
    /// Packs the words of each paragraph into chunks of at most this many
    /// tokens.
    TokenCount(usize),
}

/// What the word packer does next.
pub enum Mode {
    /// Asks for the ids of the next word.
    Next,
    /// Decodes the chunk in hand to make room for a word with these ids.
    Flush(Seq<u32>),
    /// Decodes the chunk in hand and moves past the event at the head.
    Close,
}

/// The model of a word packer.
pub struct WordPackState {
    /// The events not yet handled: a word to encode (with the space that
    /// precedes it in its sentence), or `None` at the end of a paragraph.
    pub events: Seq<Option<Seq<char>>>,
    /// The ids of the chunk in hand.
    pub cur: Seq<u32>,
    pub mode: Mode,
    /// The chunks emitted so far.
    pub chunks: Seq<Seq<char>>,
}

/// An answer of the tokenizer: the ids of a word, or the text of some ids.
pub enum Reply {
    Ids(Seq<u32>),
    Text(Seq<char>),
}

/// The word events of one sentence: its words, each but the first with a
/// leading space.
pub open spec fn sentence_events(s: Seq<char>) -> Seq<Option<Seq<char>>> {
    words_of(s).map(
        |j: int, w: Seq<char>|
            Some(
                if j == 0 {
                    w
                } else {
                    space() + w
                },
            ),
    )
}

/// The word events of the sentences, in order.
pub open spec fn sentences_events(ss: Seq<Seq<char>>) -> Seq<Option<Seq<char>>>
    decreases ss.len(),
{
    if ss.len() == 0 {
        Seq::empty()
    } else {
        sentences_events(ss.drop_last()) + sentence_events(ss.last())
    }
}

/// The events of the paragraphs: the words of each, then its end.
pub open spec fn paragraphs_events(ps: Seq<Seq<char>>) -> Seq<Option<Seq<char>>>
    decreases ps.len(),
{
    if ps.len() == 0 {
        Seq::empty()
    } else {
        paragraphs_events(ps.drop_last()) + sentences_events(sentences_of(ps.last())).push(None)
    }
}

/// The events of a text.
pub open spec fn document_events(t: Seq<char>) -> Seq<Option<Seq<char>>> {
    paragraphs_events(paragraphs(t))
}

/// Passes paragraph ends while no chunk is in hand; at a paragraph end with
/// a chunk in hand, turns to closing it.
pub open spec fn settle(st: WordPackState) -> WordPackState
    decreases st.events.len(),
{
    if st.events.len() > 0 && st.events[0] is None && st.mode is Next {
        if st.cur.len() > 0 {
            WordPackState { mode: Mode::Close, ..st }
        } else {
            settle(WordPackState { events: st.events.drop_first(), ..st })
        }
    } else {
        st
    }
}

/// The word packer before its first question.
pub open spec fn word_start(events: Seq<Option<Seq<char>>>) -> WordPackState {
    settle(WordPackState { events, cur: Seq::empty(), mode: Mode::Next, chunks: Seq::empty() })
}

/// Whether a question is pending.
pub open spec fn word_active(st: WordPackState) -> bool {
    st.events.len() > 0
}

/// The transition on a reply, with the budget `max`.
///
/// A word's ids join the chunk in hand while the chunk stays within `max`
/// tokens. Otherwise the chunk in hand is decoded and emitted first; then a
/// word of more than `max` tokens is decoded and emitted alone, and any
/// other word starts the next chunk. At the end of a paragraph the chunk in
/// hand is decoded and emitted. Every emitted text is trimmed.
pub open spec fn word_step(st: WordPackState, reply: Reply, max: nat) -> WordPackState {
    if !word_active(st) {
        st
    } else {
        match st.mode {
            Mode::Next => match reply {
                Reply::Ids(ids) => if st.cur.len() + ids.len() > max {
                    if st.cur.len() > 0 {
                        WordPackState { mode: Mode::Flush(ids), ..st }
                    } else if ids.len() > max {
                        WordPackState { cur: ids, mode: Mode::Close, ..st }
                    } else {
                        settle(WordPackState { events: st.events.drop_first(), cur: ids, ..st })
                    }
                } else {
                    settle(
                        WordPackState { events: st.events.drop_first(), cur: st.cur + ids, ..st },
                    )
                },
                Reply::Text(_) => st,
            },
            Mode::Flush(ids) => match reply {
                Reply::Text(t) => {
                    let chunks = st.chunks.push(trim(t));
                    if ids.len() > max {
                        WordPackState { cur: ids, mode: Mode::Close, chunks, ..st }
                    } else {
                        settle(
                            WordPackState {
                                events: st.events.drop_first(),
                                cur: ids,
                                mode: Mode::Next,
                                chunks,
                            },
                        )
                    }
                },
                Reply::Ids(_) => st,
            },
            Mode::Close => match reply {
                Reply::Text(t) => settle(
                    WordPackState {
                        events: st.events.drop_first(),
                        cur: Seq::empty(),
                        mode: Mode::Next,
                        chunks: st.chunks.push(trim(t)),
                    },
                ),
                Reply::Ids(_) => st,
            },
        }
    }
}

/// The word packer after the given replies, in order.
pub open spec fn word_run(
    events: Seq<Option<Seq<char>>>,
    replies: Seq<Reply>,
    max: nat,
) -> WordPackState
    decreases replies.len(),
{
    if replies.len() == 0 {
        word_start(events)
    } else {
        word_step(word_run(events, replies.drop_last(), max), replies.last(), max)
    }
}

/// Whether replies that a tokenizer could give take the word packer over the
/// events to its end with these chunks.
pub open spec fn word_packs_to(
    events: Seq<Option<Seq<char>>>,
    max: nat,
    chunks: Seq<Seq<char>>,
) -> bool {
    exists|replies: Seq<Reply>|
        {
            &&& !word_active(#[trigger] word_run(events, replies, max))
            &&& word_run(events, replies, max).chunks == chunks
        }
}

/// Whether any event is a word.
pub open spec fn has_word(events: Seq<Option<Seq<char>>>) -> bool {
    exists|i: int| 0 <= i < events.len() && (#[trigger] events[i]) is Some
}

/// Whether the word packer over `events` comes, after replies, to a state
/// that asks to encode the word `w`.
pub open spec fn asks_encode(events: Seq<Option<Seq<char>>>, max: nat, w: Seq<char>) -> bool {
    exists|replies: Seq<Reply>|
        {
            &&& word_active(#[trigger] word_run(events, replies, max))
            &&& word_run(events, replies, max).mode is Next
            &&& word_run(events, replies, max).events[0] == Some(w)
        }
}

/// Whether the word packer over `events` comes, after replies, to a state
/// that asks to decode the ids `ids`.
pub open spec fn asks_decode(events: Seq<Option<Seq<char>>>, max: nat, ids: Seq<u32>) -> bool {
    exists|replies: Seq<Reply>|
        {
            &&& word_active(#[trigger] word_run(events, replies, max))
            &&& !(word_run(events, replies, max).mode is Next)
            &&& word_run(events, replies, max).cur == ids
        }
}

/// Whether `e` is a failure of the tokenizer on a question that the word
/// packer over `events` asks.
pub open spec fn failed_on_asked(e: SplitError, events: Seq<Option<Seq<char>>>, max: nat) -> bool {
    match e {
        SplitError::Tokenization { text, message } => asks_encode(events, max, text@),
        SplitError::Decoding { ids, message } => asks_decode(events, max, ids@),
        SplitError::Configuration => false,
    }
}

proof fn lemma_settle_no_words(st: WordPackState)
    requires
        st.mode is Next,
        st.cur.len() == 0,
        !has_word(st.events),
    ensures
        settle(st).events.len() == 0,
        settle(st).chunks == st.chunks,
    decreases st.events.len(),
{
    if st.events.len() > 0 {
        assert(st.events[0] is None);
        let next = WordPackState { events: st.events.drop_first(), ..st };
        assert(!has_word(next.events)) by {
            if has_word(next.events) {
                let i = choose|i: int|
                    0 <= i < next.events.len() && (#[trigger] next.events[i]) is Some;
                assert(st.events[i + 1] is Some);
            }
        }
        lemma_settle_no_words(next);
    }
}

/// The rank of a mode: each step either passes an event or lowers it.
pub open spec fn mode_rank(m: Mode) -> nat {
    match m {
        Mode::Next => 2,
        Mode::Flush(_) => 1,
        Mode::Close => 0,
    }
}

/// What holds of every state the word packer reaches.
pub open spec fn word_well_formed(st: WordPackState) -> bool {
    &&& st.mode is Next ==> (st.events.len() > 0 ==> st.events[0] is Some)
    &&& !(st.mode is Next) ==> st.events.len() > 0
    &&& st.mode is Flush ==> st.events[0] is Some
}

proof fn lemma_settle(st: WordPackState)
    requires
        st.mode is Next,
    ensures
        word_well_formed(settle(st)),
        settle(st).events.len() <= st.events.len(),
        settle(st).events.len() == st.events.len() ==> mode_rank(settle(st).mode) <= mode_rank(
            st.mode,
        ),
        settle(st).chunks == st.chunks,
    decreases st.events.len(),
{
    if st.events.len() > 0 && st.events[0] is None && st.cur.len() == 0 {
        lemma_settle(WordPackState { events: st.events.drop_first(), ..st });
    }
}

/// Every step keeps the word packer well formed and passes an event or
/// lowers its mode.
pub proof fn lemma_word_step(st: WordPackState, reply: Reply, max: nat)
    requires
        word_well_formed(st),
        word_active(st),
        (st.mode is Next) == (reply is Ids),
    ensures
        word_well_formed(word_step(st, reply, max)),
        ({
            let s2 = word_step(st, reply, max);
            ||| s2.events.len() < st.events.len()
            ||| s2.events.len() == st.events.len() && mode_rank(s2.mode) < mode_rank(st.mode)
        }),
{
    match st.mode {
        Mode::Next => match reply {
            Reply::Ids(ids) => {
                if !(st.cur.len() + ids.len() > max) {
                    lemma_settle(
                        WordPackState { events: st.events.drop_first(), cur: st.cur + ids, ..st },
                    );
                } else if st.cur.len() == 0 && ids.len() <= max {
                    lemma_settle(WordPackState { events: st.events.drop_first(), cur: ids, ..st });
                }
            },
            Reply::Text(_) => {},
        },
        Mode::Flush(ids) => match reply {
            Reply::Text(t) => {
                if ids.len() <= max {
                    lemma_settle(
                        WordPackState {
                            events: st.events.drop_first(),
                            cur: ids,
                            mode: Mode::Next,
                            chunks: st.chunks.push(trim(t)),
                        },
                    );
                }
            },
            Reply::Ids(_) => {},
        },
        Mode::Close => match reply {
            Reply::Text(t) => {
                lemma_settle(
                    WordPackState {
                        events: st.events.drop_first(),
                        cur: Seq::empty(),
                        mode: Mode::Next,
                        chunks: st.chunks.push(trim(t)),
                    },
                );
            },
            Reply::Ids(_) => {},
        },
    }
}

/// A question of the word packer.
pub enum Ask {
    /// Encode this word, without the special tokens.
    Encode(Vec<char>),
    /// Decode these ids, skipping the special tokens.
    Decode(Vec<u32>),
}

/// A word packer: the executable counterpart of `WordPackState`.
pub struct WordPacker {
    events: Vec<Option<Vec<char>>>,
    next: usize,
    cur: Vec<u32>,
    held: Vec<u32>,
    mode: u8,
    chunks: Vec<Vec<char>>,
    max_tokens: usize,
}

/// The texts of a vector of events.
pub open spec fn event_texts(v: Seq<Option<Vec<char>>>) -> Seq<Option<Seq<char>>> {
    v.map_values(
        |e: Option<Vec<char>>|
            match e {
                Some(w) => Some(w@),
                None => None,
            },
    )
}

impl View for WordPacker {
    type V = WordPackState;

    closed spec fn view(&self) -> WordPackState {
        WordPackState {
            events: event_texts(self.events@).skip(self.next as int),
            cur: self.cur@,
            mode: if self.mode == 0 {
                Mode::Next
            } else if self.mode == 1 {
                Mode::Flush(self.held@)
            } else {
                Mode::Close
            },
            chunks: texts(self.chunks@),
        }
    }
}

/// Copies of the ids.
fn copy_ids(v: &Vec<u32>) -> (r: Vec<u32>)
    ensures
        r@ == v@,
{
    let mut r: Vec<u32> = Vec::new();
    let mut i: usize = 0;
    while i < v.len()
        invariant
            i <= v.len(),
            r@ == v@.take(i as int),
        decreases v.len() - i,
    {
        r.push(v[i]);
        assert(r@ =~= v@.take(i + 1));
        i += 1;
    }
    assert(v@.take(i as int) =~= v@);
    r
}

impl WordPacker {
    /// The token budget of each chunk.
    pub closed spec fn budget(&self) -> nat {
        self.max_tokens as nat
    }

    /// The packer's own bookkeeping agrees with its model.
    pub closed spec fn inv(&self) -> bool {
        &&& self.next <= self.events.len()
        &&& self.mode <= 2
        &&& word_well_formed(self@)
    }

    /// The word packer is well formed.
    pub proof fn lemma_well_formed(&self)
        requires
            self.inv(),
        ensures
            word_well_formed(self@),
    {
    }

    /// Passes paragraph ends while no chunk is in hand.
    fn settle(&mut self)
        requires
            old(self).next <= old(self).events.len(),
            old(self).mode == 0,
        ensures
            final(self)@ == settle(old(self)@),
            final(self).inv(),
            final(self).max_tokens == old(self).max_tokens,
    {
        while self.next < self.events.len() && self.events[self.next].is_none() && self.cur.len()
            == 0
            invariant
                self.next <= self.events.len(),
                self.mode == 0,
                settle(self@) == settle(old(self)@),
                self.max_tokens == old(self).max_tokens,
            decreases self.events.len() - self.next,
        {
            proof {
                assert(event_texts(self.events@).skip(self.next + 1) =~= event_texts(
                    self.events@,
                ).skip(self.next as int).drop_first());
            }
            self.next = self.next + 1;
        }
        if self.next < self.events.len() && self.events[self.next].is_none() {
            self.mode = 2;
        }
        proof {
            lemma_settle(old(self)@);
        }
    }

    /// A word packer over the paragraphs of `text`, with the budget.
    pub fn for_text(text: &str, max_tokens: usize) -> (r: WordPacker)
        ensures
            r.inv(),
            r@ == word_start(document_events(text@)),
            r.budget() == max_tokens,
    {
        let chars = chars_of(text);
        let events = text_events(&chars);
        let mut p = WordPacker {
            events,
            next: 0,
            cur: Vec::new(),
            held: Vec::new(),
            mode: 0,
            chunks: Vec::new(),
            max_tokens,
        };
        proof {
            assert(event_texts(p.events@).skip(0) =~= event_texts(p.events@));
            assert(texts(p.chunks@) =~= Seq::<Seq<char>>::empty());
            assert(p.cur@ =~= Seq::<u32>::empty());
        }
        p.settle();
        p
    }

    /// Whether a question is pending.
    pub fn is_active(&self) -> (r: bool)
        requires
            self.inv(),
        ensures
            r == word_active(self@),
    {
        self.next < self.events.len()
    }

    /// The question pending: the word to encode, or the ids to decode.
    pub fn query(&self) -> (r: Ask)
        requires
            self.inv(),
            word_active(self@),
        ensures
            match r {
                Ask::Encode(w) => self@.mode is Next && self@.events[0] == Some(w@),
                Ask::Decode(ids) => !(self@.mode is Next) && ids@ == self@.cur,
            },
    {
        if self.mode == 0 {
            proof {
                assert(event_texts(self.events@)[self.next as int] == self@.events[0]);
            }
            match &self.events[self.next] {
                Some(w) => Ask::Encode(copy_range(w, 0, w.len())),
                None => Ask::Decode(copy_ids(&self.cur)),
            }
        } else {
            Ask::Decode(copy_ids(&self.cur))
        }
    }

    /// Hands the packer the ids of the word it asked to encode.
    pub fn feed_ids(&mut self, ids: Vec<u32>)
        requires
            old(self).inv(),
            word_active(old(self)@),
            old(self)@.mode is Next,
        ensures
            final(self).inv(),
            final(self)@ == word_step(old(self)@, Reply::Ids(ids@), old(self).budget()),
            final(self).budget() == old(self).budget(),
    {
        let max = self.max_tokens;
        let n = self.cur.len();
        let m = ids.len();
        if m > max || n > max - m {
            if n > 0 {
                self.held = ids;
                self.mode = 1;
            } else {
                self.cur = ids;
                self.mode = 2;
            }
        } else {
            let mut ids = ids;
            let ghost before = self.cur@;
            self.cur.append(&mut ids);
            proof {
                assert(event_texts(self.events@).skip(self.next + 1) =~= event_texts(
                    self.events@,
                ).skip(self.next as int).drop_first());
            }
            self.next = self.next + 1;
            self.settle();
        }
    }

    /// Hands the packer the text of the ids it asked to decode.
    pub fn feed_text(&mut self, text: Vec<char>)
        requires
            old(self).inv(),
            word_active(old(self)@),
            !(old(self)@.mode is Next),
        ensures
            final(self).inv(),
            final(self)@ == word_step(old(self)@, Reply::Text(text@), old(self).budget()),
            final(self).budget() == old(self).budget(),
    {
        let chunk = trim_chars(&text);
        let ghost before = self.chunks@;
        self.chunks.push(chunk);
        proof {
            assert(texts(self.chunks@) =~= texts(before).push(trim(text@)));
        }
        if self.mode == 1 {
            let held = copy_ids(&self.held);
            let max = self.max_tokens;
            if held.len() > max {
                self.cur = held;
                self.mode = 2;
            } else {
                self.cur = held;
                self.mode = 0;
                proof {
                    assert(event_texts(self.events@).skip(self.next + 1) =~= event_texts(
                        self.events@,
                    ).skip(self.next as int).drop_first());
                }
                self.next = self.next + 1;
                self.settle();
            }
        } else {
            self.cur = Vec::new();
            self.mode = 0;
            proof {
                assert(event_texts(self.events@).skip(self.next + 1) =~= event_texts(
                    self.events@,
                ).skip(self.next as int).drop_first());
                assert(self.cur@ =~= Seq::<u32>::empty());
            }
            self.next = self.next + 1;
            self.settle();
        }
    }

    /// The chunks emitted so far.
    pub fn chunks(&self) -> (r: Vec<String>)
        ensures
            strings(r@) == self@.chunks,
    {
        let mut r: Vec<String> = Vec::new();
        let mut i: usize = 0;
        while i < self.chunks.len()
            invariant
                i <= self.chunks.len(),
                strings(r@) == texts(self.chunks@).take(i as int),
            decreases self.chunks.len() - i,
        {
            let ghost before = r@;
            let s = string_of(&self.chunks[i]);
            r.push(s);
            proof {
                assert(strings(r@) =~= strings(before).push(s@));
                assert(texts(self.chunks@).take(i + 1) =~= texts(self.chunks@).take(i as int).push(
                    s@,
                ));
            }
            i += 1;
        }
        proof {
            assert(texts(self.chunks@).take(i as int) =~= texts(self.chunks@));
        }
        r
    }
}

/// The events of the text: the words of each sentence of each paragraph,
/// then the paragraph's end.
fn text_events(v: &Vec<char>) -> (r: Vec<Option<Vec<char>>>)
    ensures
        event_texts(r@) == document_events(v@),
{
    let paras = split_paragraphs(v);
    let ghost ps = texts(paras@);
    let mut r: Vec<Option<Vec<char>>> = Vec::new();
    let mut i: usize = 0;
    while i < paras.len()
        invariant
            i <= paras.len(),
            ps == texts(paras@),
            ps == paragraphs(v@),
            event_texts(r@) == paragraphs_events(ps.take(i as int)),
        decreases paras.len() - i,
    {
        let sents = unicode_sentences(&paras[i]);
        let ghost base = event_texts(r@);
        let ghost ss = sentences_of(ps[i as int]);
        let mut j: usize = 0;
        while j < sents.len()
            invariant
                i < paras.len(),
                j <= sents.len(),
                texts(sents@) == ss,
                ss == sentences_of(ps[i as int]),
                event_texts(r@) == base + sentences_events(ss.take(j as int)),
            decreases sents.len() - j,
        {
            let words = unicode_words(&sents[j]);
            let ghost mid = event_texts(r@);
            let ghost es = sentence_events(ss[j as int]);
            proof {
                assert(ss[j as int] == sents@[j as int]@);
            }
            let mut w: usize = 0;
            while w < words.len()
                invariant
                    j < sents.len(),
                    w <= words.len(),
                    texts(words@) == words_of(ss[j as int]),
                    es == sentence_events(ss[j as int]),
                    event_texts(r@) == mid + es.take(w as int),
                decreases words.len() - w,
            {
                let mut t: Vec<char> = Vec::new();
                if w > 0 {
                    t.push(' ');
                }
                push_all(&mut t, &words[w]);
                let ghost before = event_texts(r@);
                r.push(Some(t));
                proof {
                    assert(event_texts(r@) =~= before.push(Some(t@)));
                    if w > 0 {
                        assert(t@ =~= space() + words@[w as int]@);
                    } else {
                        assert(t@ =~= words@[w as int]@);
                    }
                    assert(es.take(w + 1) =~= es.take(w as int).push(Some(t@)));
                }
                w += 1;
            }
            proof {
                assert(es.take(w as int) =~= es);
                assert(ss.take(j + 1).drop_last() =~= ss.take(j as int));
                assert(base + sentences_events(ss.take(j + 1)) =~= base + sentences_events(
                    ss.take(j as int),
                ) + es);
            }
            j += 1;
        }
        let ghost before = event_texts(r@);
        r.push(None);
        proof {
            assert(event_texts(r@) =~= before.push(None));
            assert(ss.take(j as int) =~= ss);
            assert(ps.take(i + 1).drop_last() =~= ps.take(i as int));
        }
        i += 1;
    }
    proof {
        assert(ps.take(i as int) =~= ps);
    }
    r
}

/// The sentences of each paragraph, trimmed, in order.
pub open spec fn sentences_by_paragraph(ps: Seq<Seq<char>>) -> Seq<Seq<char>>
    decreases ps.len(),
{
    if ps.len() == 0 {
        Seq::empty()
    } else {
        sentences_by_paragraph(ps.drop_last()) + trim_all(sentences_of(ps.last()))
    }
}

impl SplitCriteria {
    /// Splits the given text into chunks under this policy, paragraph by
    /// paragraph.
    ///
    /// End of sentence: the sentences of each paragraph, trimmed. Paragraph:
    /// the paragraphs, trimmed, empty ones included. Token count: the word
    /// packer's chunks, for which it asks the tokenizer to encode words and
    /// to decode runs of ids; a failure of the tokenizer ends the split with
    /// no chunks. Without a tokenizer the token-count policy fails.
    pub fn split(&self, text: &str, tokenizer: Option<&Tokenizer>) -> (r: Result<
        Vec<String>,
        SplitError,
    >)
        ensures
            match *self {
                SplitCriteria::EndOfSentence => r is Ok && strings(r->Ok_0@)
                    == sentences_by_paragraph(paragraphs(text@)),
                SplitCriteria::Paragraph => r is Ok && strings(r->Ok_0@) == trim_all(
                    paragraphs(text@),
                ),
                SplitCriteria::TokenCount(max_tokens) => {
                    &&& tokenizer is None <==> r == Err::<Vec<String>, SplitError>(
                        SplitError::Configuration,
                    )
                    &&& r is Err && tokenizer is Some ==> failed_on_asked(
                        r->Err_0,
                        document_events(text@),
                        max_tokens as nat,
                    )
                    &&& tokenizer is Some && !has_word(document_events(text@)) ==> r is Ok
                        && r->Ok_0@.len() == 0
                    &&& r is Ok ==> word_packs_to(
                        document_events(text@),
                        max_tokens as nat,
                        strings(r->Ok_0@),
                    )
                },
            },
    {
        match *self {
            SplitCriteria::EndOfSentence => {
                let chars = chars_of(text);
                Ok(paragraph_sentences(&chars))
            },
            SplitCriteria::Paragraph => {
                let chars = chars_of(text);
                let paras = split_paragraphs(&chars);
                Ok(trimmed(&paras))
            },
            SplitCriteria::TokenCount(max_tokens) => {
                match tokenizer {
                    None => Err(SplitError::Configuration),
                    Some(tok) => pack_words(text, tok, max_tokens),
                }
            },
        }
    }
}

/// Each text, trimmed, as a string, after those already in `out`.
fn push_trimmed(out: &mut Vec<String>, v: &Vec<Vec<char>>)
    ensures
        strings(final(out)@) == strings(old(out)@) + trim_all(texts(v@)),
{
    let ghost base = strings(out@);
    let mut i: usize = 0;
    while i < v.len()
        invariant
            i <= v.len(),
            strings(out@) == base + trim_all(texts(v@)).take(i as int),
        decreases v.len() - i,
    {
        let t = trim_chars(&v[i]);
        let s = string_of(&t);
        let ghost before = out@;
        out.push(s);
        proof {
            assert(strings(out@) =~= strings(before).push(s@));
            assert(trim_all(texts(v@)).take(i + 1) =~= trim_all(texts(v@)).take(i as int).push(
                s@,
            ));
        }
        i += 1;
    }
    proof {
        assert(trim_all(texts(v@)).take(i as int) =~= trim_all(texts(v@)));
    }
}

/// Each text, trimmed, as a string.
fn trimmed(v: &Vec<Vec<char>>) -> (r: Vec<String>)
    ensures
        strings(r@) == trim_all(texts(v@)),
{
    let mut r: Vec<String> = Vec::new();
    proof {
        assert(strings(r@) =~= Seq::<Seq<char>>::empty());
    }
    push_trimmed(&mut r, v);
    proof {
        assert(Seq::<Seq<char>>::empty() + trim_all(texts(v@)) =~= trim_all(texts(v@)));
    }
    r
}

/// The sentences of each paragraph of the text, trimmed.
fn paragraph_sentences(v: &Vec<char>) -> (r: Vec<String>)
    ensures
        strings(r@) == sentences_by_paragraph(paragraphs(v@)),
{
    let paras = split_paragraphs(v);
    let ghost ps = texts(paras@);
    let mut r: Vec<String> = Vec::new();
    let mut i: usize = 0;
    proof {
        assert(strings(r@) =~= Seq::<Seq<char>>::empty());
    }
    while i < paras.len()
        invariant
            i <= paras.len(),
            ps == texts(paras@),
            ps == paragraphs(v@),
            strings(r@) == sentences_by_paragraph(ps.take(i as int)),
        decreases paras.len() - i,
    {
        let sents = unicode_sentences(&paras[i]);
        proof {
            assert(paras@[i as int]@ == ps[i as int]);
        }
        push_trimmed(&mut r, &sents);
        proof {
            assert(ps.take(i + 1).drop_last() =~= ps.take(i as int));
        }
        i += 1;
    }
    proof {
        assert(ps.take(i as int) =~= ps);
    }
    r
}

/// Packs the words of `text` under the budget, asking `tok` to encode and
/// decode.
fn pack_words(text: &str, tok: &Tokenizer, max_tokens: usize) -> (r: Result<
    Vec<String>,
    SplitError,
>)
    ensures
        r is Err ==> failed_on_asked(r->Err_0, document_events(text@), max_tokens as nat),
        !has_word(document_events(text@)) ==> r is Ok && r->Ok_0@.len() == 0,
        r is Ok ==> word_packs_to(document_events(text@), max_tokens as nat, strings(r->Ok_0@)),
{
    let ghost events = document_events(text@);
    let ghost max = max_tokens as nat;
    let mut p = WordPacker::for_text(text, max_tokens);
    let ghost mut replies: Seq<Reply> = Seq::empty();
    while p.is_active()
        invariant
            p.inv(),
            p.budget() == max,
            p@ == word_run(events, replies, max),
            events == document_events(text@),
            max == max_tokens as nat,
            !has_word(events) ==> replies.len() == 0,
        decreases p@.events.len(), mode_rank(p@.mode),
    {
        proof {
            if !has_word(events) {
                lemma_settle_no_words(
                    WordPackState {
                        events,
                        cur: Seq::empty(),
                        mode: Mode::Next,
                        chunks: Seq::empty(),
                    },
                );
            }
        }
        match p.query() {
            Ask::Encode(w) => match encode_ids(tok, &w, false) {
                Ok(ids) => {
                    proof {
                        p.lemma_well_formed();
                        lemma_word_step(p@, Reply::Ids(ids@), max);
                    }
                    let ghost reply = Reply::Ids(ids@);
                    p.feed_ids(ids);
                    proof {
                        let prev = replies;
                        replies = replies.push(reply);
                        assert(replies.drop_last() =~= prev);
                    }
                },
                Err(message) => {
                    let failed = string_of(&w);
                    let e = SplitError::Tokenization { text: failed, message };
                    proof {
                        assert(asks_encode(events, max, failed@));
                        assert(failed_on_asked(e, events, max));
                    }
                    return Err(e);
                },
            },
            Ask::Decode(ids) => match decode_ids(tok, &ids, true) {
                Ok(t) => {
                    proof {
                        p.lemma_well_formed();
                        lemma_word_step(p@, Reply::Text(t@), max);
                    }
                    let ghost reply = Reply::Text(t@);
                    p.feed_text(t);
                    proof {
                        let prev = replies;
                        replies = replies.push(reply);
                        assert(replies.drop_last() =~= prev);
                    }
                },
                Err(message) => {
                    let ghost asked = ids@;
                    let e = SplitError::Decoding { ids, message };
                    proof {
                        assert(asks_decode(events, max, asked));
                        assert(failed_on_asked(e, events, max));
                    }
                    return Err(e);
                },
            },
        }
    }
    let chunks = p.chunks();
    proof {
        if !has_word(events) {
            lemma_settle_no_words(
                WordPackState { events, cur: Seq::empty(), mode: Mode::Next, chunks: Seq::empty() },
            );
            assert(strings(chunks@).len() == chunks@.len());
        }
        assert(!word_active(word_run(events, replies, max)) && word_run(events, replies, max).chunks
            == strings(chunks@));
    }
    Ok(chunks)
}

} // verus!

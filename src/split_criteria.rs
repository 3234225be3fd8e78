//! The splitting policies and the operation that applies them to a text.
use crate::packing::{
    chunk_backed, document_units, lemma_every_chunk_backed, lemma_step, lemma_unbounded_windows,
    phase_left, query_text, run, start, texts, window_chunks, Packer,
};
use crate::segment::{sentences_of, unicode_sentences};
use crate::text::{
    chars_of, interleave, is_break, lemma_paragraphs_rejoin, paragraph_breaks, paragraphs,
    split_paragraphs, string_of, trim, trim_chars,
};
use crate::tokens::encode_ids;
use tokenizers::Tokenizer;
use vstd::prelude::*;

verus! {

/// Defines the criteria for splitting text into chunks.
#[derive(Clone, Copy, Debug, PartialEq, Eq)]
pub enum SplitCriteria {
    /// Splits the text at the end of each sentence.
    EndOfSentence,
    /// Splits the text at paragraph breaks (runs of two line feeds or more).
    Paragraph,
    /// Packs the sentences of each paragraph into chunks of at most
    /// `max_tokens` tokens, each carrying up to `context_sentences`
    /// preceding sentences of its paragraph as context.
    TokenCount { max_tokens: usize, context_sentences: usize },
}

/// Why a text could not be split.
#[derive(Debug, PartialEq, Eq)]
pub enum SplitError {
    /// The token-counting policy was chosen without a tokenizer.
    Configuration,
    /// The tokenizer rejected a text: the text, and the tokenizer's message.
    Tokenization { text: String, message: String },
    /// The tokenizer rejected token ids: the ids, and the tokenizer's message.
    Decoding { ids: Vec<u32>, message: String },
}

/// The texts of a vector of strings.
pub open spec fn strings(v: Seq<String>) -> Seq<Seq<char>> {
    v.map_values(|x: String| x@)
}

/// Each text without leading and trailing whitespace.
pub open spec fn trim_all(v: Seq<Seq<char>>) -> Seq<Seq<char>> {
    v.map_values(|x: Seq<char>| trim(x))
}

/// The chunks of the end-of-sentence policy: the sentences of the text,
/// trimmed.
pub open spec fn sentence_chunks(t: Seq<char>) -> Seq<Seq<char>> {
    trim_all(sentences_of(t))
}

/// The chunks of the paragraph policy: the paragraphs of the text, trimmed,
/// empty ones included.
pub open spec fn paragraph_chunks(t: Seq<char>) -> Seq<Seq<char>> {
    trim_all(paragraphs(t))
}

/// Whether answers that a tokenizer could give (each a count that fits in
/// a `usize`) take the packer over `units` to its end with these chunks.
pub open spec fn packs_to(
    units: Seq<(Seq<char>, bool)>,
    max: nat,
    k: nat,
    chunks: Seq<Seq<char>>,
) -> bool {
    exists|answers: Seq<nat>|
        {
            &&& forall|i: int| 0 <= i < answers.len() ==> answers[i] <= usize::MAX
            &&& !(#[trigger] run(units, answers, max, k)).active
            &&& run(units, answers, max, k).chunks == chunks
        }
}

/// Whether the packer over `units` asks, after answers that a tokenizer
/// could give, for the count of the text `t`.
pub open spec fn asks(units: Seq<(Seq<char>, bool)>, max: nat, k: nat, t: Seq<char>) -> bool {
    exists|answers: Seq<nat>|
        {
            &&& forall|i: int| 0 <= i < answers.len() ==> answers[i] <= usize::MAX
            &&& (#[trigger] run(units, answers, max, k)).active
            &&& query_text(run(units, answers, max, k)) == t
        }
}

/// Whether `e` is a tokenization error on a text that the packer over
/// `units` asks about.
pub open spec fn failed_on_asked(
    e: SplitError,
    units: Seq<(Seq<char>, bool)>,
    max: nat,
    k: nat,
) -> bool {
    match e {
        SplitError::Tokenization { text, message } => asks(units, max, k, text@),
        _ => false,
    }
}

/// No text is lost by the paragraph policy: its chunks are the paragraphs
/// trimmed, and the paragraphs with the breaks between them (each a run of
/// two line feeds or more) give the text back.
pub proof fn lemma_paragraph_coverage(text: Seq<char>)
    ensures
        paragraph_chunks(text) == trim_all(paragraphs(text)),
        paragraphs(text).len() == paragraph_breaks(text).len() + 1,
        interleave(paragraphs(text), paragraph_breaks(text)) == text,
        forall|m: int|
            0 <= m < paragraph_breaks(text).len() ==> is_break(
                #[trigger] paragraph_breaks(text)[m],
            ),
{
    lemma_paragraphs_rejoin(text);
}

/// With a budget of `usize::MAX` tokens, which no count exceeds, the
/// token-count policy gives one chunk per sentence: the sentence with up to
/// `k` sentences before it in its paragraph, joined by spaces and trimmed.
pub proof fn lemma_unbounded_context(text: Seq<char>, k: nat, chunks: Seq<Seq<char>>)
    requires
        packs_to(document_units(text), usize::MAX as nat, k, chunks),
    ensures
        chunks == window_chunks(document_units(text), k),
{
    let units = document_units(text);
    let answers = choose|answers: Seq<nat>|
        {
            &&& forall|i: int| 0 <= i < answers.len() ==> answers[i] <= usize::MAX
            &&& !(#[trigger] run(units, answers, usize::MAX as nat, k)).active
            &&& run(units, answers, usize::MAX as nat, k).chunks == chunks
        };
    lemma_unbounded_windows(units, answers, k);
}

/// Under the token-count policy every chunk is within the budget by the
/// counts that the tokenizer reported, but a single word reported over it:
/// the chunks come from answers under which each chunk was added by one
/// step of the packer, backed by the count reported to that step.
pub proof fn lemma_chunks_within_budget(text: Seq<char>, max: nat, k: nat, chunks: Seq<Seq<char>>)
    requires
        packs_to(document_units(text), max, k, chunks),
    ensures
        exists|answers: Seq<nat>|
            {
                &&& #[trigger] run(document_units(text), answers, max, k).chunks == chunks
                &&& forall|i: int|
                    0 <= i < chunks.len() ==> #[trigger] chunk_backed(
                        document_units(text),
                        answers,
                        max,
                        k,
                        i,
                    )
            },
{
    let units = document_units(text);
    let answers = choose|answers: Seq<nat>|
        {
            &&& forall|i: int| 0 <= i < answers.len() ==> answers[i] <= usize::MAX
            &&& !(#[trigger] run(units, answers, max, k)).active
            &&& run(units, answers, max, k).chunks == chunks
        };
    lemma_every_chunk_backed(units, answers, max, k);
}

/// Each text, trimmed, as a string.
fn trimmed_strings(v: &Vec<Vec<char>>) -> (r: Vec<String>)
    ensures
        strings(r@) == trim_all(texts(v@)),
{
    let mut r: Vec<String> = Vec::new();
    let mut i: usize = 0;
    while i < v.len()
        invariant
            i <= v.len(),
            strings(r@) == trim_all(texts(v@)).take(i as int),
        decreases v.len() - i,
    {
        let t = trim_chars(&v[i]);
        let s = string_of(&t);
        let ghost before = r@;
        r.push(s);
        proof {
            assert(strings(r@) =~= strings(before).push(s@));
            assert(trim_all(texts(v@)).take(i + 1) =~= trim_all(texts(v@)).take(i as int).push(
                s@,
            ));
        }
        i += 1;
    }
    proof {
        assert(trim_all(texts(v@)).take(i as int) =~= trim_all(texts(v@)));
    }
    r
}

impl SplitCriteria {
    /// Splits the given text into chunks under this policy.
    ///
    /// End of sentence: the sentences of the whole text, trimmed. Paragraph:
    /// the pieces between paragraph breaks, trimmed, empty ones included.
    /// Token count: the sentences of each paragraph, packed by the packer,
    /// which asks the tokenizer for every count it needs; a failure of the
    /// tokenizer ends the split with no chunks. Without a tokenizer the
    /// token-count policy fails before any other work.
    pub fn split(&self, text: &str, tokenizer: Option<&Tokenizer>) -> (r: Result<
        Vec<String>,
        SplitError,
    >)
        ensures
            match *self {
                SplitCriteria::EndOfSentence => r is Ok && strings(r->Ok_0@) == sentence_chunks(
                    text@,
                ),
                SplitCriteria::Paragraph => r is Ok && strings(r->Ok_0@) == paragraph_chunks(
                    text@,
                ),
                SplitCriteria::TokenCount { max_tokens, context_sentences } => {
                    &&& tokenizer is None <==> r == Err::<Vec<String>, SplitError>(
                        SplitError::Configuration,
                    )
                    &&& r is Err && tokenizer is Some ==> failed_on_asked(
                        r->Err_0,
                        document_units(text@),
                        max_tokens as nat,
                        context_sentences as nat,
                    )
                    &&& tokenizer is Some && document_units(text@).len() == 0 ==> r is Ok
                        && r->Ok_0@.len() == 0
                    &&& r is Ok ==> packs_to(
                        document_units(text@),
                        max_tokens as nat,
                        context_sentences as nat,
                        strings(r->Ok_0@),
                    )
                },
            },
    {
        match *self {
            SplitCriteria::EndOfSentence => {
                let chars = chars_of(text);
                let sents = unicode_sentences(&chars);
                Ok(trimmed_strings(&sents))
            },
            SplitCriteria::Paragraph => {
                let chars = chars_of(text);
                let paras = split_paragraphs(&chars);
                Ok(trimmed_strings(&paras))
            },
            SplitCriteria::TokenCount { max_tokens, context_sentences } => {
                match tokenizer {
                    None => Err(SplitError::Configuration),
                    Some(tok) => pack_with(text, tok, max_tokens, context_sentences),
                }
            },
        }
    }
}

/// Packs the sentences of `text` under the budget, asking `tok` for the
/// token counts.
fn pack_with(text: &str, tok: &Tokenizer, max_tokens: usize, context_sentences: usize) -> (r:
    Result<Vec<String>, SplitError>)
    ensures
        r is Err ==> failed_on_asked(
            r->Err_0,
            document_units(text@),
            max_tokens as nat,
            context_sentences as nat,
        ),
        document_units(text@).len() == 0 ==> r is Ok && r->Ok_0@.len() == 0,
        r is Ok ==> packs_to(
            document_units(text@),
            max_tokens as nat,
            context_sentences as nat,
            strings(r->Ok_0@),
        ),
{
    let ghost u = document_units(text@);
    let ghost max = max_tokens as nat;
    let ghost k = context_sentences as nat;
    let mut p = Packer::for_text(text, max_tokens, context_sentences);
    let ghost mut answers: Seq<nat> = Seq::empty();
    while p.is_active()
        invariant
            p.inv(),
            p.budget() == max,
            p.context() == k,
            p@ == run(u, answers, max, k),
            forall|i: int| 0 <= i < answers.len() ==> answers[i] <= usize::MAX,
            u.len() == 0 ==> answers.len() == 0,
            u == document_units(text@),
            max == max_tokens as nat,
            k == context_sentences as nat,
        decreases p@.pending.len(), p@.words.len(), phase_left(p@),
    {
        proof {
            if u.len() == 0 {
                assert(!start(u, k).active);
            }
        }
        let (q, special) = p.query();
        match encode_ids(tok, &q, special) {
            Ok(ids) => {
                let c = ids.len();
                proof {
                    p.lemma_well_formed();
                    lemma_step(p@, c as nat, max, k);
                }
                p.feed(c);
                proof {
                    let prev = answers;
                    answers = answers.push(c as nat);
                    assert(answers.drop_last() =~= prev);
                }
            },
            Err(message) => {
                let failed = string_of(&q);
                proof {
                    if u.len() == 0 {
                        assert(run(u, answers, max, k) == start(u, k));
                    }
                    assert(run(u, answers, max, k).active && query_text(run(u, answers, max, k))
                        == failed@);
                    assert(asks(u, max, k, failed@));
                }
                let e = SplitError::Tokenization { text: failed, message };
                proof {
                    assert(failed_on_asked(e, u, max, k));
                    assert(u.len() != 0);
                }
                return Err(e);
            },
        }
    }
    let chunks = p.chunks();
    proof {
        if u.len() == 0 {
            assert(run(u, answers, max, k) == start(u, k));
            assert(strings(chunks@).len() == chunks@.len());
        }
        assert(!run(u, answers, max, k).active && run(u, answers, max, k).chunks == strings(
            chunks@,
        ));
    }
    Ok(chunks)
}

} // verus!

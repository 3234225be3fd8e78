//! Packing the sentences of a document into chunks under a token budget.
//!
//! The packer is a state machine. It poses one question at a time (how many
//! tokens does this text encode to?) and takes the answer as a plain count,
//! so the decisions are verified for every answer a tokenizer may give.
//! `PackState` is its mathematical model and `step` its transition.
use crate::segment::{sentences_of, unicode_sentences, unicode_words, words_of};
use crate::text::{
    chars_of, copy_range, join, join_chars, paragraphs, push_all, space, split_paragraphs,
    string_of, trim, trim_chars,
};
use vstd::prelude::*;

verus! {

/// The model of a packer.
pub struct PackState {
    /// Sentences not yet started, each with whether it opens a paragraph.
    pub pending: Seq<(Seq<char>, bool)>,
    /// The units already handled in the current paragraph, oldest first:
    /// the sentences, and the remainders of sentences cut into words.
    pub done: Seq<Seq<char>>,
    /// The text of the unit in hand.
    pub cur: Seq<char>,
    /// The words of the unit in hand.
    pub words: Seq<Seq<char>>,
    /// Above zero: the number of units in the window being tried, the unit
    /// in hand last. Zero: the unit is being packed word by word.
    pub window: nat,
    /// The token counts reported for the words already packed.
    pub counts: Seq<nat>,
    /// The chunks emitted so far.
    pub chunks: Seq<Seq<char>>,
    /// Whether a unit is in hand; false once everything is packed.
    pub active: bool,
}

/// The sum of the counts.
pub open spec fn sum(s: Seq<nat>) -> nat
    decreases s.len(),
{
    if s.len() == 0 {
        0
    } else {
        sum(s.drop_last()) + s.last()
    }
}

/// The smaller of two naturals.
pub open spec fn min_nat(a: nat, b: nat) -> nat {
    if a < b {
        a
    } else {
        b
    }
}

/// Takes up a unit: the window starts with as many handled units of the
/// paragraph as the context allows. A unit that opens a paragraph has none.
pub open spec fn begin(
    st: PackState,
    text: Seq<char>,
    words: Seq<Seq<char>>,
    opens: bool,
    k: nat,
) -> PackState {
    let done = if opens {
        Seq::empty()
    } else {
        st.done
    };
    PackState {
        done,
        cur: text,
        words,
        window: min_nat(k, done.len()) + 1,
        counts: Seq::empty(),
        active: true,
        ..st
    }
}

/// Takes up the next pending sentence, or stops when there is none.
pub open spec fn advance(st: PackState, k: nat) -> PackState {
    if st.pending.len() == 0 {
        PackState { words: Seq::empty(), window: 0, counts: Seq::empty(), active: false, ..st }
    } else {
        let u = st.pending[0];
        begin(PackState { pending: st.pending.drop_first(), ..st }, u.0, words_of(u.0), u.1, k)
    }
}

/// Closes the unit in hand. Words that it left over become a unit of their
/// own, handled next: their text is the words joined by spaces.
pub open spec fn finish(st: PackState, rest: Seq<Seq<char>>, k: nat) -> PackState {
    let st2 = PackState { done: st.done.push(st.cur), ..st };
    if rest.len() > 0 {
        begin(st2, join(rest, space()), rest, false, k)
    } else {
        advance(st2, k)
    }
}

/// Adds a chunk to the output.
pub open spec fn emit(st: PackState, chunk: Seq<char>) -> PackState {
    PackState { chunks: st.chunks.push(chunk), ..st }
}

/// The units of the window being tried, oldest first.
pub open spec fn window_of(st: PackState) -> Seq<Seq<char>> {
    st.done.skip(st.done.len() - (st.window - 1)).push(st.cur)
}

/// The text whose token count the packer asks for next.
pub open spec fn query_text(st: PackState) -> Seq<char> {
    if st.window > 0 {
        join(window_of(st), space())
    } else if st.counts.len() == 0 {
        st.words[0]
    } else {
        space() + st.words[st.counts.len() as int]
    }
}

/// Whether that text is to be encoded with the special tokens: windows are,
/// single words are not.
pub open spec fn query_special(st: PackState) -> bool {
    st.window > 0
}

/// The transition on the count `c` reported for the text asked for, with
/// the budget `max` and `k` sentences of context.
///
/// A window that fits is emitted. One that does not loses its oldest unit;
/// when the unit in hand alone does not fit, it is packed word by word:
/// words are taken while their counts sum to at most `max`, a first word
/// over `max` goes out alone, and the words left over are handled next as a
/// unit of their own.
pub open spec fn step(st: PackState, c: nat, max: nat, k: nat) -> PackState {
    if !st.active {
        st
    } else if st.window > 0 {
        if c <= max {
            finish(emit(st, trim(query_text(st))), Seq::empty(), k)
        } else if st.window > 1 {
            PackState { window: (st.window - 1) as nat, ..st }
        } else if st.words.len() == 0 {
            finish(st, Seq::empty(), k)
        } else {
            PackState { window: 0, counts: Seq::empty(), ..st }
        }
    } else {
        let taken = st.counts.len();
        if c > max || sum(st.counts) + c > max {
            let n: int = if taken == 0 {
                1
            } else {
                taken as int
            };
            finish(emit(st, trim(join(st.words.take(n), space()))), st.words.skip(n), k)
        } else if taken + 1 == st.words.len() {
            finish(
                emit(PackState { counts: st.counts.push(c), ..st }, trim(join(st.words, space()))),
                Seq::empty(),
                k,
            )
        } else {
            PackState { counts: st.counts.push(c), ..st }
        }
    }
}

/// The packer before its first question, on the given sentences.
pub open spec fn start(units: Seq<(Seq<char>, bool)>, k: nat) -> PackState {
    advance(
        PackState {
            pending: units,
            done: Seq::empty(),
            cur: Seq::empty(),
            words: Seq::empty(),
            window: 0,
            counts: Seq::empty(),
            chunks: Seq::empty(),
            active: false,
        },
        k,
    )
}

/// The packer after the given answers, in order.
pub open spec fn run(
    units: Seq<(Seq<char>, bool)>,
    answers: Seq<nat>,
    max: nat,
    k: nat,
) -> PackState
    decreases answers.len(),
{
    if answers.len() == 0 {
        start(units, k)
    } else {
        step(run(units, answers.drop_last(), max, k), answers.last(), max, k)
    }
}

/// What holds of every state the packer reaches.
pub open spec fn well_formed(st: PackState, max: nat) -> bool {
    st.active ==> {
        &&& st.window > 0 ==> st.window <= st.done.len() + 1 && st.counts.len() == 0
        &&& st.window == 0 ==> st.counts.len() < st.words.len()
        &&& sum(st.counts) <= max
    }
}

/// How much work the unit in hand has left in its current phase.
pub open spec fn phase_left(st: PackState) -> nat {
    if st.window > 0 {
        st.window + st.words.len() + 1
    } else {
        (st.words.len() - st.counts.len()) as nat
    }
}

/// `b` is nearer the end than `a`: fewer pending sentences, or as many and
/// fewer words in hand, or as many of both and less left in the phase.
pub open spec fn closer(b: PackState, a: PackState) -> bool {
    ||| b.pending.len() < a.pending.len()
    ||| b.pending.len() == a.pending.len() && b.words.len() < a.words.len()
    ||| b.pending.len() == a.pending.len() && b.words.len() == a.words.len() && phase_left(b)
        < phase_left(a)
}

proof fn lemma_begin_well_formed(
    st: PackState,
    text: Seq<char>,
    words: Seq<Seq<char>>,
    opens: bool,
    k: nat,
    max: nat,
)
    ensures
        well_formed(begin(st, text, words, opens, k), max),
{
}

/// Every step keeps the packer well formed and brings it closer to the end.
pub proof fn lemma_step(st: PackState, c: nat, max: nat, k: nat)
    requires
        well_formed(st, max),
        st.active,
    ensures
        well_formed(step(st, c, max, k), max),
        closer(step(st, c, max, k), st),
{
    let taken = st.counts.len();
    if st.window == 0 && !(c > max || sum(st.counts) + c > max) {
        assert(st.counts.push(c).drop_last() =~= st.counts);
    }
    if st.window == 0 && (c > max || sum(st.counts) + c > max) {
        let n: int = if taken == 0 {
            1
        } else {
            taken as int
        };
        assert(st.words.skip(n).len() < st.words.len());
    }
}

/// Whether the step from `st` on the reported count `c` may add the chunk
/// `ch`: it is the window just asked about, whose count was at most `max`;
/// or the first words of the unit in hand, whose reported counts (those
/// packed before, with `c` when the last word also fitted) sum to at most
/// `max`; or the unit's first word alone, whose own count was over `max`.
pub open spec fn backed_by(st: PackState, c: nat, max: nat, ch: Seq<char>) -> bool {
    ||| st.window > 0 && c <= max && ch == trim(query_text(st))
    ||| {
        &&& st.window == 0
        &&& st.counts.len() >= 1
        &&& sum(st.counts) <= max
        &&& ch == trim(join(st.words.take(st.counts.len() as int), space()))
    }
    ||| {
        &&& st.window == 0
        &&& st.counts.len() + 1 == st.words.len()
        &&& sum(st.counts.push(c)) <= max
        &&& ch == trim(join(st.words, space()))
    }
    ||| {
        &&& st.window == 0
        &&& st.counts.len() == 0
        &&& c > max
        &&& ch == trim(join(st.words.take(1), space()))
    }
}

/// A step keeps the chunks already emitted and adds at most one, backed by
/// the count reported to it.
pub proof fn lemma_chunk_within_budget(st: PackState, c: nat, max: nat, k: nat)
    requires
        well_formed(st, max),
    ensures
        ({
            let s2 = step(st, c, max, k);
            ||| s2.chunks == st.chunks
            ||| {
                &&& s2.chunks.len() == st.chunks.len() + 1
                &&& s2.chunks.drop_last() == st.chunks
                &&& backed_by(st, c, max, s2.chunks.last())
            }
        }),
{
    let s2 = step(st, c, max, k);
    if st.active {
        if st.window == 0 && !(c > max || sum(st.counts) + c > max) {
            assert(st.counts.push(c).drop_last() =~= st.counts);
        }
        if s2.chunks.len() == st.chunks.len() + 1 {
            assert(s2.chunks.drop_last() =~= st.chunks);
        }
    }
}

proof fn lemma_run_well_formed(
    units: Seq<(Seq<char>, bool)>,
    answers: Seq<nat>,
    max: nat,
    k: nat,
)
    ensures
        well_formed(run(units, answers, max, k), max),
    decreases answers.len(),
{
    if answers.len() > 0 {
        let prev = answers.drop_last();
        lemma_run_well_formed(units, prev, max, k);
        let st = run(units, prev, max, k);
        if st.active {
            lemma_step(st, answers.last(), max, k);
        }
    }
}

/// Chunk `i` of the packer after the answers was added by one of its steps,
/// backed by the count reported to that step.
pub open spec fn chunk_backed(
    units: Seq<(Seq<char>, bool)>,
    answers: Seq<nat>,
    max: nat,
    k: nat,
    i: int,
) -> bool {
    exists|j: int|
        0 <= j < answers.len() && #[trigger] backed_by(
            run(units, answers.take(j), max, k),
            answers[j],
            max,
            run(units, answers, max, k).chunks[i],
        )
}

/// Every chunk is within the budget by the counts the tokenizer reported,
/// but a single word reported over it: whatever the answers, each chunk of
/// the packer was added by one step, backed by the count reported to it.
pub proof fn lemma_every_chunk_backed(
    units: Seq<(Seq<char>, bool)>,
    answers: Seq<nat>,
    max: nat,
    k: nat,
)
    ensures
        forall|i: int|
            0 <= i < run(units, answers, max, k).chunks.len() ==> #[trigger] chunk_backed(
                units,
                answers,
                max,
                k,
                i,
            ),
    decreases answers.len(),
{
    let n = answers.len() as int;
    if n > 0 {
        let prev = answers.drop_last();
        lemma_every_chunk_backed(units, prev, max, k);
        let st = run(units, prev, max, k);
        let s2 = run(units, answers, max, k);
        lemma_run_well_formed(units, prev, max, k);
        lemma_chunk_within_budget(st, answers.last(), max, k);
        assert(answers.take(n - 1) =~= prev);
        assert forall|i: int| 0 <= i < s2.chunks.len() implies #[trigger] chunk_backed(
            units,
            answers,
            max,
            k,
            i,
        ) by {
            if i < st.chunks.len() {
                assert(s2.chunks[i] == st.chunks[i]) by {
                    if s2.chunks != st.chunks {
                        assert(s2.chunks.drop_last()[i] == s2.chunks[i]);
                    }
                }
                assert(chunk_backed(units, prev, max, k, i));
                let j = choose|j: int|
                    0 <= j < prev.len() && #[trigger] backed_by(
                        run(units, prev.take(j), max, k),
                        prev[j],
                        max,
                        st.chunks[i],
                    );
                assert(prev.take(j) =~= answers.take(j));
                assert(prev[j] == answers[j]);
                assert(backed_by(
                    run(units, answers.take(j), max, k),
                    answers[j],
                    max,
                    s2.chunks[i],
                ));
            } else {
                assert(backed_by(
                    run(units, answers.take(n - 1), max, k),
                    answers[n - 1],
                    max,
                    s2.chunks[i],
                ));
            }
        }
    }
}

/// The texts of the units, without their paragraph marks.
pub open spec fn unit_text_seq(units: Seq<(Seq<char>, bool)>) -> Seq<Seq<char>> {
    units.map_values(|u: (Seq<char>, bool)| u.0)
}

/// The index of the first unit of the paragraph that holds unit `i`.
pub open spec fn paragraph_start(units: Seq<(Seq<char>, bool)>, i: int) -> int
    decreases i,
{
    if i <= 0 {
        0
    } else if units[i].1 {
        i
    } else {
        paragraph_start(units, i - 1)
    }
}

/// Unit `i` with the (at most `k`) units before it in its paragraph.
pub open spec fn context_window(units: Seq<(Seq<char>, bool)>, i: int, k: nat) -> Seq<Seq<char>> {
    let ps = paragraph_start(units, i);
    let lo = if i - k > ps {
        i - k
    } else {
        ps
    };
    unit_text_seq(units).subrange(lo, i + 1)
}

/// One chunk per unit: its context window joined by spaces, trimmed.
pub open spec fn window_chunks(units: Seq<(Seq<char>, bool)>, k: nat) -> Seq<Seq<char>> {
    Seq::new(units.len(), |i: int| trim(join(context_window(units, i, k), space())))
}

/// The packer stands at unit `n` with every earlier window emitted.
spec fn at_unit(units: Seq<(Seq<char>, bool)>, k: nat, st: PackState, n: int) -> bool {
    &&& 0 <= n <= units.len()
    &&& st.chunks == window_chunks(units, k).take(n)
    &&& n < units.len() ==> {
        &&& st.active
        &&& st.pending == units.skip(n + 1)
        &&& st.cur == units[n].0
        &&& st.done == unit_text_seq(units).subrange(paragraph_start(units, n), n)
        &&& st.window == min_nat(k, st.done.len()) + 1
    }
    &&& n == units.len() ==> !st.active
}

proof fn lemma_paragraph_start_bounds(units: Seq<(Seq<char>, bool)>, i: int)
    requires
        0 <= i,
    ensures
        0 <= paragraph_start(units, i) <= i,
    decreases i,
{
    if i > 0 && !units[i].1 {
        lemma_paragraph_start_bounds(units, i - 1);
    }
}

proof fn lemma_at_unit_start(units: Seq<(Seq<char>, bool)>, k: nat)
    ensures
        at_unit(units, k, start(units, k), 0),
{
    let st = start(units, k);
    assert(st.chunks =~= window_chunks(units, k).take(0));
    if units.len() > 0 {
        assert(unit_text_seq(units).subrange(0, 0) =~= st.done);
        assert(units.drop_first() =~= units.skip(1));
    }
}

proof fn lemma_at_unit_step(
    units: Seq<(Seq<char>, bool)>,
    k: nat,
    st: PackState,
    n: int,
    c: nat,
    max: nat,
)
    requires
        at_unit(units, k, st, n),
        n < units.len(),
        c <= max,
    ensures
        at_unit(units, k, step(st, c, max, k), n + 1),
{
    let ts = unit_text_seq(units);
    let ps = paragraph_start(units, n);
    lemma_paragraph_start_bounds(units, n);
    let cw = context_window(units, n, k);
    assert(window_of(st) =~= cw);
    let ch = trim(query_text(st));
    assert(ch == window_chunks(units, k)[n]);
    let s1 = emit(st, ch);
    assert(s1.chunks =~= window_chunks(units, k).take(n + 1));
    let s2 = PackState { done: s1.done.push(s1.cur), ..s1 };
    assert(s2.done =~= ts.subrange(ps, n + 1));
    assert(finish(s1, Seq::empty(), k) == advance(s2, k));
    if n + 1 < units.len() {
        assert(s2.pending[0] == units[n + 1]);
        assert(s2.pending.drop_first() =~= units.skip(n + 2));
        if units[n + 1].1 {
            assert(ts.subrange(n + 1, n + 1) =~= Seq::<Seq<char>>::empty());
        }
    }
}

proof fn lemma_run_unbounded(units: Seq<(Seq<char>, bool)>, answers: Seq<nat>, k: nat)
    requires
        forall|i: int| 0 <= i < answers.len() ==> answers[i] <= usize::MAX,
    ensures
        at_unit(
            units,
            k,
            run(units, answers, usize::MAX as nat, k),
            min_nat(answers.len(), units.len()) as int,
        ),
    decreases answers.len(),
{
    if answers.len() == 0 {
        lemma_at_unit_start(units, k);
    } else {
        let prev = answers.drop_last();
        lemma_run_unbounded(units, prev, k);
        let st = run(units, prev, usize::MAX as nat, k);
        let n = min_nat(prev.len(), units.len()) as int;
        if n < units.len() {
            lemma_at_unit_step(units, k, st, n, answers.last(), usize::MAX as nat);
        }
    }
}

/// With a budget that no count exceeds (`usize::MAX`), the packer emits one
/// chunk per sentence: the sentence with up to `k` sentences before it in
/// its paragraph, joined by spaces and trimmed.
pub proof fn lemma_unbounded_windows(units: Seq<(Seq<char>, bool)>, answers: Seq<nat>, k: nat)
    requires
        forall|i: int| 0 <= i < answers.len() ==> answers[i] <= usize::MAX,
        !run(units, answers, usize::MAX as nat, k).active,
    ensures
        run(units, answers, usize::MAX as nat, k).chunks == window_chunks(units, k),
{
    lemma_run_unbounded(units, answers, k);
    assert(window_chunks(units, k).take(units.len() as int) =~= window_chunks(units, k));
}

/// The trimmed sentences of a paragraph, the first marked as opening it.
pub open spec fn paragraph_units(p: Seq<char>) -> Seq<(Seq<char>, bool)> {
    sentences_of(p).map(|i: int, s: Seq<char>| (trim(s), i == 0))
}

/// The sentences of the paragraphs, in order, each first one marked.
pub open spec fn units_of(ps: Seq<Seq<char>>) -> Seq<(Seq<char>, bool)>
    decreases ps.len(),
{
    if ps.len() == 0 {
        Seq::empty()
    } else {
        units_of(ps.drop_last()) + paragraph_units(ps.last())
    }
}

/// The sentences that the token-counting policy packs.
pub open spec fn document_units(t: Seq<char>) -> Seq<(Seq<char>, bool)> {
    units_of(paragraphs(t))
}

/// A packer: the executable counterpart of `PackState`.
pub struct Packer {
    units: Vec<(Vec<char>, bool)>,
    next: usize,
    done: Vec<Vec<char>>,
    cur: Vec<char>,
    words: Vec<Vec<char>>,
    in_window: bool,
    ctx: usize,
    taken: usize,
    used: usize,
    counts: Ghost<Seq<nat>>,
    chunks: Vec<Vec<char>>,
    active: bool,
    max_tokens: usize,
    context: usize,
}

/// The texts of a vector of character vectors.
pub open spec fn texts(v: Seq<Vec<char>>) -> Seq<Seq<char>> {
    v.map_values(|x: Vec<char>| x@)
}

/// The texts of a vector of sentences with their paragraph marks.
pub open spec fn unit_texts(v: Seq<(Vec<char>, bool)>) -> Seq<(Seq<char>, bool)> {
    v.map_values(|u: (Vec<char>, bool)| (u.0@, u.1))
}

impl View for Packer {
    type V = PackState;

    closed spec fn view(&self) -> PackState {
        PackState {
            pending: unit_texts(self.units@).skip(self.next as int),
            done: texts(self.done@),
            cur: self.cur@,
            words: texts(self.words@),
            window: if self.in_window {
                (self.ctx + 1) as nat
            } else {
                0
            },
            counts: self.counts@,
            chunks: texts(self.chunks@),
            active: self.active,
        }
    }
}

impl Packer {
    /// The token budget of each chunk.
    pub closed spec fn budget(&self) -> nat {
        self.max_tokens as nat
    }

    /// The number of preceding sentences carried as context.
    pub closed spec fn context(&self) -> nat {
        self.context as nat
    }

    /// The packer's own bookkeeping agrees with its model.
    pub closed spec fn inv(&self) -> bool {
        &&& self.next <= self.units.len()
        &&& self.taken == self.counts@.len()
        &&& self.used == sum(self.counts@)
        &&& well_formed(self@, self.max_tokens as nat)
    }

    /// The packer's model is well formed.
    pub proof fn lemma_well_formed(&self)
        requires
            self.inv(),
        ensures
            well_formed(self@, self.budget()),
    {
    }

    /// A packer over the given sentences, each with whether it opens a
    /// paragraph.
    pub fn new(units: Vec<(Vec<char>, bool)>, max_tokens: usize, context_sentences: usize) -> (r:
        Packer)
        ensures
            r.inv(),
            r@ == start(unit_texts(units@), context_sentences as nat),
            r.budget() == max_tokens,
            r.context() == context_sentences,
    {
        let mut p = Packer {
            units,
            next: 0,
            done: Vec::new(),
            cur: Vec::new(),
            words: Vec::new(),
            in_window: false,
            ctx: 0,
            taken: 0,
            used: 0,
            counts: Ghost(Seq::empty()),
            chunks: Vec::new(),
            active: false,
            max_tokens,
            context: context_sentences,
        };
        proof {
            assert(p@.pending =~= unit_texts(p.units@));
            assert(p@.done =~= Seq::<Seq<char>>::empty());
            assert(p@.words =~= Seq::<Seq<char>>::empty());
            assert(p@.chunks =~= Seq::<Seq<char>>::empty());
        }
        p.advance();
        p
    }

    /// A packer over the sentences of the paragraphs of `text`.
    pub fn for_text(text: &str, max_tokens: usize, context_sentences: usize) -> (r: Packer)
        ensures
            r.inv(),
            r@ == start(document_units(text@), context_sentences as nat),
            r.budget() == max_tokens,
            r.context() == context_sentences,
    {
        let chars = chars_of(text);
        let units = sentence_units(&chars);
        Packer::new(units, max_tokens, context_sentences)
    }

    /// Whether a question is pending.
    pub fn is_active(&self) -> (r: bool)
        ensures
            r == self@.active,
    {
        self.active
    }

    /// Takes up a unit with the given text and words.
    fn begin(&mut self, text: Vec<char>, words: Vec<Vec<char>>, opens: bool)
        requires
            old(self).next <= old(self).units.len(),
        ensures
            final(self)@ == begin(
                old(self)@,
                text@,
                texts(words@),
                opens,
                old(self).context as nat,
            ),
            final(self).inv(),
            final(self).units == old(self).units,
            final(self).next == old(self).next,
            final(self).max_tokens == old(self).max_tokens,
            final(self).context == old(self).context,
    {
        if opens {
            self.done = Vec::new();
        }
        let n = self.done.len();
        self.ctx = if self.context < n {
            self.context
        } else {
            n
        };
        self.in_window = true;
        self.cur = text;
        self.words = words;
        self.taken = 0;
        self.used = 0;
        self.counts = Ghost(Seq::empty());
        self.active = true;
        proof {
            if opens {
                assert(texts(self.done@) =~= Seq::<Seq<char>>::empty());
            }
            lemma_begin_well_formed(
                old(self)@,
                text@,
                texts(words@),
                opens,
                self.context as nat,
                self.max_tokens as nat,
            );
        }
    }

    /// Takes up the next pending sentence, or stops.
    fn advance(&mut self)
        requires
            old(self).next <= old(self).units.len(),
        ensures
            final(self)@ == advance(old(self)@, old(self).context as nat),
            final(self).inv(),
            final(self).units == old(self).units,
            final(self).max_tokens == old(self).max_tokens,
            final(self).context == old(self).context,
    {
        if self.next < self.units.len() {
            let i = self.next;
            let text = copy_range(&self.units[i].0, 0, self.units[i].0.len());
            let opens = self.units[i].1;
            let words = unicode_words(&text);
            self.next = i + 1;
            proof {
                assert(text@ =~= self.units@[i as int].0@);
                assert(unit_texts(self.units@).skip(i + 1) =~= unit_texts(self.units@).skip(
                    i as int,
                ).drop_first());
            }
            self.begin(text, words, opens);
        } else {
            self.words = Vec::new();
            self.in_window = false;
            self.ctx = 0;
            self.taken = 0;
            self.used = 0;
            self.counts = Ghost(Seq::empty());
            self.active = false;
            proof {
                assert(texts(self.words@) =~= Seq::<Seq<char>>::empty());
            }
        }
    }

    /// Closes the unit in hand; left-over words become the next unit.
    fn finish(&mut self, rest: Vec<Vec<char>>)
        requires
            old(self).next <= old(self).units.len(),
        ensures
            final(self)@ == finish(old(self)@, texts(rest@), old(self).context as nat),
            final(self).inv(),
            final(self).units == old(self).units,
            final(self).max_tokens == old(self).max_tokens,
            final(self).context == old(self).context,
    {
        let cur = copy_range(&self.cur, 0, self.cur.len());
        let ghost before = self.done@;
        self.done.push(cur);
        proof {
            assert(cur@ =~= self.cur@);
            assert(texts(self.done@) =~= texts(before).push(self.cur@));
        }
        if rest.len() > 0 {
            let sep: Vec<char> = vec![' '];
            proof {
                assert(sep@ =~= space());
            }
            let text = join_chars(&rest, &sep);
            self.begin(text, rest, false);
        } else {
            self.advance();
        }
    }

    /// The text whose token count is asked for next, and whether it is to
    /// be encoded with the special tokens.
    pub fn query(&self) -> (r: (Vec<char>, bool))
        requires
            self.inv(),
            self@.active,
        ensures
            r.0@ == query_text(self@),
            r.1 == query_special(self@),
    {
        if self.in_window {
            let n = self.done.len();
            let from = n - self.ctx;
            let mut win: Vec<Vec<char>> = Vec::new();
            let mut i: usize = from;
            while i < n
                invariant
                    from <= i <= n == self.done.len(),
                    texts(win@) == texts(self.done@).subrange(from as int, i as int),
                decreases n - i,
            {
                let t = copy_range(&self.done[i], 0, self.done[i].len());
                let ghost before = win@;
                win.push(t);
                proof {
                    assert(t@ =~= self.done@[i as int]@);
                    assert(texts(win@) =~= texts(before).push(t@));
                    assert(texts(self.done@).subrange(from as int, i + 1) =~= texts(
                        self.done@,
                    ).subrange(from as int, i as int).push(t@));
                }
                i += 1;
            }
            let c = copy_range(&self.cur, 0, self.cur.len());
            let ghost before = win@;
            win.push(c);
            proof {
                assert(c@ =~= self.cur@);
                assert(texts(win@) =~= texts(before).push(c@));
                assert(texts(self.done@).subrange(from as int, n as int) =~= texts(
                    self.done@,
                ).skip(from as int));
            }
            let sep: Vec<char> = vec![' '];
            proof {
                assert(sep@ =~= space());
            }
            (join_chars(&win, &sep), true)
        } else {
            let taken = self.taken;
            if taken == 0 {
                (copy_range(&self.words[0], 0, self.words[0].len()), false)
            } else {
                let mut q: Vec<char> = vec![' '];
                proof {
                    assert(q@ =~= space());
                }
                push_all(&mut q, &self.words[taken]);
                (q, false)
            }
        }
    }

    /// Adds a chunk to the output.
    fn emit(&mut self, chunk: Vec<char>)
        ensures
            final(self)@ == emit(old(self)@, chunk@),
            final(self).inv() == old(self).inv(),
            final(self).units == old(self).units,
            final(self).next == old(self).next,
            final(self).in_window == old(self).in_window,
            final(self).ctx == old(self).ctx,
            final(self).taken == old(self).taken,
            final(self).used == old(self).used,
            final(self).words == old(self).words,
            final(self).max_tokens == old(self).max_tokens,
            final(self).context == old(self).context,
    {
        let ghost before = self.chunks@;
        self.chunks.push(chunk);
        proof {
            assert(texts(self.chunks@) =~= texts(before).push(chunk@));
        }
    }

    /// Hands the packer the token count of the text it asked for.
    pub fn feed(&mut self, count: usize)
        requires
            old(self).inv(),
            old(self)@.active,
        ensures
            final(self).inv(),
            final(self)@ == step(old(self)@, count as nat, old(self).budget(), old(self).context()),
            final(self).budget() == old(self).budget(),
            final(self).context() == old(self).context(),
    {
        let max = self.max_tokens;
        let sep: Vec<char> = vec![' '];
        proof {
            assert(sep@ =~= space());
        }
        if self.in_window {
            if count <= max {
                let (q, _) = self.query();
                let chunk = trim_chars(&q);
                self.emit(chunk);
                let none: Vec<Vec<char>> = Vec::new();
                proof {
                    assert(texts(none@) =~= Seq::<Seq<char>>::empty());
                }
                self.finish(none);
            } else if self.ctx > 0 {
                self.ctx = self.ctx - 1;
            } else if self.words.len() == 0 {
                let none: Vec<Vec<char>> = Vec::new();
                proof {
                    assert(texts(none@) =~= Seq::<Seq<char>>::empty());
                }
                self.finish(none);
            } else {
                proof {
                    assert(self.counts@ =~= Seq::<nat>::empty());
                }
                self.in_window = false;
            }
        } else {
            let taken = self.taken;
            proof {
                assert(taken < texts(self.words@).len());
                assert(texts(self.words@).len() == self.words@.len());
                assert(taken < self.words.len());
            }
            if count > max || count > max - self.used {
                let n: usize = if taken == 0 {
                    1
                } else {
                    taken
                };
                let head = copy_texts(&self.words, 0, n);
                let rest = copy_texts(&self.words, n, self.words.len());
                proof {
                    assert(texts(self.words@).subrange(0, n as int) =~= texts(self.words@).take(
                        n as int,
                    ));
                    assert(texts(self.words@).subrange(n as int, self.words@.len() as int)
                        =~= texts(self.words@).skip(n as int));
                }
                let joined = join_chars(&head, &sep);
                let chunk = trim_chars(&joined);
                self.emit(chunk);
                self.finish(rest);
            } else if taken + 1 == self.words.len() {
                self.used = self.used + count;
                self.taken = taken + 1;
                let ghost before = self.counts@;
                self.counts = Ghost(self.counts@.push(count as nat));
                proof {
                    assert(self.counts@.drop_last() =~= before);
                }
                let joined = join_chars(&self.words, &sep);
                let chunk = trim_chars(&joined);
                self.emit(chunk);
                let none: Vec<Vec<char>> = Vec::new();
                proof {
                    assert(texts(none@) =~= Seq::<Seq<char>>::empty());
                }
                self.finish(none);
            } else {
                self.used = self.used + count;
                self.taken = taken + 1;
                let ghost before = self.counts@;
                self.counts = Ghost(self.counts@.push(count as nat));
                proof {
                    assert(self.counts@.drop_last() =~= before);
                }
            }
        }
    }

    /// The chunks emitted so far.
    pub fn chunks(&self) -> (r: Vec<String>)
        ensures
            r@.map_values(|x: String| x@) == self@.chunks,
    {
        let mut r: Vec<String> = Vec::new();
        let mut i: usize = 0;
        while i < self.chunks.len()
            invariant
                i <= self.chunks.len(),
                r@.map_values(|x: String| x@) == texts(self.chunks@).take(i as int),
            decreases self.chunks.len() - i,
        {
            let ghost before = r@;
            let s = string_of(&self.chunks[i]);
            r.push(s);
            proof {
                assert(r@.map_values(|x: String| x@) =~= before.map_values(|x: String| x@).push(
                    s@,
                ));
                assert(texts(self.chunks@).take(i + 1) =~= texts(self.chunks@).take(i as int).push(
                    s@,
                ));
            }
            i += 1;
        }
        proof {
            assert(texts(self.chunks@).take(i as int) =~= texts(self.chunks@));
        }
        r
    }
}

/// The sentences of the text's paragraphs, trimmed, each with whether it
/// opens its paragraph.
fn sentence_units(v: &Vec<char>) -> (r: Vec<(Vec<char>, bool)>)
    ensures
        unit_texts(r@) == document_units(v@),
{
    let paras = split_paragraphs(v);
    let ghost ps = texts(paras@);
    let mut r: Vec<(Vec<char>, bool)> = Vec::new();
    let mut i: usize = 0;
    while i < paras.len()
        invariant
            i <= paras.len(),
            ps == texts(paras@),
            ps == paragraphs(v@),
            unit_texts(r@) == units_of(ps.take(i as int)),
        decreases paras.len() - i,
    {
        let sents = unicode_sentences(&paras[i]);
        let ghost base = unit_texts(r@);
        let ghost ss = sentences_of(paras@[i as int]@);
        let mut j: usize = 0;
        while j < sents.len()
            invariant
                i < paras.len(),
                j <= sents.len(),
                texts(sents@) == ss,
                ss == sentences_of(ps[i as int]),
                unit_texts(r@) == base + paragraph_units(ps[i as int]).take(j as int),
            decreases sents.len() - j,
        {
            let t = trim_chars(&sents[j]);
            let ghost before = unit_texts(r@);
            r.push((t, j == 0));
            proof {
                assert(unit_texts(r@) =~= before.push((t@, j == 0)));
                assert(ss[j as int] == sents@[j as int]@);
                assert(paragraph_units(ps[i as int]).take(j + 1) =~= paragraph_units(
                    ps[i as int],
                ).take(j as int).push((t@, j == 0)));
            }
            j += 1;
        }
        proof {
            assert(paragraph_units(ps[i as int]).take(j as int) =~= paragraph_units(
                ps[i as int],
            ));
            assert(ps.take(i + 1).drop_last() =~= ps.take(i as int));
        }
        i += 1;
    }
    proof {
        assert(ps.take(i as int) =~= ps);
    }
    r
}

/// Copies of `v[lo..hi]`.
fn copy_texts(v: &Vec<Vec<char>>, lo: usize, hi: usize) -> (r: Vec<Vec<char>>)
    requires
        lo <= hi <= v.len(),
    ensures
        texts(r@) == texts(v@).subrange(lo as int, hi as int),
{
    let mut r: Vec<Vec<char>> = Vec::new();
    let mut i: usize = lo;
    while i < hi
        invariant
            lo <= i <= hi <= v.len(),
            texts(r@) == texts(v@).subrange(lo as int, i as int),
        decreases hi - i,
    {
        let t = copy_range(&v[i], 0, v[i].len());
        let ghost before = r@;
        r.push(t);
        proof {
            assert(t@ =~= v@[i as int]@);
            assert(texts(r@) =~= texts(before).push(t@));
            assert(texts(v@).subrange(lo as int, i + 1) =~= texts(v@).subrange(
                lo as int,
                i as int,
            ).push(t@));
        }
        i += 1;
    }
    r
}

} // verus!

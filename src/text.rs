//! Character-level text operations: trimming, joining and cutting a
//! document into paragraphs, all over `Vec<char>` with their mathematical
//! counterparts over `Seq<char>`.
use vstd::prelude::*;
use vstd::std_specs::iter::IteratorSpec;

verus! {

/// What `char::is_whitespace` reports for a character (the Unicode
/// `White_Space` property).
pub uninterp spec fn white_space(c: char) -> bool;

/// Relies on `char::is_whitespace`: whether `c` has the `White_Space`
/// property.
#[verifier::external_body]
pub(crate) fn is_white_space(c: char) -> (r: bool)
    ensures
        r == white_space(c),
{
    c.is_whitespace()
}

/// The characters of `s`, in order.
pub(crate) fn chars_of(s: &str) -> (r: Vec<char>)
    ensures
        r@ == s@,
{
    broadcast use vstd::string::axiom_spec_iter, vstd::string::next_postcondition;

    let mut it = s.chars();
    let mut r: Vec<char> = Vec::new();
    loop
        invariant
            it.obeys_prophetic_iter_laws(),
            it.decrease() is Some,
            r@ + it.remaining() == s@,
        ensures
            r@ == s@,
        decreases it.decrease()->0,
    {
        match it.next() {
            Some(c) => {
                r.push(c);
                proof {
                    assert(r@ + it.remaining() =~= s@);
                }
            },
            None => {
                proof {
                    assert(r@ =~= s@);
                }
                break ;
            },
        }
    }
    r
}

/// Relies on `FromIterator<char>` for `String`: the string made of the
/// characters of `v`, in order.
#[verifier::external_body]
pub(crate) fn string_of(v: &Vec<char>) -> (r: String)
    ensures
        r@ == v@,
{
    v.iter().collect()
}

/// `s` without its leading whitespace.
pub open spec fn trim_start(s: Seq<char>) -> Seq<char>
    decreases s.len(),
{
    if s.len() > 0 && white_space(s[0]) {
        trim_start(s.drop_first())
    } else {
        s
    }
}

/// `s` without its trailing whitespace.
pub open spec fn trim_end(s: Seq<char>) -> Seq<char>
    decreases s.len(),
{
    if s.len() > 0 && white_space(s.last()) {
        trim_end(s.drop_last())
    } else {
        s
    }
}

/// `s` without leading and trailing whitespace, as `str::trim` gives it.
pub open spec fn trim(s: Seq<char>) -> Seq<char> {
    trim_end(trim_start(s))
}

/// The parts joined, with `sep` between each two neighbours.
pub open spec fn join(parts: Seq<Seq<char>>, sep: Seq<char>) -> Seq<char>
    decreases parts.len(),
{
    if parts.len() == 0 {
        Seq::empty()
    } else if parts.len() == 1 {
        parts[0]
    } else {
        join(parts.drop_last(), sep) + sep + parts.last()
    }
}

/// The one-character separator placed between sentences and words.
pub open spec fn space() -> Seq<char> {
    seq![' ']
}

/// Whether a paragraph break (two line feeds or more) starts at index `i`
/// of `s`.
pub open spec fn break_at(s: Seq<char>, i: int) -> bool {
    0 <= i && i + 1 < s.len() && s[i] == '\n' && s[i + 1] == '\n'
}

/// The pieces of `s[start..]` cut at each paragraph break, scanning from
/// `i` on and taking the leftmost break first. A break is a maximal run of
/// two or more line feeds, and the run counts as one break.
pub open spec fn pieces_from(s: Seq<char>, start: int, i: int) -> Seq<Seq<char>>
    decreases s.len() - i, 0int,
{
    if i + 1 >= s.len() || start > i || start < 0 {
        seq![s.subrange(start, s.len() as int)]
    } else if break_at(s, i) {
        seq![s.subrange(start, i)] + pieces_after(s, i + 2)
    } else {
        pieces_from(s, start, i + 1)
    }
}

/// The pieces after a break whose line feeds run on from index `j`.
pub open spec fn pieces_after(s: Seq<char>, j: int) -> Seq<Seq<char>>
    decreases s.len() - j, 1int,
{
    if 0 <= j < s.len() && s[j] == '\n' {
        pieces_after(s, j + 1)
    } else {
        pieces_from(s, j, j)
    }
}

/// The paragraphs of `s`: the pieces between its paragraph breaks, empty
/// ones included.
pub open spec fn paragraphs(s: Seq<char>) -> Seq<Seq<char>> {
    pieces_from(s, 0, 0)
}

/// The breaks of `s[start..]`, scanning from `i` on, as `pieces_from` finds
/// them: each the whole run of line feeds.
pub open spec fn breaks_from(s: Seq<char>, start: int, i: int) -> Seq<Seq<char>>
    decreases s.len() - i, 0int,
{
    if i + 1 >= s.len() || start > i || start < 0 {
        Seq::empty()
    } else if break_at(s, i) {
        breaks_after(s, i, i + 2)
    } else {
        breaks_from(s, start, i + 1)
    }
}

/// The breaks from the one that starts at `b`, whose run goes on from `j`.
pub open spec fn breaks_after(s: Seq<char>, b: int, j: int) -> Seq<Seq<char>>
    decreases s.len() - j, 1int,
{
    if 0 <= j < s.len() && s[j] == '\n' {
        breaks_after(s, b, j + 1)
    } else {
        seq![s.subrange(b, j)] + breaks_from(s, j, j)
    }
}

/// The paragraph breaks of `s`, in order.
pub open spec fn paragraph_breaks(s: Seq<char>) -> Seq<Seq<char>> {
    breaks_from(s, 0, 0)
}

/// Whether `t` is a paragraph break: two line feeds or more, nothing else.
pub open spec fn is_break(t: Seq<char>) -> bool {
    t.len() >= 2 && forall|m: int| 0 <= m < t.len() ==> t[m] == '\n'
}

/// The pieces with the separators between them: `ps[0] + seps[0] + ps[1] ...`.
pub open spec fn interleave(ps: Seq<Seq<char>>, seps: Seq<Seq<char>>) -> Seq<char>
    decreases ps.len(),
{
    if ps.len() == 0 {
        Seq::empty()
    } else if ps.len() == 1 {
        ps[0]
    } else {
        ps[0] + seps[0] + interleave(ps.drop_first(), seps.drop_first())
    }
}

proof fn lemma_pieces_from(s: Seq<char>, start: int, i: int)
    requires
        0 <= start <= i <= s.len(),
    ensures
        pieces_from(s, start, i).len() == breaks_from(s, start, i).len() + 1,
        interleave(pieces_from(s, start, i), breaks_from(s, start, i)) == s.subrange(
            start,
            s.len() as int,
        ),
        forall|m: int|
            0 <= m < breaks_from(s, start, i).len() ==> is_break(
                #[trigger] breaks_from(s, start, i)[m],
            ),
    decreases s.len() - i, 0int,
{
    if i + 1 >= s.len() {
    } else if break_at(s, i) {
        lemma_pieces_after(s, i, i + 2);
        let ps = pieces_from(s, start, i);
        let bs = breaks_from(s, start, i);
        let rest = pieces_after(s, i + 2);
        assert(ps.drop_first() =~= rest);
        assert(s.subrange(start, i) + s.subrange(i, s.len() as int) =~= s.subrange(
            start,
            s.len() as int,
        ));
    } else {
        lemma_pieces_from(s, start, i + 1);
    }
}

proof fn lemma_pieces_after(s: Seq<char>, b: int, j: int)
    requires
        0 <= b,
        b + 2 <= j <= s.len(),
        forall|m: int| b <= m < j ==> s[m] == '\n',
    ensures
        pieces_after(s, j).len() == breaks_after(s, b, j).len(),
        breaks_after(s, b, j).len() >= 1,
        breaks_after(s, b, j)[0] + interleave(
            pieces_after(s, j),
            breaks_after(s, b, j).drop_first(),
        ) == s.subrange(b, s.len() as int),
        forall|m: int|
            0 <= m < breaks_after(s, b, j).len() ==> is_break(#[trigger] breaks_after(s, b, j)[m]),
    decreases s.len() - j, 1int,
{
    if 0 <= j < s.len() && s[j] == '\n' {
        lemma_pieces_after(s, b, j + 1);
    } else {
        lemma_pieces_from(s, j, j);
        let bs = breaks_after(s, b, j);
        assert(bs.drop_first() =~= breaks_from(s, j, j));
        assert(bs[0] == s.subrange(b, j));
        assert(s.subrange(b, j) + s.subrange(j, s.len() as int) =~= s.subrange(
            b,
            s.len() as int,
        ));
        assert forall|m: int| 0 <= m < bs.len() implies is_break(#[trigger] bs[m]) by {
            if m > 0 {
                assert(bs[m] == breaks_from(s, j, j)[m - 1]);
            }
        }
    }
}

/// The paragraphs of a text, with the breaks between them, give the text
/// back; each break is a run of two line feeds or more.
pub proof fn lemma_paragraphs_rejoin(s: Seq<char>)
    ensures
        paragraphs(s).len() == paragraph_breaks(s).len() + 1,
        interleave(paragraphs(s), paragraph_breaks(s)) == s,
        forall|m: int|
            0 <= m < paragraph_breaks(s).len() ==> is_break(#[trigger] paragraph_breaks(s)[m]),
{
    lemma_pieces_from(s, 0, 0);
    assert(s.subrange(0, s.len() as int) =~= s);
}

proof fn lemma_trim_start_skip(s: Seq<char>, i: int)
    requires
        0 <= i <= s.len(),
        forall|j: int| 0 <= j < i ==> white_space(#[trigger] s[j]),
        i == s.len() || !white_space(s[i]),
    ensures
        trim_start(s) == s.skip(i),
    decreases i,
{
    if i == 0 {
        assert(s.skip(0) =~= s);
    } else {
        let t = s.drop_first();
        assert forall|j: int| 0 <= j < i - 1 implies white_space(#[trigger] t[j]) by {
            assert(t[j] == s[j + 1]);
        }
        lemma_trim_start_skip(t, i - 1);
        assert(t.skip(i - 1) =~= s.skip(i));
    }
}

proof fn lemma_trim_end_take(s: Seq<char>, k: int)
    requires
        0 <= k <= s.len(),
        forall|j: int| k <= j < s.len() ==> white_space(#[trigger] s[j]),
        k == 0 || !white_space(s[k - 1]),
    ensures
        trim_end(s) == s.take(k),
    decreases s.len() - k,
{
    if k == s.len() {
        assert(s.take(k) =~= s);
    } else {
        let t = s.drop_last();
        lemma_trim_end_take(t, k);
        assert(t.take(k) =~= s.take(k));
    }
}

/// The characters of `v[lo..hi]`.
pub fn copy_range(v: &Vec<char>, lo: usize, hi: usize) -> (r: Vec<char>)
    requires
        lo <= hi <= v.len(),
    ensures
        r@ == v@.subrange(lo as int, hi as int),
{
    let mut r: Vec<char> = Vec::new();
    let mut i: usize = lo;
    while i < hi
        invariant
            lo <= i <= hi <= v.len(),
            r@ == v@.subrange(lo as int, i as int),
        decreases hi - i,
    {
        r.push(v[i]);
        assert(r@ =~= v@.subrange(lo as int, i + 1));
        i += 1;
    }
    r
}

/// Appends the characters of `src` to `dst`.
pub fn push_all(dst: &mut Vec<char>, src: &Vec<char>)
    ensures
        final(dst)@ == old(dst)@ + src@,
{
    let ghost start = dst@;
    let mut i: usize = 0;
    while i < src.len()
        invariant
            i <= src.len(),
            dst@ == start + src@.take(i as int),
        decreases src.len() - i,
    {
        dst.push(src[i]);
        assert(dst@ =~= start + src@.take(i + 1));
        i += 1;
    }
    assert(src@.take(src.len() as int) =~= src@);
}

/// `v` without leading and trailing whitespace.
pub fn trim_chars(v: &Vec<char>) -> (r: Vec<char>)
    ensures
        r@ == trim(v@),
{
    let n = v.len();
    let mut i: usize = 0;
    while i < n && is_white_space(v[i])
        invariant
            i <= n == v.len(),
            forall|j: int| 0 <= j < i ==> white_space(#[trigger] v@[j]),
        decreases n - i,
    {
        i += 1;
    }
    proof {
        lemma_trim_start_skip(v@, i as int);
    }
    let mut k: usize = n;
    while k > i && is_white_space(v[k - 1])
        invariant
            i <= k <= n == v.len(),
            forall|j: int| k <= j < n ==> white_space(#[trigger] v@[j]),
        decreases k,
    {
        k -= 1;
    }
    let ghost t = v@.skip(i as int);
    proof {
        assert forall|j: int| k - i <= j < t.len() implies white_space(#[trigger] t[j]) by {
            assert(t[j] == v@[j + i]);
        }
        if k > i {
            assert(t[k - i - 1] == v@[k - 1]);
        }
        lemma_trim_end_take(t, k - i);
        assert(t.take(k - i) =~= v@.subrange(i as int, k as int));
    }
    copy_range(v, i, k)
}

/// The parts joined with `sep` between each two neighbours.
pub fn join_chars(parts: &Vec<Vec<char>>, sep: &Vec<char>) -> (r: Vec<char>)
    ensures
        r@ == join(parts@.map_values(|p: Vec<char>| p@), sep@),
{
    let ghost ps = parts@.map_values(|p: Vec<char>| p@);
    let mut r: Vec<char> = Vec::new();
    if parts.len() == 0 {
        return r;
    }
    push_all(&mut r, &parts[0]);
    assert(ps.take(1).drop_last() =~= Seq::<Seq<char>>::empty());
    let mut i: usize = 1;
    while i < parts.len()
        invariant
            1 <= i <= parts.len(),
            ps == parts@.map_values(|p: Vec<char>| p@),
            r@ == join(ps.take(i as int), sep@),
        decreases parts.len() - i,
    {
        push_all(&mut r, sep);
        push_all(&mut r, &parts[i]);
        assert(ps.take(i + 1).drop_last() =~= ps.take(i as int));
        assert(ps.take(i + 1).last() == parts@[i as int]@);
        i += 1;
    }
    assert(ps.take(parts.len() as int) =~= ps);
    r
}

/// The paragraphs of `v`: the pieces between its paragraph breaks (runs of
/// two line feeds or more), empty pieces included.
pub fn split_paragraphs(v: &Vec<char>) -> (r: Vec<Vec<char>>)
    ensures
        r@.map_values(|p: Vec<char>| p@) == paragraphs(v@),
{
    let ghost s = v@;
    let n = v.len();
    let mut r: Vec<Vec<char>> = Vec::new();
    let mut start: usize = 0;
    let mut i: usize = 0;
    while i < n && i + 1 < n
        invariant
            s == v@,
            n == v.len(),
            start <= i <= n,
            r@.map_values(|p: Vec<char>| p@) + pieces_from(s, start as int, i as int)
                == paragraphs(s),
        decreases n - i,
    {
        if v[i] == '\n' && v[i + 1] == '\n' {
            let piece = copy_range(v, start, i);
            let ghost before = r@.map_values(|p: Vec<char>| p@);
            let mut j: usize = i + 2;
            while j < n && v[j] == '\n'
                invariant
                    s == v@,
                    n == v.len(),
                    i + 2 <= j <= n,
                    pieces_after(s, j as int) == pieces_after(s, i + 2),
                decreases n - j,
            {
                j += 1;
            }
            r.push(piece);
            assert(r@.map_values(|p: Vec<char>| p@) =~= before.push(piece@));
            assert(before.push(piece@) + pieces_from(s, j as int, j as int) =~= before + (seq![
                piece@,
            ] + pieces_after(s, i + 2)));
            start = j;
            i = j;
        } else {
            i += 1;
        }
    }
    let piece = copy_range(v, start, n);
    let ghost before = r@.map_values(|p: Vec<char>| p@);
    r.push(piece);
    assert(r@.map_values(|p: Vec<char>| p@) =~= before + seq![piece@]);
    r
}

} // verus!

//! The words around each term: for every lower-case word, the words as
//! written that stand up to `window_size` places before it (its left
//! neighbours) and after it (its right neighbours) in the same sentence.

use crate::common::text::views;
use crate::common::{entry_keys, find_key, keys, lemma_position, lemma_push_new, position};
use crate::yake::occurrences_builder::{
    occurrence_views, occurrences_of, occurrences_wf, Occurrences, OccurrencesBuilder,
};
use crate::yake::sentences_builder::{all_wf, sentence_views, Sentence, SentenceView};
use vstd::prelude::*;

verus! {

/// For each term its left and its right neighbours, the terms in the order
/// in which each first got a neighbour.
pub type LeftRightContext = Vec<(String, (Vec<String>, Vec<String>))>;

/// A term's left and right neighbours, as sequences of characters.
pub type Neighbours = (Seq<Seq<char>>, Seq<Seq<char>>);

/// The contexts with their terms and neighbours as character sequences.
pub open spec fn context_views(c: Seq<(String, (Vec<String>, Vec<String>))>) -> Seq<
    (Seq<char>, Neighbours),
> {
    c.map_values(
        |e: (String, (Vec<String>, Vec<String>))| (e.0@, (views(e.1.0@), views(e.1.1@))),
    )
}

/// The contexts after `w` became one more left neighbour of `key`.
pub open spec fn add_left(ctx: Seq<(Seq<char>, Neighbours)>, key: Seq<char>, w: Seq<char>) -> Seq<
    (Seq<char>, Neighbours),
> {
    let p = position(entry_keys(ctx), key);
    if p >= 0 {
        ctx.update(p, (key, (ctx[p].1.0.push(w), ctx[p].1.1)))
    } else {
        ctx.push((key, (seq![w], Seq::empty())))
    }
}

/// The contexts after `w` became one more right neighbour of `key`.
pub open spec fn add_right(ctx: Seq<(Seq<char>, Neighbours)>, key: Seq<char>, w: Seq<char>) -> Seq<
    (Seq<char>, Neighbours),
> {
    let p = position(entry_keys(ctx), key);
    if p >= 0 {
        ctx.update(p, (key, (ctx[p].1.0, ctx[p].1.1.push(w))))
    } else {
        ctx.push((key, (Seq::empty(), seq![w])))
    }
}

/// The contexts after the words at `p` and `j` of a sentence, `p` before
/// `j`, were linked: the earlier word is a left neighbour of the later
/// term, and the later word a right neighbour of the earlier term.
pub open spec fn link(ctx: Seq<(Seq<char>, Neighbours)>, s: SentenceView, p: int, j: int) -> Seq<
    (Seq<char>, Neighbours),
> {
    add_right(add_left(ctx, s.stemmed[j], s.words[p]), s.stemmed[p], s.words[j])
}

/// The first place that is within `window_size` places before `j`.
pub open spec fn window_start(j: int, window_size: int) -> int {
    if j >= window_size {
        j - window_size
    } else {
        0
    }
}

/// The contexts after the word at `j` was linked with the words of its
/// window that stand before `p`, the earliest first.
pub open spec fn after_links(
    ctx: Seq<(Seq<char>, Neighbours)>,
    s: SentenceView,
    j: int,
    p: int,
    window_size: int,
) -> Seq<(Seq<char>, Neighbours)>
    decreases p,
{
    if p <= window_start(j, window_size) || p <= 0 {
        ctx
    } else {
        link(after_links(ctx, s, j, p - 1, window_size), s, p - 1, j)
    }
}

/// The contexts after the first `j` words of a sentence were each linked
/// with the words of their windows.
pub open spec fn after_words(
    ctx: Seq<(Seq<char>, Neighbours)>,
    s: SentenceView,
    j: int,
    window_size: int,
) -> Seq<(Seq<char>, Neighbours)>
    decreases j,
{
    if j <= 0 {
        ctx
    } else {
        after_links(after_words(ctx, s, j - 1, window_size), s, j - 1, j - 1, window_size)
    }
}

/// The contexts that the first `n` sentences give.
pub open spec fn contexts_in(sentences: Seq<SentenceView>, n: int, window_size: int) -> Seq<
    (Seq<char>, Neighbours),
>
    decreases n,
{
    if n <= 0 {
        Seq::empty()
    } else {
        after_words(
            contexts_in(sentences, n - 1, window_size),
            sentences[n - 1],
            sentences[n - 1].words.len() as int,
            window_size,
        )
    }
}

/// The contexts that the sentences give.
pub open spec fn contexts_of(sentences: Seq<SentenceView>, window_size: int) -> Seq<
    (Seq<char>, Neighbours),
> {
    contexts_in(sentences, sentences.len() as int, window_size)
}

/// The contexts are well formed: no term stands twice, and every term that
/// stands there has a neighbour.
pub open spec fn contexts_wf(ctx: Seq<(Seq<char>, Neighbours)>) -> bool {
    &&& entry_keys(ctx).no_duplicates()
    &&& forall|p: int| 0 <= p < ctx.len() ==> (#[trigger] ctx[p]).1.0.len() + ctx[p].1.1.len() >= 1
}

proof fn lemma_add_left_wf(ctx: Seq<(Seq<char>, Neighbours)>, key: Seq<char>, w: Seq<char>)
    requires
        contexts_wf(ctx),
    ensures
        contexts_wf(add_left(ctx, key, w)),
{
    let ks = entry_keys(ctx);
    lemma_position(ks, key);
    let p = position(ks, key);
    let after = add_left(ctx, key, w);
    if p >= 0 {
        assert(ks[p] == key);
        assert(entry_keys(after) =~= ks);
        assert forall|x: int| 0 <= x < after.len() implies (#[trigger] after[x]).1.0.len()
            + after[x].1.1.len() >= 1 by {
            if x != p {
                assert(after[x] == ctx[x]);
            }
        }
    } else {
        assert(entry_keys(after) =~= ks.push(key));
        lemma_push_new(ks, key);
        assert forall|x: int| 0 <= x < after.len() implies (#[trigger] after[x]).1.0.len()
            + after[x].1.1.len() >= 1 by {
            if x < ctx.len() {
                assert(after[x] == ctx[x]);
            }
        }
    }
}

proof fn lemma_add_right_wf(ctx: Seq<(Seq<char>, Neighbours)>, key: Seq<char>, w: Seq<char>)
    requires
        contexts_wf(ctx),
    ensures
        contexts_wf(add_right(ctx, key, w)),
{
    let ks = entry_keys(ctx);
    lemma_position(ks, key);
    let p = position(ks, key);
    let after = add_right(ctx, key, w);
    if p >= 0 {
        assert(ks[p] == key);
        assert(entry_keys(after) =~= ks);
        assert forall|x: int| 0 <= x < after.len() implies (#[trigger] after[x]).1.0.len()
            + after[x].1.1.len() >= 1 by {
            if x != p {
                assert(after[x] == ctx[x]);
            }
        }
    } else {
        assert(entry_keys(after) =~= ks.push(key));
        lemma_push_new(ks, key);
        assert forall|x: int| 0 <= x < after.len() implies (#[trigger] after[x]).1.0.len()
            + after[x].1.1.len() >= 1 by {
            if x < ctx.len() {
                assert(after[x] == ctx[x]);
            }
        }
    }
}

/// Linking two words keeps the contexts well formed.
proof fn lemma_link_wf(ctx: Seq<(Seq<char>, Neighbours)>, s: SentenceView, p: int, j: int)
    requires
        contexts_wf(ctx),
    ensures
        contexts_wf(link(ctx, s, p, j)),
{
    lemma_add_left_wf(ctx, s.stemmed[j], s.words[p]);
    lemma_add_right_wf(add_left(ctx, s.stemmed[j], s.words[p]), s.stemmed[p], s.words[j]);
}

/// Whether `w` stands among the left neighbours of `key`.
pub open spec fn has_left(ctx: Seq<(Seq<char>, Neighbours)>, key: Seq<char>, w: Seq<char>) -> bool {
    exists|p: int, q: int|
        0 <= p < ctx.len() && 0 <= q < ctx[p].1.0.len() && ctx[p].0 == key
            && #[trigger] ctx[p].1.0[q] == w
}

/// Whether `w` stands among the right neighbours of `key`.
pub open spec fn has_right(ctx: Seq<(Seq<char>, Neighbours)>, key: Seq<char>, w: Seq<char>) -> bool {
    exists|p: int, q: int|
        0 <= p < ctx.len() && 0 <= q < ctx[p].1.1.len() && ctx[p].0 == key
            && #[trigger] ctx[p].1.1[q] == w
}

/// Adding a left neighbour loses no neighbour, and the new one stands
/// under its key afterwards.
proof fn lemma_add_left_has(
    ctx: Seq<(Seq<char>, Neighbours)>,
    key: Seq<char>,
    w: Seq<char>,
    key0: Seq<char>,
    w0: Seq<char>,
)
    ensures
        has_left(ctx, key0, w0) ==> has_left(add_left(ctx, key, w), key0, w0),
        has_right(ctx, key0, w0) ==> has_right(add_left(ctx, key, w), key0, w0),
        has_left(add_left(ctx, key, w), key, w),
{
    let ks = entry_keys(ctx);
    lemma_position(ks, key);
    let at = position(ks, key);
    let after = add_left(ctx, key, w);
    if at >= 0 {
        assert(ks[at] == key);
        assert(after[at].0 == key);
        assert(after[at].1.0[ctx[at].1.0.len() as int] == w);
    } else {
        assert(after[ctx.len() as int].0 == key);
        assert(after[ctx.len() as int].1.0[0] == w);
    }
    if has_left(ctx, key0, w0) {
        let (p, q) = choose|p: int, q: int|
            0 <= p < ctx.len() && 0 <= q < ctx[p].1.0.len() && ctx[p].0 == key0
                && #[trigger] ctx[p].1.0[q] == w0;
        if at >= 0 && p == at {
            assert(after[p].1.0[q] == w0);
        } else {
            assert(after[p] == ctx[p]);
            assert(after[p].1.0[q] == w0);
        }
    }
    if has_right(ctx, key0, w0) {
        let (p, q) = choose|p: int, q: int|
            0 <= p < ctx.len() && 0 <= q < ctx[p].1.1.len() && ctx[p].0 == key0
                && #[trigger] ctx[p].1.1[q] == w0;
        if at >= 0 && p == at {
            assert(after[p].1.1[q] == w0);
        } else {
            assert(after[p] == ctx[p]);
            assert(after[p].1.1[q] == w0);
        }
    }
}

/// Adding a right neighbour loses no neighbour, and the new one stands
/// under its key afterwards.
proof fn lemma_add_right_has(
    ctx: Seq<(Seq<char>, Neighbours)>,
    key: Seq<char>,
    w: Seq<char>,
    key0: Seq<char>,
    w0: Seq<char>,
)
    ensures
        has_left(ctx, key0, w0) ==> has_left(add_right(ctx, key, w), key0, w0),
        has_right(ctx, key0, w0) ==> has_right(add_right(ctx, key, w), key0, w0),
        has_right(add_right(ctx, key, w), key, w),
{
    let ks = entry_keys(ctx);
    lemma_position(ks, key);
    let at = position(ks, key);
    let after = add_right(ctx, key, w);
    if at >= 0 {
        assert(ks[at] == key);
        assert(after[at].0 == key);
        assert(after[at].1.1[ctx[at].1.1.len() as int] == w);
    } else {
        assert(after[ctx.len() as int].0 == key);
        assert(after[ctx.len() as int].1.1[0] == w);
    }
    if has_left(ctx, key0, w0) {
        let (p, q) = choose|p: int, q: int|
            0 <= p < ctx.len() && 0 <= q < ctx[p].1.0.len() && ctx[p].0 == key0
                && #[trigger] ctx[p].1.0[q] == w0;
        if at >= 0 && p == at {
            assert(after[p].1.0[q] == w0);
        } else {
            assert(after[p] == ctx[p]);
            assert(after[p].1.0[q] == w0);
        }
    }
    if has_right(ctx, key0, w0) {
        let (p, q) = choose|p: int, q: int|
            0 <= p < ctx.len() && 0 <= q < ctx[p].1.1.len() && ctx[p].0 == key0
                && #[trigger] ctx[p].1.1[q] == w0;
        if at >= 0 && p == at {
            assert(after[p].1.1[q] == w0);
        } else {
            assert(after[p] == ctx[p]);
            assert(after[p].1.1[q] == w0);
        }
    }
}

/// Whether the word at `p` has been made a left neighbour of the term at
/// `j`, and the word at `j` a right neighbour of the term at `p`.
pub open spec fn linked(ctx: Seq<(Seq<char>, Neighbours)>, s: SentenceView, p: int, j: int) -> bool {
    has_left(ctx, s.stemmed[j], s.words[p]) && has_right(ctx, s.stemmed[p], s.words[j])
}

/// Linking two words keeps every link, and links the two.
proof fn lemma_link_has(
    ctx: Seq<(Seq<char>, Neighbours)>,
    s: SentenceView,
    p: int,
    j: int,
    t: SentenceView,
    p0: int,
    j0: int,
)
    ensures
        linked(ctx, t, p0, j0) ==> linked(link(ctx, s, p, j), t, p0, j0),
        linked(link(ctx, s, p, j), s, p, j),
{
    let mid = add_left(ctx, s.stemmed[j], s.words[p]);
    lemma_add_left_has(ctx, s.stemmed[j], s.words[p], t.stemmed[j0], t.words[p0]);
    lemma_add_left_has(ctx, s.stemmed[j], s.words[p], t.stemmed[p0], t.words[j0]);
    lemma_add_right_has(mid, s.stemmed[p], s.words[j], t.stemmed[j0], t.words[p0]);
    lemma_add_right_has(mid, s.stemmed[p], s.words[j], t.stemmed[p0], t.words[j0]);
    lemma_add_right_has(mid, s.stemmed[p], s.words[j], s.stemmed[j], s.words[p]);
}

/// Linking the word at `j` with more words of its window keeps every link.
proof fn lemma_after_links_keeps(
    ctx: Seq<(Seq<char>, Neighbours)>,
    s: SentenceView,
    j: int,
    p: int,
    window_size: int,
    t: SentenceView,
    p0: int,
    j0: int,
)
    requires
        linked(ctx, t, p0, j0),
    ensures
        linked(after_links(ctx, s, j, p, window_size), t, p0, j0),
    decreases p,
{
    if !(p <= window_start(j, window_size) || p <= 0) {
        lemma_after_links_keeps(ctx, s, j, p - 1, window_size, t, p0, j0);
        lemma_link_has(after_links(ctx, s, j, p - 1, window_size), s, p - 1, j, t, p0, j0);
    }
}

/// The word at `j` is linked with every word of its window before `p`.
proof fn lemma_after_links_has(
    ctx: Seq<(Seq<char>, Neighbours)>,
    s: SentenceView,
    j: int,
    p: int,
    window_size: int,
    p0: int,
)
    requires
        0 <= window_start(j, window_size) <= p0 < p,
    ensures
        linked(after_links(ctx, s, j, p, window_size), s, p0, j),
    decreases p,
{
    let prev = after_links(ctx, s, j, p - 1, window_size);
    if p0 == p - 1 {
        lemma_link_has(prev, s, p - 1, j, s, p0, j);
    } else {
        lemma_after_links_has(ctx, s, j, p - 1, window_size, p0);
        lemma_link_has(prev, s, p - 1, j, s, p0, j);
    }
}

/// Going on through a sentence keeps every link.
proof fn lemma_after_words_keeps(
    ctx: Seq<(Seq<char>, Neighbours)>,
    s: SentenceView,
    j: int,
    window_size: int,
    t: SentenceView,
    p0: int,
    j0: int,
)
    requires
        linked(ctx, t, p0, j0),
    ensures
        linked(after_words(ctx, s, j, window_size), t, p0, j0),
    decreases j,
{
    if j > 0 {
        lemma_after_words_keeps(ctx, s, j - 1, window_size, t, p0, j0);
        lemma_after_links_keeps(
            after_words(ctx, s, j - 1, window_size),
            s,
            j - 1,
            j - 1,
            window_size,
            t,
            p0,
            j0,
        );
    }
}

/// Every word before `j` is linked with the words of its window.
proof fn lemma_after_words_has(
    ctx: Seq<(Seq<char>, Neighbours)>,
    s: SentenceView,
    j: int,
    window_size: int,
    p0: int,
    j0: int,
)
    requires
        0 <= p0 < j0 < j,
        j0 - p0 <= window_size,
    ensures
        linked(after_words(ctx, s, j, window_size), s, p0, j0),
    decreases j,
{
    let prev = after_words(ctx, s, j - 1, window_size);
    if j0 == j - 1 {
        lemma_after_links_has(prev, s, j0, j0, window_size, p0);
    } else {
        lemma_after_words_has(ctx, s, j - 1, window_size, p0, j0);
        lemma_after_links_keeps(prev, s, j - 1, j - 1, window_size, s, p0, j0);
    }
}

/// Nothing is left out: of two words of a sentence that stand at most
/// `window_size` places apart, the earlier is a left neighbour of the
/// later term, and the later a right neighbour of the earlier term.
pub proof fn lemma_contexts_complete(
    sentences: Seq<SentenceView>,
    n: int,
    window_size: int,
    i0: int,
    p0: int,
    j0: int,
)
    requires
        0 <= i0 < n <= sentences.len(),
        0 <= p0 < j0 < sentences[i0].words.len(),
        j0 - p0 <= window_size,
    ensures
        linked(contexts_in(sentences, n, window_size), sentences[i0], p0, j0),
    decreases n,
{
    let s = sentences[n - 1];
    let prev = contexts_in(sentences, n - 1, window_size);
    if i0 == n - 1 {
        lemma_after_words_has(prev, s, s.words.len() as int, window_size, p0, j0);
    } else {
        lemma_contexts_complete(sentences, n - 1, window_size, i0, p0, j0);
        lemma_after_words_keeps(
            prev,
            s,
            s.words.len() as int,
            window_size,
            sentences[i0],
            p0,
            j0,
        );
    }
}

/// Whether `p` and `j` are places of sentence `i`, `p` before `j` and at
/// most `window_size` places apart.
pub open spec fn is_link(
    sentences: Seq<SentenceView>,
    window_size: int,
    i: int,
    p: int,
    j: int,
) -> bool {
    &&& 0 <= i < sentences.len()
    &&& 0 <= p < j < sentences[i].words.len()
    &&& j - p <= window_size
}

/// Whether `w` is the word at `p` and `key` the term at `j` of a link.
pub open spec fn is_left_of(
    sentences: Seq<SentenceView>,
    window_size: int,
    i: int,
    p: int,
    j: int,
    key: Seq<char>,
    w: Seq<char>,
) -> bool {
    is_link(sentences, window_size, i, p, j) && sentences[i].stemmed[j] == key
        && sentences[i].words[p] == w
}

/// Whether `w` is the word at `j` and `key` the term at `p` of a link.
pub open spec fn is_right_of(
    sentences: Seq<SentenceView>,
    window_size: int,
    i: int,
    p: int,
    j: int,
    key: Seq<char>,
    w: Seq<char>,
) -> bool {
    is_link(sentences, window_size, i, p, j) && sentences[i].stemmed[p] == key
        && sentences[i].words[j] == w
}

/// Whether `w` stands up to `window_size` places before the term `key`
/// somewhere in the sentences.
pub open spec fn stands_left(
    sentences: Seq<SentenceView>,
    window_size: int,
    key: Seq<char>,
    w: Seq<char>,
) -> bool {
    exists|i: int, p: int, j: int| #[trigger] is_left_of(sentences, window_size, i, p, j, key, w)
}

/// Whether `w` stands up to `window_size` places after the term `key`
/// somewhere in the sentences.
pub open spec fn stands_right(
    sentences: Seq<SentenceView>,
    window_size: int,
    key: Seq<char>,
    w: Seq<char>,
) -> bool {
    exists|i: int, p: int, j: int| #[trigger] is_right_of(sentences, window_size, i, p, j, key, w)
}

/// Whether every neighbour in the contexts stands next to its term in the
/// sentences.
pub open spec fn all_from_links(
    ctx: Seq<(Seq<char>, Neighbours)>,
    sentences: Seq<SentenceView>,
    window_size: int,
) -> bool {
    &&& forall|x: int, q: int|
        0 <= x < ctx.len() && 0 <= q < ctx[x].1.0.len() ==> stands_left(
            sentences,
            window_size,
            ctx[x].0,
            #[trigger] ctx[x].1.0[q],
        )
    &&& forall|x: int, q: int|
        0 <= x < ctx.len() && 0 <= q < ctx[x].1.1.len() ==> stands_right(
            sentences,
            window_size,
            ctx[x].0,
            #[trigger] ctx[x].1.1[q],
        )
}

proof fn lemma_add_left_sound(
    ctx: Seq<(Seq<char>, Neighbours)>,
    sentences: Seq<SentenceView>,
    window_size: int,
    key: Seq<char>,
    w: Seq<char>,
)
    requires
        all_from_links(ctx, sentences, window_size),
        stands_left(sentences, window_size, key, w),
    ensures
        all_from_links(add_left(ctx, key, w), sentences, window_size),
{
    let ks = entry_keys(ctx);
    lemma_position(ks, key);
    let at = position(ks, key);
    let after = add_left(ctx, key, w);
    assert forall|x: int, q: int| 0 <= x < after.len() && 0 <= q < after[x].1.0.len() implies stands_left(
        sentences,
        window_size,
        after[x].0,
        #[trigger] after[x].1.0[q],
    ) by {
        if at >= 0 && x == at {
            assert(ks[at] == key);
            if q < ctx[x].1.0.len() {
                assert(after[x].1.0[q] == ctx[x].1.0[q]);
            }
        } else if x < ctx.len() {
            assert(after[x] == ctx[x]);
            assert(stands_left(sentences, window_size, ctx[x].0, ctx[x].1.0[q]));
        }
    }
    assert forall|x: int, q: int| 0 <= x < after.len() && 0 <= q < after[x].1.1.len() implies stands_right(
        sentences,
        window_size,
        after[x].0,
        #[trigger] after[x].1.1[q],
    ) by {
        if at >= 0 && x == at {
            assert(ks[at] == key);
            assert(after[x].1.1[q] == ctx[x].1.1[q]);
        } else if x < ctx.len() {
            assert(after[x] == ctx[x]);
            assert(stands_right(sentences, window_size, ctx[x].0, ctx[x].1.1[q]));
        }
    }
}

proof fn lemma_add_right_sound(
    ctx: Seq<(Seq<char>, Neighbours)>,
    sentences: Seq<SentenceView>,
    window_size: int,
    key: Seq<char>,
    w: Seq<char>,
)
    requires
        all_from_links(ctx, sentences, window_size),
        stands_right(sentences, window_size, key, w),
    ensures
        all_from_links(add_right(ctx, key, w), sentences, window_size),
{
    let ks = entry_keys(ctx);
    lemma_position(ks, key);
    let at = position(ks, key);
    let after = add_right(ctx, key, w);
    assert forall|x: int, q: int| 0 <= x < after.len() && 0 <= q < after[x].1.0.len() implies stands_left(
        sentences,
        window_size,
        after[x].0,
        #[trigger] after[x].1.0[q],
    ) by {
        if at >= 0 && x == at {
            assert(ks[at] == key);
            assert(after[x].1.0[q] == ctx[x].1.0[q]);
        } else if x < ctx.len() {
            assert(after[x] == ctx[x]);
            assert(stands_left(sentences, window_size, ctx[x].0, ctx[x].1.0[q]));
        }
    }
    assert forall|x: int, q: int| 0 <= x < after.len() && 0 <= q < after[x].1.1.len() implies stands_right(
        sentences,
        window_size,
        after[x].0,
        #[trigger] after[x].1.1[q],
    ) by {
        if at >= 0 && x == at {
            assert(ks[at] == key);
            if q < ctx[x].1.1.len() {
                assert(after[x].1.1[q] == ctx[x].1.1[q]);
            }
        } else if x < ctx.len() {
            assert(after[x] == ctx[x]);
            assert(stands_right(sentences, window_size, ctx[x].0, ctx[x].1.1[q]));
        }
    }
}

/// Linking the word at `j` with the words of its window adds no neighbour
/// that does not stand next to its term.
proof fn lemma_after_links_sound(
    ctx: Seq<(Seq<char>, Neighbours)>,
    sentences: Seq<SentenceView>,
    window_size: int,
    i: int,
    j: int,
    p: int,
)
    requires
        all_from_links(ctx, sentences, window_size),
        0 <= i < sentences.len(),
        0 <= p <= j < sentences[i].words.len(),
        sentences[i].words.len() == sentences[i].stemmed.len(),
    ensures
        all_from_links(after_links(ctx, sentences[i], j, p, window_size), sentences, window_size),
    decreases p,
{
    if !(p <= window_start(j, window_size) || p <= 0) {
        lemma_after_links_sound(ctx, sentences, window_size, i, j, p - 1);
        let s = sentences[i];
        let prev = after_links(ctx, s, j, p - 1, window_size);
        assert(is_left_of(sentences, window_size, i, p - 1, j, s.stemmed[j], s.words[p - 1]));
        assert(is_right_of(sentences, window_size, i, p - 1, j, s.stemmed[p - 1], s.words[j]));
        lemma_add_left_sound(prev, sentences, window_size, s.stemmed[j], s.words[p - 1]);
        lemma_add_right_sound(
            add_left(prev, s.stemmed[j], s.words[p - 1]),
            sentences,
            window_size,
            s.stemmed[p - 1],
            s.words[j],
        );
    }
}

/// Going through a sentence adds no neighbour that does not stand next to
/// its term.
proof fn lemma_after_words_sound(
    ctx: Seq<(Seq<char>, Neighbours)>,
    sentences: Seq<SentenceView>,
    window_size: int,
    i: int,
    j: int,
)
    requires
        all_from_links(ctx, sentences, window_size),
        0 <= i < sentences.len(),
        0 <= j <= sentences[i].words.len(),
        sentences[i].words.len() == sentences[i].stemmed.len(),
    ensures
        all_from_links(after_words(ctx, sentences[i], j, window_size), sentences, window_size),
    decreases j,
{
    if j > 0 {
        lemma_after_words_sound(ctx, sentences, window_size, i, j - 1);
        lemma_after_links_sound(
            after_words(ctx, sentences[i], j - 1, window_size),
            sentences,
            window_size,
            i,
            j - 1,
            j - 1,
        );
    }
}

/// Nothing is made up: every left neighbour of a term stands up to
/// `window_size` places before the term in one of the sentences, and
/// every right neighbour as many places after it. So no word is its own
/// neighbour at one place, and no neighbours reach across sentences.
pub proof fn lemma_contexts_sound(sentences: Seq<SentenceView>, n: int, window_size: int)
    requires
        0 <= n <= sentences.len(),
        forall|i: int|
            0 <= i < sentences.len() ==> (#[trigger] sentences[i]).words.len()
                == sentences[i].stemmed.len(),
    ensures
        all_from_links(contexts_in(sentences, n, window_size), sentences, window_size),
    decreases n,
{
    if n > 0 {
        lemma_contexts_sound(sentences, n - 1, window_size);
        lemma_after_words_sound(
            contexts_in(sentences, n - 1, window_size),
            sentences,
            window_size,
            n - 1,
            sentences[n - 1].words.len() as int,
        );
    }
}

/// How often `w` stands in the list.
pub open spec fn times_among(list: Seq<Seq<char>>, w: Seq<char>) -> int
    decreases list.len(),
{
    if list.len() == 0 {
        0
    } else {
        times_among(list.drop_last(), w) + if list.last() == w {
            1int
        } else {
            0int
        }
    }
}

/// How often `w` stands among the left neighbours of `key`.
pub open spec fn lefts_under(ctx: Seq<(Seq<char>, Neighbours)>, key: Seq<char>, w: Seq<char>) -> int {
    let p = position(entry_keys(ctx), key);
    if p >= 0 {
        times_among(ctx[p].1.0, w)
    } else {
        0
    }
}

/// How often `w` stands among the right neighbours of `key`.
pub open spec fn rights_under(ctx: Seq<(Seq<char>, Neighbours)>, key: Seq<char>, w: Seq<char>) -> int {
    let p = position(entry_keys(ctx), key);
    if p >= 0 {
        times_among(ctx[p].1.1, w)
    } else {
        0
    }
}

/// One if the places `p` and `j` of the sentence are linked, the word at
/// `p` is `w` and the term at `j` is `key`, else zero.
pub open spec fn left_hit(
    s: SentenceView,
    p: int,
    j: int,
    window_size: int,
    key: Seq<char>,
    w: Seq<char>,
) -> int {
    if 0 <= p < j && j - p <= window_size && s.stemmed[j] == key && s.words[p] == w {
        1
    } else {
        0
    }
}

/// One if the places `p` and `j` of the sentence are linked, the word at
/// `j` is `w` and the term at `p` is `key`, else zero.
pub open spec fn right_hit(
    s: SentenceView,
    p: int,
    j: int,
    window_size: int,
    key: Seq<char>,
    w: Seq<char>,
) -> int {
    if 0 <= p < j && j - p <= window_size && s.stemmed[p] == key && s.words[j] == w {
        1
    } else {
        0
    }
}

/// The left hits (or, with `right`, the right hits) of the place `j` with
/// the places before `p`.
pub open spec fn hits_before(
    s: SentenceView,
    j: int,
    p: int,
    window_size: int,
    key: Seq<char>,
    w: Seq<char>,
    right: bool,
) -> int
    decreases p,
{
    if p <= 0 {
        0
    } else {
        hits_before(s, j, p - 1, window_size, key, w, right) + if right {
            right_hit(s, p - 1, j, window_size, key, w)
        } else {
            left_hit(s, p - 1, j, window_size, key, w)
        }
    }
}

/// The hits of the places before `j` of the sentence, each with the places
/// before it.
pub open spec fn hits_in_sentence(
    s: SentenceView,
    j: int,
    window_size: int,
    key: Seq<char>,
    w: Seq<char>,
    right: bool,
) -> int
    decreases j,
{
    if j <= 0 {
        0
    } else {
        hits_in_sentence(s, j - 1, window_size, key, w, right) + hits_before(
            s,
            j - 1,
            j - 1,
            window_size,
            key,
            w,
            right,
        )
    }
}

/// The number of times that `w` stands up to `window_size` places before
/// (or, with `right`, after) the term `key` in the first `n` sentences.
pub open spec fn neighbour_hits(
    sentences: Seq<SentenceView>,
    n: int,
    window_size: int,
    key: Seq<char>,
    w: Seq<char>,
    right: bool,
) -> int
    decreases n,
{
    if n <= 0 {
        0
    } else {
        neighbour_hits(sentences, n - 1, window_size, key, w, right) + hits_in_sentence(
            sentences[n - 1],
            sentences[n - 1].words.len() as int,
            window_size,
            key,
            w,
            right,
        )
    }
}

/// The number of times `w` stands among the neighbours of `key` on the
/// left or, with `right`, on the right.
pub open spec fn neighbours_under(
    ctx: Seq<(Seq<char>, Neighbours)>,
    key: Seq<char>,
    w: Seq<char>,
    right: bool,
) -> int {
    if right {
        rights_under(ctx, key, w)
    } else {
        lefts_under(ctx, key, w)
    }
}

proof fn lemma_add_left_counts(
    ctx: Seq<(Seq<char>, Neighbours)>,
    x: Seq<char>,
    v: Seq<char>,
    key: Seq<char>,
    w: Seq<char>,
)
    requires
        entry_keys(ctx).no_duplicates(),
    ensures
        entry_keys(add_left(ctx, x, v)).no_duplicates(),
        rights_under(add_left(ctx, x, v), key, w) == rights_under(ctx, key, w),
        lefts_under(add_left(ctx, x, v), key, w) == lefts_under(ctx, key, w) + if x == key && v
            == w {
            1int
        } else {
            0int
        },
{
    let ks = entry_keys(ctx);
    let after = add_left(ctx, x, v);
    let ka = entry_keys(after);
    lemma_position(ks, x);
    lemma_position(ks, key);
    let at = position(ks, x);
    assert(Seq::<Seq<char>>::empty().push(v).drop_last() =~= Seq::<Seq<char>>::empty());
    if at >= 0 {
        assert(ks[at] == x);
        assert(ka =~= ks);
        assert(ctx[at].1.0.push(v).drop_last() =~= ctx[at].1.0);
        let q = position(ks, key);
        if q >= 0 && q != at {
            assert(after[q] == ctx[q]);
        }
    } else {
        assert(ka =~= ks.push(x));
        lemma_push_new(ks, x);
        lemma_position(ka, key);
        assert(seq![v].drop_last() =~= Seq::<Seq<char>>::empty());
        let q = position(ks, key);
        if q >= 0 {
            assert(ks[q] == key);
            assert(ka[q] == key);
            assert(after[q] == ctx[q]);
        } else if x == key {
            assert(ka[ks.len() as int] == key);
        } else {
            if ka.contains(key) {
                let y = choose|y: int| 0 <= y < ka.len() && ka[y] == key;
                if y < ks.len() {
                    assert(ks[y] == key);
                }
            }
        }
    }
}

proof fn lemma_add_right_counts(
    ctx: Seq<(Seq<char>, Neighbours)>,
    x: Seq<char>,
    v: Seq<char>,
    key: Seq<char>,
    w: Seq<char>,
)
    requires
        entry_keys(ctx).no_duplicates(),
    ensures
        entry_keys(add_right(ctx, x, v)).no_duplicates(),
        lefts_under(add_right(ctx, x, v), key, w) == lefts_under(ctx, key, w),
        rights_under(add_right(ctx, x, v), key, w) == rights_under(ctx, key, w) + if x == key && v
            == w {
            1int
        } else {
            0int
        },
{
    let ks = entry_keys(ctx);
    let after = add_right(ctx, x, v);
    let ka = entry_keys(after);
    lemma_position(ks, x);
    lemma_position(ks, key);
    let at = position(ks, x);
    assert(Seq::<Seq<char>>::empty().push(v).drop_last() =~= Seq::<Seq<char>>::empty());
    if at >= 0 {
        assert(ks[at] == x);
        assert(ka =~= ks);
        assert(ctx[at].1.1.push(v).drop_last() =~= ctx[at].1.1);
        let q = position(ks, key);
        if q >= 0 && q != at {
            assert(after[q] == ctx[q]);
        }
    } else {
        assert(ka =~= ks.push(x));
        lemma_push_new(ks, x);
        lemma_position(ka, key);
        assert(seq![v].drop_last() =~= Seq::<Seq<char>>::empty());
        let q = position(ks, key);
        if q >= 0 {
            assert(ks[q] == key);
            assert(ka[q] == key);
            assert(after[q] == ctx[q]);
        } else if x == key {
            assert(ka[ks.len() as int] == key);
        } else {
            if ka.contains(key) {
                let y = choose|y: int| 0 <= y < ka.len() && ka[y] == key;
                if y < ks.len() {
                    assert(ks[y] == key);
                }
            }
        }
    }
}

proof fn lemma_hits_before_outside(
    s: SentenceView,
    j: int,
    from: int,
    to: int,
    window_size: int,
    key: Seq<char>,
    w: Seq<char>,
    right: bool,
)
    requires
        0 <= from <= to <= window_start(j, window_size),
    ensures
        hits_before(s, j, to, window_size, key, w, right) == hits_before(
            s,
            j,
            from,
            window_size,
            key,
            w,
            right,
        ),
    decreases to - from,
{
    if from < to {
        lemma_hits_before_outside(s, j, from, to - 1, window_size, key, w, right);
    }
}

proof fn lemma_after_links_counts(
    ctx: Seq<(Seq<char>, Neighbours)>,
    s: SentenceView,
    j: int,
    p: int,
    window_size: int,
    key: Seq<char>,
    w: Seq<char>,
    right: bool,
)
    requires
        entry_keys(ctx).no_duplicates(),
        0 <= window_start(j, window_size) <= p <= j,
    ensures
        entry_keys(after_links(ctx, s, j, p, window_size)).no_duplicates(),
        neighbours_under(after_links(ctx, s, j, p, window_size), key, w, right)
            == neighbours_under(ctx, key, w, right) + hits_before(
            s,
            j,
            p,
            window_size,
            key,
            w,
            right,
        ),
    decreases p,
{
    if p <= window_start(j, window_size) || p <= 0 {
        lemma_hits_before_outside(s, j, 0, p, window_size, key, w, right);
    } else {
        lemma_after_links_counts(ctx, s, j, p - 1, window_size, key, w, right);
        let prev = after_links(ctx, s, j, p - 1, window_size);
        lemma_add_left_counts(prev, s.stemmed[j], s.words[p - 1], key, w);
        lemma_add_right_counts(
            add_left(prev, s.stemmed[j], s.words[p - 1]),
            s.stemmed[p - 1],
            s.words[j],
            key,
            w,
        );
    }
}

proof fn lemma_after_words_counts(
    ctx: Seq<(Seq<char>, Neighbours)>,
    s: SentenceView,
    j: int,
    window_size: int,
    key: Seq<char>,
    w: Seq<char>,
    right: bool,
)
    requires
        entry_keys(ctx).no_duplicates(),
        0 <= window_size,
    ensures
        entry_keys(after_words(ctx, s, j, window_size)).no_duplicates(),
        neighbours_under(after_words(ctx, s, j, window_size), key, w, right) == neighbours_under(
            ctx,
            key,
            w,
            right,
        ) + hits_in_sentence(s, j, window_size, key, w, right),
    decreases j,
{
    if j > 0 {
        lemma_after_words_counts(ctx, s, j - 1, window_size, key, w, right);
        lemma_after_links_counts(
            after_words(ctx, s, j - 1, window_size),
            s,
            j - 1,
            j - 1,
            window_size,
            key,
            w,
            right,
        );
    }
}

/// Nothing is counted twice or left out: a word stands among the left
/// neighbours of a term as often as it stands up to `window_size` places
/// before the term in a sentence, and among its right neighbours as often
/// as it stands as many places after it.
pub proof fn lemma_contexts_count(
    sentences: Seq<SentenceView>,
    n: int,
    window_size: int,
    key: Seq<char>,
    w: Seq<char>,
    right: bool,
)
    requires
        0 <= window_size,
    ensures
        entry_keys(contexts_in(sentences, n, window_size)).no_duplicates(),
        neighbours_under(contexts_in(sentences, n, window_size), key, w, right) == neighbour_hits(
            sentences,
            n,
            window_size,
            key,
            w,
            right,
        ),
    decreases n,
{
    if n > 0 {
        lemma_contexts_count(sentences, n - 1, window_size, key, w, right);
        lemma_after_words_counts(
            contexts_in(sentences, n - 1, window_size),
            sentences[n - 1],
            sentences[n - 1].words.len() as int,
            window_size,
            key,
            w,
            right,
        );
    } else {
        let none = contexts_in(sentences, n, window_size);
        assert(entry_keys(none) =~= Seq::<Seq<char>>::empty());
        lemma_position(entry_keys(none), key);
    }
}

fn push_left(contexts: &mut LeftRightContext, key: &str, w: &str)
    ensures
        context_views(final(contexts)@) == add_left(context_views(old(contexts)@), key@, w@),
{
    let ghost before = context_views(contexts@);
    assert(keys(contexts@) =~= entry_keys(before));
    proof {
        lemma_position(entry_keys(before), key@);
    }
    match find_key(contexts, key) {
        Some(p) => {
            assert(entry_keys(before)[p as int] == key@);
            let ghost list = contexts@[p as int].1.0@;
            contexts[p].1.0.push(w.to_owned());
            assert(views(contexts@[p as int].1.0@) =~= views(list).push(w@));
            assert(context_views(contexts@) =~= before.update(
                p as int,
                (key@, (before[p as int].1.0.push(w@), before[p as int].1.1)),
            ));
        },
        None => {
            let mut left: Vec<String> = Vec::new();
            left.push(w.to_owned());
            assert(views(left@) =~= seq![w@]);
            let right: Vec<String> = Vec::new();
            assert(views(right@) =~= Seq::<Seq<char>>::empty());
            contexts.push((key.to_owned(), (left, right)));
            assert(context_views(contexts@) =~= before.push((key@, (seq![w@], Seq::empty()))));
        },
    }
}

fn push_right(contexts: &mut LeftRightContext, key: &str, w: &str)
    ensures
        context_views(final(contexts)@) == add_right(context_views(old(contexts)@), key@, w@),
{
    let ghost before = context_views(contexts@);
    assert(keys(contexts@) =~= entry_keys(before));
    proof {
        lemma_position(entry_keys(before), key@);
    }
    match find_key(contexts, key) {
        Some(p) => {
            assert(entry_keys(before)[p as int] == key@);
            let ghost list = contexts@[p as int].1.1@;
            contexts[p].1.1.push(w.to_owned());
            assert(views(contexts@[p as int].1.1@) =~= views(list).push(w@));
            assert(context_views(contexts@) =~= before.update(
                p as int,
                (key@, (before[p as int].1.0, before[p as int].1.1.push(w@))),
            ));
        },
        None => {
            let left: Vec<String> = Vec::new();
            assert(views(left@) =~= Seq::<Seq<char>>::empty());
            let mut right: Vec<String> = Vec::new();
            right.push(w.to_owned());
            assert(views(right@) =~= seq![w@]);
            contexts.push((key.to_owned(), (left, right)));
            assert(context_views(contexts@) =~= before.push((key@, (Seq::empty(), seq![w@]))));
        },
    }
}

/// Gathers the left and right neighbours of every term of the sentences.
pub fn build_left_right_context(sentences: &Vec<Sentence>, window_size: usize) -> (r:
    LeftRightContext)
    requires
        all_wf(sentences@),
    ensures
        context_views(r@) == contexts_of(sentence_views(sentences@), window_size as int),
        contexts_wf(context_views(r@)),
{
    let ghost all = sentence_views(sentences@);
    let mut contexts: LeftRightContext = Vec::new();
    proof {
        assert(context_views(contexts@) =~= Seq::empty());
        assert(entry_keys(context_views(contexts@)) =~= Seq::empty());
    }
    let mut i: usize = 0;
    while i < sentences.len()
        invariant
            i <= sentences.len(),
            all_wf(sentences@),
            all == sentence_views(sentences@),
            context_views(contexts@) == contexts_in(all, i as int, window_size as int),
            contexts_wf(context_views(contexts@)),
        decreases sentences.len() - i,
    {
        let sentence = &sentences[i];
        assert(sentence.wf());
        let ghost s = sentence@;
        assert(all[i as int] == s);
        let ghost start = context_views(contexts@);
        let mut j: usize = 0;
        while j < sentence.length
            invariant
                sentence.wf(),
                s == sentence@,
                j <= sentence.length,
                context_views(contexts@) == after_words(start, s, j as int, window_size as int),
                contexts_wf(context_views(contexts@)),
            decreases sentence.length - j,
        {
            let lo: usize = if j >= window_size {
                j - window_size
            } else {
                0
            };
            let ghost row = context_views(contexts@);
            let mut p: usize = lo;
            while p < j
                invariant
                    sentence.wf(),
                    s == sentence@,
                    j < sentence.length,
                    lo == window_start(j as int, window_size as int),
                    lo <= p <= j,
                    context_views(contexts@) == after_links(
                        row,
                        s,
                        j as int,
                        p as int,
                        window_size as int,
                    ),
                    contexts_wf(context_views(contexts@)),
                decreases j - p,
            {
                proof {
                    lemma_link_wf(context_views(contexts@), s, p as int, j as int);
                }
                push_left(&mut contexts, sentence.stemmed[j].as_str(), sentence.words[p].as_str());
                push_right(&mut contexts, sentence.stemmed[p].as_str(), sentence.words[j].as_str());
                p += 1;
            }
            j += 1;
        }
        i += 1;
    }
    contexts
}

/// The gathering of occurrences and neighbours.
pub struct ContextBuilder;

impl ContextBuilder {
    /// Gathers the occurrences of every term and its neighbours.
    pub fn build_context(
        sentences: &Vec<Sentence>,
        window_size: usize,
        punctuation: &Vec<String>,
    ) -> (r: (Occurrences, LeftRightContext))
        requires
            all_wf(sentences@),
        ensures
            occurrence_views(r.0@) == occurrences_of(
                sentence_views(sentences@),
                views(punctuation@),
            ),
            occurrences_wf(
                occurrence_views(r.0@),
                sentence_views(sentences@),
                views(punctuation@),
                sentences.len() as int,
                0,
            ),
            context_views(r.1@) == contexts_of(sentence_views(sentences@), window_size as int),
            contexts_wf(context_views(r.1@)),
    {
        let occurrences = OccurrencesBuilder::build_occurrences(sentences, punctuation);
        let contexts = build_left_right_context(sentences, window_size);
        (occurrences, contexts)
    }
}

} // verus!

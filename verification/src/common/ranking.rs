//! Ranking: entries of a term and its score, ordered by falling score and,
//! among equal scores, by the terms in rising lexicographic order.

use crate::common::text::{chars_of, views};
use vstd::prelude::*;

verus! {

/// Whether `a` stands before `b` in lexicographic order, character by
/// character.
pub open spec fn lex_less(a: Seq<char>, b: Seq<char>) -> bool
    decreases a.len(),
{
    if b.len() == 0 {
        false
    } else if a.len() == 0 {
        true
    } else if a[0] != b[0] {
        a[0] < b[0]
    } else {
        lex_less(a.skip(1), b.skip(1))
    }
}

/// No string stands before itself.
pub proof fn lemma_lex_irreflexive(a: Seq<char>)
    ensures
        !lex_less(a, a),
    decreases a.len(),
{
    if a.len() > 0 {
        lemma_lex_irreflexive(a.skip(1));
    }
}

/// Of two different strings one stands before the other.
pub proof fn lemma_lex_total(a: Seq<char>, b: Seq<char>)
    requires
        !lex_less(a, b),
        !lex_less(b, a),
    ensures
        a == b,
    decreases a.len(),
{
    if a.len() == 0 || b.len() == 0 {
        assert(a =~= b);
    } else {
        lemma_lex_total(a.skip(1), b.skip(1));
        assert(a =~= seq![a[0]] + a.skip(1));
        assert(b =~= seq![b[0]] + b.skip(1));
    }
}

/// If `a` does not stand after `b`, nor `b` after `c`, then `a` does not
/// stand after `c`.
pub proof fn lemma_lex_chain(a: Seq<char>, b: Seq<char>, c: Seq<char>)
    requires
        !lex_less(b, a),
        !lex_less(c, b),
    ensures
        !lex_less(c, a),
    decreases a.len(),
{
    if a.len() > 0 && b.len() > 0 && c.len() > 0 && a[0] == b[0] && b[0] == c[0] {
        lemma_lex_chain(a.skip(1), b.skip(1), c.skip(1));
    }
}

/// An entry of a ranking: a term and its score.
pub type Entry = (Seq<char>, int);

/// Whether `a` is ranked before `b`: by the higher score, and with equal
/// scores by the term that comes first.
pub open spec fn ranks_before(a: Entry, b: Entry) -> bool {
    a.1 > b.1 || (a.1 == b.1 && lex_less(a.0, b.0))
}

/// The place at which `e` goes into the ranked list `sorted`: behind every
/// entry that it is not ranked before.
pub open spec fn insert_pos(sorted: Seq<Entry>, e: Entry) -> int
    decreases sorted.len(),
{
    if sorted.len() == 0 {
        0
    } else if ranks_before(e, sorted.last()) {
        insert_pos(sorted.drop_last(), e)
    } else {
        sorted.len() as int
    }
}

/// The ranked list `sorted` with `e` put in at its place.
pub open spec fn insert_ranked(sorted: Seq<Entry>, e: Entry) -> Seq<Entry> {
    sorted.insert(insert_pos(sorted, e), e)
}

/// The entries in ranked order.
pub open spec fn ranked(entries: Seq<Entry>) -> Seq<Entry>
    decreases entries.len(),
{
    if entries.len() == 0 {
        Seq::empty()
    } else {
        insert_ranked(ranked(entries.drop_last()), entries.last())
    }
}

/// A list is in ranked order if no entry is ranked before an earlier one.
pub open spec fn in_ranked_order(s: Seq<Entry>) -> bool {
    forall|i: int, j: int| 0 <= i < j < s.len() ==> !ranks_before(#[trigger] s[j], #[trigger] s[i])
}

/// If `a` is not ranked after `b`, nor `b` after `c`, then `a` is not
/// ranked after `c`.
proof fn lemma_rank_chain(a: Entry, b: Entry, c: Entry)
    requires
        !ranks_before(b, a),
        !ranks_before(c, b),
    ensures
        !ranks_before(c, a),
{
    if a.1 == b.1 && b.1 == c.1 {
        lemma_lex_chain(a.0, b.0, c.0);
    }
}

/// Where `e` goes in: every entry from there on is one that `e` is ranked
/// before, and the entry just before is not.
proof fn lemma_insert_pos(sorted: Seq<Entry>, e: Entry)
    ensures
        0 <= insert_pos(sorted, e) <= sorted.len(),
        forall|k: int| insert_pos(sorted, e) <= k < sorted.len() ==> ranks_before(e, sorted[k]),
        insert_pos(sorted, e) > 0 ==> !ranks_before(e, sorted[insert_pos(sorted, e) - 1]),
    decreases sorted.len(),
{
    if sorted.len() > 0 && ranks_before(e, sorted.last()) {
        lemma_insert_pos(sorted.drop_last(), e);
        assert forall|k: int| insert_pos(sorted, e) <= k < sorted.len() implies ranks_before(
            e,
            sorted[k],
        ) by {
            if k < sorted.len() - 1 {
                assert(sorted.drop_last()[k] == sorted[k]);
            }
        }
        if insert_pos(sorted, e) > 0 {
            assert(sorted.drop_last()[insert_pos(sorted, e) - 1] == sorted[insert_pos(sorted, e)
                - 1]);
        }
    }
}

/// Of two entries at most one is ranked before the other.
proof fn lemma_rank_one_way(a: Entry, b: Entry)
    requires
        ranks_before(a, b),
    ensures
        !ranks_before(b, a),
{
    if a.1 == b.1 {
        lemma_lex_one_way(a.0, b.0);
    }
}

/// Of two strings at most one stands before the other.
pub proof fn lemma_lex_one_way(a: Seq<char>, b: Seq<char>)
    requires
        lex_less(a, b),
    ensures
        !lex_less(b, a),
    decreases a.len(),
{
    if a.len() > 0 && b.len() > 0 && a[0] == b[0] {
        lemma_lex_one_way(a.skip(1), b.skip(1));
    }
}

/// Putting an entry in at its place keeps a list in ranked order.
proof fn lemma_insert_keeps_order(sorted: Seq<Entry>, e: Entry)
    requires
        in_ranked_order(sorted),
    ensures
        in_ranked_order(insert_ranked(sorted, e)),
        insert_ranked(sorted, e).len() == sorted.len() + 1,
        insert_ranked(sorted, e).to_multiset() == sorted.to_multiset().insert(e),
{
    lemma_insert_pos(sorted, e);
    let pos = insert_pos(sorted, e);
    let after = insert_ranked(sorted, e);
    assert forall|i: int, j: int| 0 <= i < j < after.len() implies !ranks_before(
        #[trigger] after[j],
        #[trigger] after[i],
    ) by {
        if j < pos {
            assert(after[i] == sorted[i] && after[j] == sorted[j]);
        } else if j == pos {
            assert(after[i] == sorted[i]);
            assert(after[j] == e);
            if i < pos - 1 {
                assert(!ranks_before(sorted[pos - 1], sorted[i]));
                lemma_rank_chain(sorted[i], sorted[pos - 1], e);
            }
        } else if i < pos {
            assert(after[i] == sorted[i] && after[j] == sorted[j - 1]);
        } else if i == pos {
            assert(after[j] == sorted[j - 1]);
            lemma_rank_one_way(e, sorted[j - 1]);
        } else {
            assert(after[i] == sorted[i - 1] && after[j] == sorted[j - 1]);
        }
    }
    vstd::seq_lib::to_multiset_insert(sorted, pos, e);
}

/// The ranked entries are the given entries, each as often as it was given,
/// in ranked order.
pub proof fn lemma_ranked(entries: Seq<Entry>)
    ensures
        in_ranked_order(ranked(entries)),
        ranked(entries).len() == entries.len(),
        ranked(entries).to_multiset() == entries.to_multiset(),
    decreases entries.len(),
{
    broadcast use vstd::seq_lib::group_to_multiset_ensures;

    if entries.len() > 0 {
        lemma_ranked(entries.drop_last());
        lemma_insert_keeps_order(ranked(entries.drop_last()), entries.last());
        assert(entries =~= entries.drop_last().push(entries.last()));
    } else {
        assert(ranked(entries) =~= entries);
    }
}

/// Whether `places` names each place of `entries` at most once, and
/// `sorted` holds the entries at these places.
pub open spec fn rearranges(sorted: Seq<Entry>, entries: Seq<Entry>, places: Seq<int>) -> bool {
    &&& places.len() == sorted.len()
    &&& places.no_duplicates()
    &&& forall|k: int|
        0 <= k < sorted.len() ==> 0 <= #[trigger] places[k] < entries.len() && sorted[k]
            == entries[places[k]]
}

/// The ranking holds the given entries, each from a place of its own.
pub proof fn lemma_ranked_places(entries: Seq<Entry>) -> (places: Seq<int>)
    ensures
        rearranges(ranked(entries), entries, places),
        ranked(entries).len() == entries.len(),
    decreases entries.len(),
{
    if entries.len() == 0 {
        Seq::empty()
    } else {
        let rest = entries.drop_last();
        let before = lemma_ranked_places(rest);
        let sorted = ranked(rest);
        lemma_insert_pos(sorted, entries.last());
        let pos = insert_pos(sorted, entries.last());
        let last = entries.len() - 1;
        let places = before.insert(pos, last);
        let after = ranked(entries);
        assert forall|k: int| 0 <= k < after.len() implies 0 <= #[trigger] places[k]
            < entries.len() && after[k] == entries[places[k]] by {
            if k < pos {
                assert(places[k] == before[k]);
                assert(after[k] == sorted[k]);
                assert(rest[before[k]] == entries[before[k]]);
            } else if k > pos {
                assert(places[k] == before[k - 1]);
                assert(after[k] == sorted[k - 1]);
                assert(rest[before[k - 1]] == entries[before[k - 1]]);
            }
        }
        assert forall|a: int, b: int|
            0 <= a < places.len() && 0 <= b < places.len() && a != b implies places[a]
            != places[b] by {
            let x = if a < pos {
                a
            } else {
                a - 1
            };
            let y = if b < pos {
                b
            } else {
                b - 1
            };
            if a != pos && b != pos {
                assert(places[a] == before[x] && places[b] == before[y]);
            } else if a == pos {
                assert(places[b] == before[y]);
            } else {
                assert(places[a] == before[x]);
            }
        }
        places
    }
}

/// In a ranking an earlier entry never has the lower score.
pub proof fn lemma_scores_descend(entries: Seq<Entry>, i: int, j: int)
    requires
        0 <= i <= j < entries.len(),
    ensures
        ranked(entries)[i].1 >= ranked(entries)[j].1,
{
    lemma_ranked(entries);
    if i < j {
        assert(!ranks_before(ranked(entries)[j], ranked(entries)[i]));
    }
}

/// The ranking does not depend on the order in which the entries are given.
pub proof fn lemma_ranked_whatever_order(a: Seq<Entry>, b: Seq<Entry>)
    requires
        a.to_multiset() == b.to_multiset(),
    ensures
        ranked(a) == ranked(b),
{
    let leq = |x: Entry, y: Entry| !ranks_before(y, x);
    lemma_ranked(a);
    lemma_ranked(b);
    assert(vstd::relations::sorted_by(ranked(a), leq));
    assert(vstd::relations::sorted_by(ranked(b), leq));
    assert forall|x: Entry| #[trigger] leq(x, x) by {
        lemma_lex_irreflexive(x.0);
    }
    assert forall|x: Entry, y: Entry| #[trigger] leq(x, y) && #[trigger] leq(y, x) implies x
        == y by {
        lemma_lex_total(x.0, y.0);
    }
    assert forall|x: Entry, y: Entry, z: Entry| #[trigger] leq(x, y) && #[trigger] leq(
        y,
        z,
    ) implies leq(x, z) by {
        lemma_rank_chain(x, y, z);
    }
    assert forall|x: Entry, y: Entry| #[trigger] leq(x, y) || #[trigger] leq(y, x) by {
        if ranks_before(y, x) {
            lemma_rank_one_way(y, x);
        }
    }
    assert(vstd::relations::total_ordering(leq));
    vstd::seq_lib::lemma_sorted_unique(ranked(a), ranked(b), leq);
}

/// Asking for at least as many entries as there are gives them all, each as
/// often as it was given.
pub proof fn lemma_top_ranked_all(entries: Seq<Entry>, n: int)
    requires
        n >= entries.len(),
    ensures
        top_ranked(entries, n) == ranked(entries),
        top_ranked(entries, n).len() == entries.len(),
        top_ranked(entries, n).to_multiset() == entries.to_multiset(),
{
    lemma_ranked(entries);
}

/// Asking for fewer entries gives the start of what asking for more gives.
pub proof fn lemma_top_ranked_prefix(entries: Seq<Entry>, n: int, more: int)
    requires
        0 <= n <= more,
    ensures
        top_ranked(entries, n).len() == if n < entries.len() {
            n
        } else {
            entries.len() as int
        },
        top_ranked(entries, n) == top_ranked(entries, more).take(
            top_ranked(entries, n).len() as int,
        ),
{
    lemma_ranked(entries);
    assert(top_ranked(entries, n) =~= top_ranked(entries, more).take(
        top_ranked(entries, n).len() as int,
    ));
}

/// In what `top_ranked` gives an earlier entry never has the lower score.
pub proof fn lemma_top_ranked_descend(entries: Seq<Entry>, n: int, i: int, j: int)
    requires
        0 <= n,
        0 <= i <= j < top_ranked(entries, n).len(),
    ensures
        top_ranked(entries, n)[i].1 >= top_ranked(entries, n)[j].1,
{
    lemma_ranked(entries);
    lemma_scores_descend(entries, i, j);
}

/// The entries of a list, with the terms as character sequences.
pub open spec fn rank_views(v: Seq<(String, u64)>) -> Seq<Entry> {
    v.map_values(|e: (String, u64)| (e.0@, e.1 as int))
}

/// The terms of a list of entries.
pub open spec fn terms_of(s: Seq<Entry>) -> Seq<Seq<char>> {
    s.map_values(|e: Entry| e.0)
}

/// The first `n` entries of the ranking, or all where there are fewer.
pub open spec fn top_ranked(entries: Seq<Entry>, n: int) -> Seq<Entry> {
    if n < entries.len() {
        ranked(entries).take(n)
    } else {
        ranked(entries)
    }
}

/// Whether the string `a` stands before `b` in lexicographic order.
pub fn lex_less_str(a: &str, b: &str) -> (r: bool)
    ensures
        r == lex_less(a@, b@),
{
    let x = chars_of(a);
    let y = chars_of(b);
    let mut i: usize = 0;
    assert(x@.skip(0) =~= x@);
    assert(y@.skip(0) =~= y@);
    while i < x.len() && i < y.len()
        invariant
            x@ == a@,
            y@ == b@,
            i <= x.len(),
            i <= y.len(),
            lex_less(x@, y@) == lex_less(x@.skip(i as int), y@.skip(i as int)),
        decreases x.len() - i,
    {
        proof {
            assert(x@.skip(i as int).skip(1) =~= x@.skip(i + 1));
            assert(y@.skip(i as int).skip(1) =~= y@.skip(i + 1));
        }
        assert(x@.skip(i as int)[0] == x@[i as int]);
        assert(y@.skip(i as int)[0] == y@[i as int]);
        if x[i] != y[i] {
            return x[i] < y[i];
        }
        i += 1;
    }
    i < y.len()
}

fn before(a_term: &str, a_score: u64, b_term: &str, b_score: u64) -> (r: bool)
    ensures
        r == ranks_before((a_term@, a_score as int), (b_term@, b_score as int)),
{
    a_score > b_score || (a_score == b_score && lex_less_str(a_term, b_term))
}

/// The entries in ranked order.
pub fn sort_ranked_map(map: &Vec<(String, u64)>) -> (r: Vec<(String, u64)>)
    ensures
        rank_views(r@) == ranked(rank_views(map@)),
        r.len() == map.len(),
{
    let ghost all = rank_views(map@);
    let mut sorted: Vec<(String, u64)> = Vec::new();
    let mut i: usize = 0;
    assert(all.take(0) =~= Seq::<Entry>::empty());
    assert(rank_views(sorted@) =~= Seq::<Entry>::empty());
    while i < map.len()
        invariant
            i <= map.len(),
            all == rank_views(map@),
            rank_views(sorted@) == ranked(all.take(i as int)),
            sorted.len() == i,
        decreases map.len() - i,
    {
        let ghost e = all[i as int];
        let ghost current = rank_views(sorted@);
        let mut pos: usize = sorted.len();
        assert(current.take(pos as int) =~= current);
        while pos > 0 && before(
            map[i].0.as_str(),
            map[i].1,
            sorted[pos - 1].0.as_str(),
            sorted[pos - 1].1,
        )
            invariant
                i < map.len(),
                all == rank_views(map@),
                e == all[i as int],
                current == rank_views(sorted@),
                pos <= sorted.len(),
                insert_pos(current, e) == insert_pos(current.take(pos as int), e),
            decreases pos,
        {
            proof {
                assert(current.take(pos as int).drop_last() =~= current.take(pos - 1));
                assert(current.take(pos as int).last() == current[pos - 1]);
            }
            pos -= 1;
        }
        proof {
            assert(current.take(sorted.len() as int) =~= current);
            if pos > 0 {
                assert(current.take(pos as int).last() == current[pos - 1]);
            }
            assert(insert_pos(current, e) == pos);
            assert(all.take(i + 1).drop_last() =~= all.take(i as int));
            assert(all.take(i + 1).last() == e);
        }
        sorted.insert(pos, (map[i].0.clone(), map[i].1));
        assert(rank_views(sorted@) =~= current.insert(pos as int, e));
        i += 1;
    }
    assert(all.take(map.len() as int) =~= all);
    sorted
}

/// The `n` best entries, best first, or all of them where there are fewer.
pub fn get_ranked_scores(map: &Vec<(String, u64)>, n: usize) -> (r: Vec<(String, u64)>)
    ensures
        rank_views(r@) == top_ranked(rank_views(map@), n as int),
        r.len() == if n < map.len() {
            n
        } else {
            map.len()
        },
        forall|i: int, j: int| 0 <= i <= j < r.len() ==> #[trigger] r@[i].1 >= #[trigger] r@[j].1,
{
    let mut sorted = sort_ranked_map(map);
    let ghost all = rank_views(sorted@);
    if n < sorted.len() {
        sorted.truncate(n);
        assert(rank_views(sorted@) =~= all.take(n as int));
    }
    proof {
        let entries = rank_views(map@);
        assert forall|i: int, j: int| 0 <= i <= j < sorted.len() implies #[trigger] sorted@[i].1
            >= #[trigger] sorted@[j].1 by {
            lemma_top_ranked_descend(entries, n as int, i, j);
            assert(rank_views(sorted@)[i].1 == sorted@[i].1);
            assert(rank_views(sorted@)[j].1 == sorted@[j].1);
        }
    }
    sorted
}

/// The terms of the `n` best entries, best first.
pub fn get_ranked_strings(map: &Vec<(String, u64)>, n: usize) -> (r: Vec<String>)
    ensures
        views(r@) == terms_of(top_ranked(rank_views(map@), n as int)),
        r.len() == if n < map.len() {
            n
        } else {
            map.len()
        },
{
    let top = get_ranked_scores(map, n);
    let mut r: Vec<String> = Vec::new();
    let mut i: usize = 0;
    while i < top.len()
        invariant
            i <= top.len(),
            r.len() == i,
            forall|k: int| 0 <= k < i ==> (#[trigger] r@[k])@ == top@[k].0@,
        decreases top.len() - i,
    {
        r.push(top[i].0.clone());
        i += 1;
    }
    assert(views(r@) =~= terms_of(rank_views(top@)));
    r
}

/// The score of `term`, or zero where it has none.
pub open spec fn score_of(entries: Seq<Entry>, term: Seq<char>) -> int {
    let p = crate::common::position(terms_of(entries), term);
    if p >= 0 {
        entries[p].1
    } else {
        0
    }
}

/// Where there are no entries, every term has the score zero and every
/// ranking is empty.
pub proof fn lemma_nothing_ranked(term: Seq<char>, n: int)
    requires
        0 <= n,
    ensures
        score_of(Seq::<Entry>::empty(), term) == 0,
        top_ranked(Seq::<Entry>::empty(), n).len() == 0,
{
    assert(terms_of(Seq::<Entry>::empty()) =~= Seq::<Seq<char>>::empty());
    crate::common::lemma_position(terms_of(Seq::<Entry>::empty()), term);
    lemma_ranked(Seq::<Entry>::empty());
}

/// The score of `term` in the list, or zero.
pub fn get_score(map: &Vec<(String, u64)>, term: &str) -> (r: u64)
    ensures
        r == score_of(rank_views(map@), term@),
{
    assert(crate::common::keys(map@) =~= terms_of(rank_views(map@)));
    match crate::common::find_key(map, term) {
        Some(p) => map[p].1,
        None => 0,
    }
}

} // verus!

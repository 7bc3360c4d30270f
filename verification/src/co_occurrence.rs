//! How often words stand near each other: for chosen words, the number of
//! times one stands within a window around the other, over all documents.

use crate::common::text::{clone_strings, split_whitespace, views, whitespace_words};
use vstd::prelude::*;

verus! {

/// The label of a word: the last place at which it stands in the list of
/// words, or -1 if it does not stand there.
pub open spec fn label_of(words: Seq<Seq<char>>, w: Seq<char>) -> int
    decreases words.len(),
{
    if words.len() == 0 {
        -1
    } else if words.last() == w {
        words.len() - 1
    } else {
        label_of(words.drop_last(), w)
    }
}

/// The label of a word is a place at which the word stands, and it stands
/// at no later place.
pub proof fn lemma_label_of(words: Seq<Seq<char>>, w: Seq<char>)
    ensures
        -1 <= label_of(words, w) < words.len(),
        label_of(words, w) >= 0 ==> words[label_of(words, w)] == w,
        forall|k: int| label_of(words, w) < k < words.len() ==> words[k] != w,
    decreases words.len(),
{
    if words.len() > 0 && words.last() != w {
        lemma_label_of(words.drop_last(), w);
        assert forall|k: int| label_of(words, w) < k < words.len() implies words[k] != w by {
            if k < words.len() - 1 {
                assert(words.drop_last()[k] == words[k]);
            }
        }
    }
}

/// Whether the places `i` and `j` of a document of `len` words differ and
/// lie at most `window_size` places apart.
pub open spec fn near(len: int, i: int, j: int, window_size: int) -> bool {
    0 <= i < len && 0 <= j < len && i != j && i - window_size <= j <= i + window_size
}

/// One if the words at `i` and `j` of the document stand near each other
/// and have the labels `a` and `b`, else zero.
pub open spec fn hit(
    doc: Seq<Seq<char>>,
    words: Seq<Seq<char>>,
    window_size: int,
    a: int,
    b: int,
    i: int,
    j: int,
) -> int {
    if near(doc.len() as int, i, j, window_size) && label_of(words, doc[i]) == a && label_of(
        words,
        doc[j],
    ) == b {
        1
    } else {
        0
    }
}

/// The number of hits of the place `i` with the places before `j`.
pub open spec fn hits_at(
    doc: Seq<Seq<char>>,
    words: Seq<Seq<char>>,
    window_size: int,
    a: int,
    b: int,
    i: int,
    j: int,
) -> int
    decreases j,
{
    if j <= 0 {
        0
    } else {
        hits_at(doc, words, window_size, a, b, i, j - 1) + hit(
            doc,
            words,
            window_size,
            a,
            b,
            i,
            j - 1,
        )
    }
}

/// The number of hits of the places before `i` with all places.
pub open spec fn hits_in(
    doc: Seq<Seq<char>>,
    words: Seq<Seq<char>>,
    window_size: int,
    a: int,
    b: int,
    i: int,
) -> int
    decreases i,
{
    if i <= 0 {
        0
    } else {
        hits_in(doc, words, window_size, a, b, i - 1) + hits_at(
            doc,
            words,
            window_size,
            a,
            b,
            i - 1,
            doc.len() as int,
        )
    }
}

/// The number of times a word with label `a` stands near a word with
/// label `b` in the first `n` documents.
pub open spec fn hits(
    documents: Seq<Seq<char>>,
    words: Seq<Seq<char>>,
    window_size: int,
    a: int,
    b: int,
    n: int,
) -> int
    decreases n,
{
    if n <= 0 {
        0
    } else {
        let doc = whitespace_words(documents[n - 1]);
        hits(documents, words, window_size, a, b, n - 1) + hits_in(
            doc,
            words,
            window_size,
            a,
            b,
            doc.len() as int,
        )
    }
}

/// A count as it is kept: never more than the greatest 64-bit number.
pub open spec fn kept_count(n: int) -> int {
    if n > u64::MAX {
        u64::MAX as int
    } else {
        n
    }
}

/// No number of hits is below zero.
proof fn lemma_hits_at_bounds(
    doc: Seq<Seq<char>>,
    words: Seq<Seq<char>>,
    window_size: int,
    a: int,
    b: int,
    i: int,
    j: int,
)
    ensures
        0 <= hits_at(doc, words, window_size, a, b, i, j),
    decreases j,
{
    if j > 0 {
        lemma_hits_at_bounds(doc, words, window_size, a, b, i, j - 1);
    }
}

/// Places that do not lie near `i` add no hits.
proof fn lemma_hits_at_outside(
    doc: Seq<Seq<char>>,
    words: Seq<Seq<char>>,
    window_size: int,
    a: int,
    b: int,
    i: int,
    from: int,
    to: int,
)
    requires
        0 <= from <= to,
        forall|j: int| from <= j < to ==> !near(doc.len() as int, i, j, window_size),
    ensures
        hits_at(doc, words, window_size, a, b, i, to) == hits_at(
            doc,
            words,
            window_size,
            a,
            b,
            i,
            from,
        ),
    decreases to - from,
{
    if from < to {
        lemma_hits_at_outside(doc, words, window_size, a, b, i, from, to - 1);
    }
}

/// A place whose word has another label than `a` adds no hits.
proof fn lemma_hits_at_other(
    doc: Seq<Seq<char>>,
    words: Seq<Seq<char>>,
    window_size: int,
    a: int,
    b: int,
    i: int,
    j: int,
)
    requires
        0 <= i < doc.len(),
        label_of(words, doc[i]) != a,
    ensures
        hits_at(doc, words, window_size, a, b, i, j) == 0,
    decreases j,
{
    if j > 0 {
        lemma_hits_at_other(doc, words, window_size, a, b, i, j - 1);
    }
}

/// The words among the first `n` that bear their own label and have a
/// count above zero in the row, each with its count.
pub open spec fn relations_upto(words: Seq<Seq<char>>, row: Seq<u64>, n: int) -> Seq<
    (Seq<char>, u64),
>
    decreases n,
{
    if n <= 0 {
        Seq::empty()
    } else if row[n - 1] > 0 && label_of(words, words[n - 1]) == n - 1 {
        relations_upto(words, row, n - 1).push((words[n - 1], row[n - 1]))
    } else {
        relations_upto(words, row, n - 1)
    }
}

/// The counts of a co-occurrence matrix, with the words they are about.
pub struct CoOccurrence {
    matrix: Vec<Vec<u64>>,
    max: u64,
    words: Vec<String>,
}

/// Whether `m` is a square matrix of side `n`.
pub open spec fn square(m: Seq<Vec<u64>>, n: int) -> bool {
    m.len() == n && forall|a: int| 0 <= a < n ==> (#[trigger] m[a]).len() == n
}

/// Whether `max` is the greatest entry of the matrix, or zero where all
/// entries are zero.
pub open spec fn is_greatest(m: Seq<Vec<u64>>, max: u64) -> bool {
    &&& forall|a: int, b: int| 0 <= a < m.len() && 0 <= b < m[a].len() ==> #[trigger] m[a][b] <= max
    &&& max == 0 || exists|a: int, b: int|
        0 <= a < m.len() && 0 <= b < m[a].len() && #[trigger] m[a][b] == max
}

/// Whether every entry is the kept count of the hits in the first `n`
/// documents, and in the first `i` places of the next, and of the place
/// `i` with the places before `j`.
pub open spec fn counts_up_to(
    m: Seq<Vec<u64>>,
    documents: Seq<Seq<char>>,
    words: Seq<Seq<char>>,
    window_size: int,
    n: int,
    doc: Seq<Seq<char>>,
    i: int,
    j: int,
) -> bool {
    forall|a: int, b: int|
        0 <= a < m.len() && 0 <= b < m[a].len() ==> #[trigger] m[a][b] == kept_count(
            hits(documents, words, window_size, a, b, n) + hits_in(
                doc,
                words,
                window_size,
                a,
                b,
                i,
            ) + hits_at(doc, words, window_size, a, b, i, j),
        )
}

fn find_label(words: &Vec<String>, w: &str) -> (r: Option<usize>)
    ensures
        match r {
            Some(i) => i == label_of(views(words@), w@) && i < words.len(),
            None => label_of(views(words@), w@) == -1,
        },
{
    let ghost all = views(words@);
    let wanted = w.to_owned();
    let mut k: usize = words.len();
    assert(all.take(k as int) =~= all);
    while k > 0
        invariant
            wanted@ == w@,
            k <= words.len(),
            all == views(words@),
            label_of(all, w@) == label_of(all.take(k as int), w@),
        decreases k,
    {
        proof {
            assert(all.take(k as int).drop_last() =~= all.take(k - 1));
            assert(all.take(k as int).last() == all[k - 1]);
        }
        if words[k - 1] == wanted {
            return Some(k - 1);
        }
        k -= 1;
    }
    None
}

fn zero_matrix(n: usize) -> (m: Vec<Vec<u64>>)
    ensures
        square(m@, n as int),
        forall|a: int, b: int| 0 <= a < n && 0 <= b < n ==> #[trigger] m@[a]@[b] == 0,
{
    let mut m: Vec<Vec<u64>> = Vec::new();
    let mut a: usize = 0;
    while a < n
        invariant
            a <= n,
            square(m@, a as int) || (m.len() == a && forall|x: int|
                0 <= x < a ==> (#[trigger] m@[x]).len() == n),
            m.len() == a,
            forall|x: int| 0 <= x < a ==> (#[trigger] m@[x]).len() == n,
            forall|x: int, y: int| 0 <= x < a && 0 <= y < n ==> #[trigger] m@[x]@[y] == 0,
        decreases n - a,
    {
        let mut row: Vec<u64> = Vec::new();
        let mut b: usize = 0;
        while b < n
            invariant
                b <= n,
                row.len() == b,
                forall|y: int| 0 <= y < b ==> row@[y] == 0,
            decreases n - b,
        {
            row.push(0);
            b += 1;
        }
        m.push(row);
        a += 1;
    }
    m
}

/// The places of a document of `words_length` words that lie at most
/// `window_size` places from `index`: from the first of the two numbers up
/// to, but without, the second.
pub fn get_window_range(window_size: usize, index: usize, words_length: usize) -> (r: (usize, usize))
    ensures
        r.0 == if index >= window_size {
            index - window_size
        } else {
            0
        },
        r.1 == if index + window_size + 1 <= words_length {
            index + window_size + 1
        } else {
            words_length as int
        },
{
    let start: usize = if index >= window_size {
        index - window_size
    } else {
        0
    };
    let end: usize = if index < words_length && window_size < words_length - index {
        index + window_size + 1
    } else {
        words_length
    };
    (start, end)
}

/// Counts one more hit of the labels `a` and `b`.
fn count_one(matrix: &mut Vec<Vec<u64>>, max: &mut u64, a: usize, b: usize, Ghost(n): Ghost<usize>)
    requires
        square(old(matrix)@, n as int),
        is_greatest(old(matrix)@, *old(max)),
        a < n,
        b < n,
    ensures
        square(final(matrix)@, n as int),
        is_greatest(final(matrix)@, *final(max)),
        final(matrix)@[a as int]@[b as int] == kept_count(old(matrix)@[a as int]@[b as int] + 1),
        forall|x: int, y: int|
            0 <= x < n && 0 <= y < n && !(x == a && y == b) ==> #[trigger] final(matrix)@[x]@[y]
                == old(matrix)@[x]@[y],
{
    let ghost before = matrix@;
    let ghost old_max = *max;
    assert(before[a as int].len() == n);
    let current = matrix[a][b];
    if current < u64::MAX {
        matrix[a][b] = current + 1;
        if current + 1 > *max {
            *max = current + 1;
        }
        proof {
            assert forall|x: int| 0 <= x < n implies (#[trigger] matrix@[x]).len() == n by {
                if x != a {
                    assert(matrix@[x] == before[x]);
                } else {
                    assert(before[x].len() == n);
                }
            }
            assert forall|x: int, y: int|
                0 <= x < n && 0 <= y < n && !(x == a && y == b) implies #[trigger] matrix@[x]@[y]
                == before[x]@[y] by {
                if x != a {
                    assert(matrix@[x] == before[x]);
                }
            }
            assert forall|x: int, y: int|
                0 <= x < matrix@.len() && 0 <= y < matrix@[x].len() implies #[trigger] matrix@[x][y]
                <= *max by {
                assert(before[x].len() == n);
                if !(x == a && y == b) {
                    assert(matrix@[x]@[y] == before[x]@[y]);
                    assert(before[x][y] <= old_max);
                }
            }
            if current + 1 > old_max {
                assert(matrix@[a as int][b as int] == *max);
            } else {
                assert(old_max != 0);
                let (x, y) = choose|x: int, y: int|
                    0 <= x < before.len() && 0 <= y < before[x].len() && #[trigger] before[x][y]
                        == old_max;
                assert(before[x].len() == n);
                assert(!(x == a && y == b));
                assert(matrix@[x]@[y] == before[x]@[y]);
                assert(matrix@[x][y] == *max);
            }
        }
    }
}

impl CoOccurrence {
    #[verifier::type_invariant]
    spec fn wf(&self) -> bool {
        square(self.matrix@, self.words@.len() as int) && is_greatest(self.matrix@, self.max)
    }

    /// The words that the matrix is about, in the order of their labels.
    pub closed spec fn words(&self) -> Seq<Seq<char>> {
        views(self.words@)
    }

    /// The rows of the matrix.
    pub closed spec fn rows(&self) -> Seq<Vec<u64>> {
        self.matrix@
    }

    /// The greatest entry of the matrix.
    pub closed spec fn greatest(&self) -> u64 {
        self.max
    }

    /// Counts, for each pair of the words, how often one stands within
    /// `window_size` places of the other in the documents. A word that
    /// stands several times in `words` is counted under its last place.
    pub fn new(documents: &Vec<String>, words: &Vec<String>, window_size: usize) -> (r: Self)
        ensures
            r.words() == views(words@),
            square(r.rows(), words.len() as int),
            forall|a: int, b: int|
                0 <= a < words.len() && 0 <= b < words.len() ==> #[trigger] r.rows()[a][b]
                    == kept_count(
                    hits(
                        views(documents@),
                        views(words@),
                        window_size as int,
                        a,
                        b,
                        documents.len() as int,
                    ),
                ),
            is_greatest(r.rows(), r.greatest()),
    {
        let ghost docs = views(documents@);
        let ghost ws = views(words@);
        let ghost width = window_size as int;
        let n = words.len();
        let mut matrix = zero_matrix(n);
        let mut max: u64 = 0;
        let mut d: usize = 0;
        let ghost none = Seq::<Seq<char>>::empty();
        while d < documents.len()
            invariant
                d <= documents.len(),
                docs == views(documents@),
                ws == views(words@),
                width == window_size as int,
                n == words.len(),
                square(matrix@, n as int),
                is_greatest(matrix@, max),
                counts_up_to(matrix@, docs, ws, width, d as int, none, 0, 0),
            decreases documents.len() - d,
        {
            let doc_words = split_whitespace(documents[d].as_str());
            let ghost doc = views(doc_words@);
            assert(doc == whitespace_words(docs[d as int]));
            let len = doc_words.len();
            let mut i: usize = 0;
            while i < len
                invariant
                    d < documents.len(),
                    docs == views(documents@),
                    ws == views(words@),
                    width == window_size as int,
                    n == words.len(),
                    doc == views(doc_words@),
                    doc == whitespace_words(docs[d as int]),
                    len == doc_words.len(),
                    i <= len,
                    square(matrix@, n as int),
                    is_greatest(matrix@, max),
                    counts_up_to(matrix@, docs, ws, width, d as int, doc, i as int, 0),
                decreases len - i,
            {
                match find_label(words, doc_words[i].as_str()) {
                    Some(first) => {
                        let (lo, hi) = get_window_range(window_size, i, len);
                        proof {
                            assert forall|a: int, b: int|
                                0 <= a < matrix@.len() && 0 <= b < matrix@[a].len() implies hits_at(
                                doc,
                                ws,
                                width,
                                a,
                                b,
                                i as int,
                                lo as int,
                            ) == 0 by {
                                lemma_hits_at_outside(doc, ws, width, a, b, i as int, 0, lo as int);
                            }
                        }
                        let mut j: usize = lo;
                        while j < hi
                            invariant
                                d < documents.len(),
                                docs == views(documents@),
                                ws == views(words@),
                                width == window_size as int,
                                n == words.len(),
                                doc == views(doc_words@),
                                len == doc_words.len(),
                                i < len,
                                lo <= j <= hi <= len,
                                i - width <= lo,
                                hi <= i + width + 1,
                                first < n,
                                first == label_of(ws, doc[i as int]),
                                square(matrix@, n as int),
                                is_greatest(matrix@, max),
                                counts_up_to(
                                    matrix@,
                                    docs,
                                    ws,
                                    width,
                                    d as int,
                                    doc,
                                    i as int,
                                    j as int,
                                ),
                            decreases hi - j,
                        {
                            if j != i {
                                match find_label(words, doc_words[j].as_str()) {
                                    Some(other) => {
                                        proof {
                                            assert(near(len as int, i as int, j as int, width));
                                            lemma_hits_at_bounds(
                                                doc,
                                                ws,
                                                width,
                                                first as int,
                                                other as int,
                                                i as int,
                                                j as int,
                                            );
                                        }
                                        count_one(&mut matrix, &mut max, first, other, Ghost(n));
                                    },
                                    None => {},
                                }
                            }
                            j += 1;
                        }
                        proof {
                            assert forall|a: int, b: int|
                                0 <= a < matrix@.len() && 0 <= b < matrix@[a].len() implies hits_at(
                                doc,
                                ws,
                                width,
                                a,
                                b,
                                i as int,
                                len as int,
                            ) == hits_at(doc, ws, width, a, b, i as int, hi as int) by {
                                lemma_hits_at_outside(
                                    doc,
                                    ws,
                                    width,
                                    a,
                                    b,
                                    i as int,
                                    hi as int,
                                    len as int,
                                );
                            }
                        }
                    },
                    None => {
                        proof {
                            assert forall|a: int, b: int|
                                0 <= a < matrix@.len() && 0 <= b < matrix@[a].len() implies hits_at(
                                doc,
                                ws,
                                width,
                                a,
                                b,
                                i as int,
                                len as int,
                            ) == 0 by {
                                lemma_hits_at_other(doc, ws, width, a, b, i as int, len as int);
                            }
                        }
                    },
                }
                i += 1;
            }
            d += 1;
        }
        let copy = clone_strings(words);
        assert(copy.len() == views(copy@).len());
        assert(words.len() == views(words@).len());
        CoOccurrence { matrix, max, words: copy }
    }

    /// The label of a word: the last place at which it stands among the
    /// words.
    pub fn get_label(&self, word: &str) -> (r: Option<usize>)
        ensures
            match r {
                Some(i) => i == label_of(self.words(), word@) && i < self.words().len(),
                None => label_of(self.words(), word@) == -1,
            },
    {
        find_label(&self.words, word)
    }

    /// The word of a label: the word at that place, if the place is the
    /// word's label.
    pub fn get_word(&self, label: usize) -> (r: Option<String>)
        ensures
            r.is_some() == (label < self.words().len() && label_of(
                self.words(),
                self.words()[label as int],
            ) == label),
            r.is_some() ==> r.unwrap()@ == self.words()[label as int],
    {
        if label >= self.words.len() {
            return None;
        }
        match find_label(&self.words, self.words[label].as_str()) {
            Some(l) => if l == label {
                Some(self.words[label].clone())
            } else {
                None
            },
            None => None,
        }
    }

    /// The counts, row by row.
    pub fn get_matrix(&self) -> (r: &Vec<Vec<u64>>)
        ensures
            r@ == self.rows(),
    {
        &self.matrix
    }

    /// The greatest count.
    pub fn get_max(&self) -> (r: u64)
        ensures
            r == self.greatest(),
    {
        self.max
    }

    /// The words in the order of their labels.
    pub fn get_labels(&self) -> (r: &Vec<String>)
        ensures
            views(r@) == self.words(),
    {
        &self.words
    }

    /// The words that stand near `word`, each with its count, if the word
    /// has a label.
    pub fn get_relations(&self, word: &str) -> (r: Option<Vec<(String, u64)>>)
        ensures
            r.is_some() == (label_of(self.words(), word@) >= 0),
            r.is_some() ==> r.unwrap()@.map_values(|e: (String, u64)| (e.0@, e.1))
                == relations_upto(
                self.words(),
                self.rows()[label_of(self.words(), word@)]@,
                self.words().len() as int,
            ),
    {
        proof {
            use_type_invariant(self);
        }
        let label = match find_label(&self.words, word) {
            Some(l) => l,
            None => {
                return None;
            },
        };
        let row = &self.matrix[label];
        let n = self.words.len();
        let ghost ws = views(self.words@);
        let mut found: Vec<(String, u64)> = Vec::new();
        let mut i: usize = 0;
        assert(found@.map_values(|e: (String, u64)| (e.0@, e.1)) =~= relations_upto(ws, row@, 0));
        while i < n
            invariant
                i <= n,
                n == self.words.len(),
                n == row.len(),
                ws == views(self.words@),
                found@.map_values(|e: (String, u64)| (e.0@, e.1)) == relations_upto(
                    ws,
                    row@,
                    i as int,
                ),
            decreases n - i,
        {
            if row[i] > 0 {
                match find_label(&self.words, self.words[i].as_str()) {
                    Some(l) => {
                        if l == i {
                            let ghost before = found@;
                            found.push((self.words[i].clone(), row[i]));
                            assert(found@.map_values(|e: (String, u64)| (e.0@, e.1))
                                =~= before.map_values(|e: (String, u64)| (e.0@, e.1)).push(
                                (ws[i as int], row@[i as int]),
                            ));
                        }
                    },
                    None => {},
                }
            }
            i += 1;
        }
        Some(found)
    }

    /// The row of a word, if the word has a label.
    pub fn get_matrix_row(&self, word: &str) -> (r: Option<Vec<u64>>)
        ensures
            r.is_some() == (label_of(self.words(), word@) >= 0),
            r.is_some() ==> r.unwrap()@ == self.rows()[label_of(self.words(), word@)]@,
    {
        proof {
            use_type_invariant(self);
        }
        match find_label(&self.words, word) {
            Some(label) => {
                let row = &self.matrix[label];
                let mut copy: Vec<u64> = Vec::new();
                let mut b: usize = 0;
                while b < row.len()
                    invariant
                        b <= row.len(),
                        copy@ == row@.take(b as int),
                    decreases row.len() - b,
                {
                    copy.push(row[b]);
                    b += 1;
                    assert(copy@ =~= row@.take(b as int));
                }
                assert(row@.take(row.len() as int) =~= row@);
                Some(copy)
            },
            None => None,
        }
    }

    /// The count of two words, if both have labels.
    pub fn get_relation(&self, word1: &str, word2: &str) -> (r: Option<u64>)
        ensures
            r.is_some() == (label_of(self.words(), word1@) >= 0 && label_of(self.words(), word2@)
                >= 0),
            r.is_some() ==> r.unwrap() == self.rows()[label_of(self.words(), word1@)][label_of(
                self.words(),
                word2@,
            )],
    {
        proof {
            use_type_invariant(self);
        }
        let label1 = match find_label(&self.words, word1) {
            Some(l) => l,
            None => {
                return None;
            },
        };
        let label2 = match find_label(&self.words, word2) {
            Some(l) => l,
            None => {
                return None;
            },
        };
        Some(self.matrix[label1][label2])
    }
}

} // verus!

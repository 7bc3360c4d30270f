//! Edit distance between two strings, counted in grapheme clusters, and the
//! similarity ratio that near-duplicate candidates are recognised by.

use crate::common::text::{grapheme_clusters, graphemes, views};
use vstd::prelude::*;

verus! {

/// The least of three numbers.
pub open spec fn min3(a: int, b: int, c: int) -> int {
    if a <= b {
        if a <= c {
            a
        } else {
            c
        }
    } else if b <= c {
        b
    } else {
        c
    }
}

/// The least number of insertions, deletions and substitutions of single
/// elements that turn `a` into `b`.
pub open spec fn edit_distance<A>(a: Seq<A>, b: Seq<A>) -> int
    decreases a.len() + b.len(),
{
    if a.len() == 0 {
        b.len() as int
    } else if b.len() == 0 {
        a.len() as int
    } else {
        let cost: int = if a.last() == b.last() {
            0
        } else {
            1
        };
        min3(
            edit_distance(a.drop_last(), b) + 1,
            edit_distance(a, b.drop_last()) + 1,
            edit_distance(a.drop_last(), b.drop_last()) + cost,
        )
    }
}

/// The edit distance lies between the difference of the two lengths and the
/// greater of them.
pub proof fn lemma_edit_distance_bounds<A>(a: Seq<A>, b: Seq<A>)
    ensures
        0 <= edit_distance(a, b),
        edit_distance(a, b) <= if a.len() >= b.len() {
            a.len()
        } else {
            b.len()
        },
        a.len() - b.len() <= edit_distance(a, b),
        b.len() - a.len() <= edit_distance(a, b),
    decreases a.len() + b.len(),
{
    if a.len() > 0 && b.len() > 0 {
        lemma_edit_distance_bounds(a.drop_last(), b);
        lemma_edit_distance_bounds(a, b.drop_last());
        lemma_edit_distance_bounds(a.drop_last(), b.drop_last());
    }
}

/// A sequence is at distance zero from itself.
pub proof fn lemma_edit_distance_same<A>(a: Seq<A>)
    ensures
        edit_distance(a, a) == 0,
    decreases a.len(),
{
    if a.len() > 0 {
        lemma_edit_distance_same(a.drop_last());
        lemma_edit_distance_bounds(a.drop_last(), a);
        lemma_edit_distance_bounds(a, a.drop_last());
    }
}

/// The edit distance does not depend on the order of its arguments.
pub proof fn lemma_edit_distance_symmetric<A>(a: Seq<A>, b: Seq<A>)
    ensures
        edit_distance(a, b) == edit_distance(b, a),
    decreases a.len() + b.len(),
{
    if a.len() > 0 && b.len() > 0 {
        lemma_edit_distance_symmetric(a.drop_last(), b);
        lemma_edit_distance_symmetric(a, b.drop_last());
        lemma_edit_distance_symmetric(a.drop_last(), b.drop_last());
    }
}

/// The edit distance between the grapheme clusters of two strings.
pub open spec fn grapheme_distance(a: Seq<char>, b: Seq<char>) -> int {
    edit_distance(grapheme_clusters(a), grapheme_clusters(b))
}

/// The greater of the two strings' lengths in grapheme clusters.
pub open spec fn grapheme_max_len(a: Seq<char>, b: Seq<char>) -> int {
    let x = grapheme_clusters(a).len();
    let y = grapheme_clusters(b).len();
    if x >= y {
        x as int
    } else {
        y as int
    }
}

/// A similarity threshold `num / den`, greater than zero and at most one.
#[derive(Clone, Copy, Debug)]
pub struct Threshold {
    pub num: u64,
    pub den: u64,
}

impl Threshold {
    /// Whether the threshold is greater than zero and at most one.
    pub open spec fn valid(&self) -> bool {
        0 < self.num <= self.den
    }

    /// The threshold `num / den`, or `None` unless `0 < num / den <= 1`.
    pub fn new(num: u64, den: u64) -> (r: Option<Threshold>)
        ensures
            r.is_some() == (0 < num <= den),
            r.is_some() ==> r.unwrap().num == num && r.unwrap().den == den && r.unwrap().valid(),
    {
        if 0 < num && num <= den {
            Some(Threshold { num, den })
        } else {
            None
        }
    }
}

/// A similarity ratio: `same` of `of` positions agree. It stands for the
/// number `same / of`, and for zero where `of` is zero.
#[derive(Clone, Copy, Debug)]
pub struct Ratio {
    pub same: usize,
    pub of: usize,
}

impl Ratio {
    /// Whether the ratio reaches `num / den`.
    pub open spec fn reaches(&self, threshold: Threshold) -> bool {
        self.of > 0 && self.same * threshold.den >= threshold.num * self.of
    }

    /// Whether the ratio is greater than `num / den`.
    pub open spec fn exceeds(&self, threshold: Threshold) -> bool {
        self.of > 0 && self.same * threshold.den > threshold.num * self.of
    }

    /// Whether the ratio is greater than the threshold.
    pub fn above(&self, threshold: &Threshold) -> (r: bool)
        ensures
            r == self.exceeds(*threshold),
    {
        if self.of == 0 {
            return false;
        }
        proof {
            lemma_product_fits(self.same as int, threshold.den as int);
            lemma_product_fits(threshold.num as int, self.of as int);
        }
        let lhs: u128 = widen(self.same) * (threshold.den as u128);
        let rhs: u128 = (threshold.num as u128) * widen(self.of);
        lhs > rhs
    }

    /// Whether the ratio is at least the threshold.
    pub fn at_least(&self, threshold: &Threshold) -> (r: bool)
        ensures
            r == self.reaches(*threshold),
    {
        if self.of == 0 {
            return false;
        }
        proof {
            lemma_product_fits(self.same as int, threshold.den as int);
            lemma_product_fits(threshold.num as int, self.of as int);
        }
        let lhs: u128 = widen(self.same) * (threshold.den as u128);
        let rhs: u128 = (threshold.num as u128) * widen(self.of);
        lhs >= rhs
    }
}

proof fn lemma_product_fits(a: int, b: int)
    requires
        0 <= a <= u64::MAX,
        0 <= b <= u64::MAX,
    ensures
        0 <= a * b <= u128::MAX,
{
    assert(0 <= a * b <= u64::MAX * u64::MAX) by (nonlinear_arith)
        requires
            0 <= a <= u64::MAX,
            0 <= b <= u64::MAX,
    ;
}

fn widen(x: usize) -> (r: u128)
    ensures
        r == x,
        r <= u64::MAX,
{
    x as u128
}

/// The edit distance between two lists of strings.
pub fn calculate_sequence_distance(a: &Vec<String>, b: &Vec<String>) -> (d: usize)
    ensures
        d == edit_distance(views(a@), views(b@)),
{
    let ghost sa = views(a@);
    let ghost sb = views(b@);
    let n = b.len();
    let mut row: Vec<usize> = Vec::new();
    let mut j: usize = 0;
    while j < n
        invariant
            n == b.len(),
            j <= n,
            row.len() == j,
            forall|k: int| 0 <= k < j ==> row@[k] == k,
        decreases n - j,
    {
        row.push(j);
        j += 1;
    }
    row.push(n);
    assert forall|k: int| 0 <= k <= n implies row@[k] == edit_distance(sa.take(0), sb.take(k)) by {
        assert(sa.take(0).len() == 0);
    }
    let mut i: usize = 0;
    while i < a.len()
        invariant
            sa == views(a@),
            sb == views(b@),
            n == b.len(),
            i <= a.len(),
            row.len() == n + 1,
            forall|k: int| 0 <= k <= n ==> row@[k] == edit_distance(sa.take(i as int), sb.take(k)),
        decreases a.len() - i,
    {
        let mut next: Vec<usize> = Vec::new();
        next.push(i + 1);
        proof {
            assert(sb.take(0).len() == 0);
            lemma_edit_distance_bounds(sa.take(i + 1), sb.take(0));
            assert(sa.take(i + 1).len() > 0);
        }
        let mut j: usize = 0;
        while j < n
            invariant
                sa == views(a@),
                sb == views(b@),
                n == b.len(),
                i < a.len(),
                j <= n,
                row.len() == n + 1,
                next.len() == j + 1,
                forall|k: int|
                    0 <= k <= n ==> row@[k] == edit_distance(sa.take(i as int), sb.take(k)),
                forall|k: int| 0 <= k <= j ==> next@[k] == edit_distance(sa.take(i + 1), sb.take(k)),
            decreases n - j,
        {
            let same = a[i] == b[j];
            let cost: u128 = if same {
                0
            } else {
                1
            };
            let del: u128 = widen(row[j + 1]) + 1;
            let ins: u128 = widen(next[j]) + 1;
            let sub: u128 = widen(row[j]) + cost;
            let best: u128 = if del <= ins {
                if del <= sub {
                    del
                } else {
                    sub
                }
            } else if ins <= sub {
                ins
            } else {
                sub
            };
            proof {
                let x = sa.take(i + 1);
                let y = sb.take(j + 1);
                assert(x.drop_last() =~= sa.take(i as int));
                assert(y.drop_last() =~= sb.take(j as int));
                assert(x.last() == a@[i as int]@);
                assert(y.last() == b@[j as int]@);
                assert(best == edit_distance(x, y));
                lemma_edit_distance_bounds(x, y);
            }
            next.push(best as usize);
            j += 1;
        }
        row = next;
        i += 1;
    }
    proof {
        assert(sa.take(a.len() as int) =~= sa);
        assert(sb.take(n as int) =~= sb);
    }
    row[n]
}

/// The edit distance between the grapheme clusters of the two strings.
pub fn calculate_distance(str1: &str, str2: &str) -> (d: usize)
    ensures
        d == grapheme_distance(str1@, str2@),
{
    let g1 = graphemes(str1);
    let g2 = graphemes(str2);
    calculate_sequence_distance(&g1, &g2)
}

/// Two strings with the edit distance between them.
pub struct Levenshtein<'a>(&'a str, &'a str, usize);

impl<'a> Levenshtein<'a> {
    #[verifier::type_invariant]
    spec fn wf(&self) -> bool {
        self.2 == grapheme_distance(self.0@, self.1@)
    }

    /// The first of the two strings.
    pub closed spec fn first(&self) -> Seq<char> {
        self.0@
    }

    /// The second of the two strings.
    pub closed spec fn second(&self) -> Seq<char> {
        self.1@
    }

    /// Takes two strings and measures the edit distance between them.
    pub fn new(str1: &'a str, str2: &'a str) -> (r: Self)
        ensures
            r.first() == str1@,
            r.second() == str2@,
    {
        Levenshtein(str1, str2, calculate_distance(str1, str2))
    }

    /// The edit distance between the two strings, in grapheme clusters.
    pub fn distance(&self) -> (d: usize)
        ensures
            d == grapheme_distance(self.first(), self.second()),
    {
        proof {
            use_type_invariant(self);
        }
        self.2
    }

    /// The similarity of the two strings: one minus the edit distance over
    /// the greater length, as a fraction over that length.
    pub fn ratio(&self) -> (r: Ratio)
        ensures
            r.of == grapheme_max_len(self.first(), self.second()),
            r.same == r.of - grapheme_distance(self.first(), self.second()),
    {
        proof {
            use_type_invariant(self);
        }
        let g1 = graphemes(self.0);
        let g2 = graphemes(self.1);
        let max_len = if g1.len() >= g2.len() {
            g1.len()
        } else {
            g2.len()
        };
        proof {
            lemma_edit_distance_bounds(grapheme_clusters(self.0@), grapheme_clusters(self.1@));
        }
        Ratio { same: max_len - self.2, of: max_len }
    }
}

/// Whether the similarity of two strings reaches the threshold.
pub open spec fn similar(a: Seq<char>, b: Seq<char>, threshold: Threshold) -> bool {
    let of = grapheme_max_len(a, b);
    of > 0 && (of - grapheme_distance(a, b)) * threshold.den >= threshold.num * of
}

/// Similarity does not depend on the order of the two strings.
pub proof fn lemma_similar_symmetric(a: Seq<char>, b: Seq<char>, threshold: Threshold)
    ensures
        similar(a, b, threshold) == similar(b, a, threshold),
{
    lemma_edit_distance_symmetric(grapheme_clusters(a), grapheme_clusters(b));
}

/// Whether the similarity ratio of `a` and `b` is at least `threshold`.
pub fn is_similar(a: &str, b: &str, threshold: &Threshold) -> (r: bool)
    ensures
        r == similar(a@, b@, *threshold),
{
    let l = Levenshtein::new(a, b);
    l.ratio().at_least(threshold)
}

} // verus!

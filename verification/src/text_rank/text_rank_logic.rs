//! The graph that a word ranking walks: two different words are joined if
//! one stands within `window_size` places after the other, and the weight
//! of the edge between them is the number of times that happens.

use crate::common::tally::{add_amount, add_to, tally_views, Amount, Tally};
use crate::common::text::views;
use crate::common::{entry_keys, find_key, keys, lemma_position, position};
use vstd::prelude::*;
use vstd::string::StringExecFns;

verus! {

/// For each word the words it is joined with, each with the weight of the
/// edge; the words in the order in which each first got an edge.
pub type Graph = Vec<(String, Tally)>;

/// A graph with its words as character sequences.
pub type GraphView = Seq<(Seq<char>, Seq<Amount>)>;

/// A graph with its words as character sequences and its weights as
/// integers.
pub open spec fn graph_views(g: Seq<(String, Tally)>) -> GraphView {
    g.map_values(|e: (String, Tally)| (e.0@, tally_views(e.1@)))
}

/// The graph after the edge from `word1` to `word2` was counted once more.
pub open spec fn add_edge(g: GraphView, word1: Seq<char>, word2: Seq<char>) -> GraphView {
    let p = position(entry_keys(g), word1);
    if p >= 0 {
        g.update(p, (word1, add_to(g[p].1, word2, 1)))
    } else {
        g.push((word1, add_to(Seq::empty(), word2, 1)))
    }
}

/// The graph after two words were joined: nothing changes if they are the
/// same word, else the edge is counted in both directions.
pub open spec fn join_words(g: GraphView, word1: Seq<char>, word2: Seq<char>) -> GraphView {
    if word1 == word2 {
        g
    } else {
        add_edge(add_edge(g, word1, word2), word2, word1)
    }
}

/// The graph after the word at `i` was joined with the words after it and
/// before `j`.
pub open spec fn after_pairs(g: GraphView, words: Seq<Seq<char>>, i: int, j: int) -> GraphView
    decreases j - i,
{
    if j <= i + 1 {
        g
    } else {
        join_words(after_pairs(g, words, i, j - 1), words[i], words[j - 1])
    }
}

/// The end of the window of the word at `i`.
pub open spec fn window_stop(len: int, i: int, window_size: int) -> int {
    if i + 1 + window_size < len {
        i + 1 + window_size
    } else {
        len
    }
}

/// The graph after each of the first `i` words was joined with the words
/// of its window.
pub open spec fn after_nodes(words: Seq<Seq<char>>, i: int, window_size: int) -> GraphView
    decreases i,
{
    if i <= 0 {
        Seq::empty()
    } else {
        after_pairs(
            after_nodes(words, i - 1, window_size),
            words,
            i - 1,
            window_stop(words.len() as int, i - 1, window_size),
        )
    }
}

/// The graph of a list of words.
pub open spec fn graph_of(words: Seq<Seq<char>>, window_size: int) -> GraphView {
    after_nodes(words, words.len() as int, window_size)
}

/// The building of the graph behind a word ranking.
pub struct TextRankLogic;

impl TextRankLogic {
    /// Counts the edge from `word1` to `word2` once more.
    pub fn add_edge(graph: &mut Graph, word1: &str, word2: &str)
        ensures
            graph_views(final(graph)@) == add_edge(graph_views(old(graph)@), word1@, word2@),
    {
        let ghost before = graph_views(graph@);
        assert(keys(graph@) =~= entry_keys(before));
        proof {
            lemma_position(entry_keys(before), word1@);
        }
        match find_key(graph, word1) {
            Some(p) => {
                assert(entry_keys(before)[p as int] == word1@);
                add_amount(&mut graph[p].1, word2, 1);
                assert(graph_views(graph@) =~= before.update(
                    p as int,
                    (word1@, add_to(before[p as int].1, word2@, 1)),
                ));
            },
            None => {
                let mut edges: Tally = Vec::new();
                assert(tally_views(edges@) =~= Seq::<Amount>::empty());
                add_amount(&mut edges, word2, 1);
                graph.push((String::from_str(word1), edges));
                assert(graph_views(graph@) =~= before.push(
                    (word1@, add_to(Seq::empty(), word2@, 1)),
                ));
            },
        }
    }

    /// The graph of the words.
    pub fn create_graph(words: &Vec<String>, window_size: usize) -> (r: Graph)
        ensures
            graph_views(r@) == graph_of(views(words@), window_size as int),
    {
        let ghost all = views(words@);
        let n = words.len();
        let mut graph: Graph = Vec::new();
        assert(graph_views(graph@) =~= Seq::empty());
        let mut i: usize = 0;
        while i < n
            invariant
                n == words.len(),
                i <= n,
                all == views(words@),
                graph_views(graph@) == after_nodes(all, i as int, window_size as int),
            decreases n - i,
        {
            let stop: usize = if window_size < n - i - 1 {
                i + 1 + window_size
            } else {
                n
            };
            assert(stop == window_stop(n as int, i as int, window_size as int));
            let ghost row = graph_views(graph@);
            let mut j: usize = i + 1;
            while j < stop
                invariant
                    n == words.len(),
                    i < j <= stop <= n,
                    all == views(words@),
                    graph_views(graph@) == after_pairs(row, all, i as int, j as int),
                decreases stop - j,
            {
                if words[i] != words[j] {
                    Self::add_edge(&mut graph, words[i].as_str(), words[j].as_str());
                    Self::add_edge(&mut graph, words[j].as_str(), words[i].as_str());
                }
                j += 1;
            }
            proof {
                if stop <= i + 1 {
                    assert(after_pairs(row, all, i as int, stop as int) == row);
                }
            }
            i += 1;
        }
        graph
    }
}

} // verus!

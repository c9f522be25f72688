use crate::corpus::{
    bump, corpus_text, graph_add, keys_distinct, lemma_bump_absent, lemma_bump_found,
    lemma_corpus_text_app, lemma_graph_add_absent, lemma_graph_add_found, lemma_pairs_text_app,
    line_text, pairs_text, sat_inc, CorpusEntry,
};
use crate::text::{dec_str, push_decimal};
use vstd::prelude::*;

verus! {

/// One successor of a predecessor word: the word that followed it and the
/// count of times the ordered pair was observed.
struct Node {
    word: String,
    frequency: u32,
}

impl Node {
    /// A successor entry for `word` observed `frequency` times.
    fn new(word: String, frequency: u32) -> (n: Node)
        ensures
            n.word == word,
            n.frequency == frequency,
    {
        Node { word, frequency }
    }
}

/// A word-adjacency graph: one entry per predecessor word, each
/// holding the ordered list of its successors with observation counts.
pub struct UndirectedGraph {
    words: Vec<(String, Vec<Node>)>,
}

impl UndirectedGraph {
    /// The entries of the graph: each predecessor with its ordered
    /// (successor, count) list, in insertion order.
    pub closed spec fn entries(self) -> Seq<CorpusEntry> {
        self.words@.map_values(
            |e: (String, Vec<Node>)|
                (e.0@, e.1@.map_values(|nd: Node| (nd.word@, nd.frequency))),
        )
    }

    /// Each predecessor appears in one entry only, and every entry holds at
    /// least one successor.
    pub closed spec fn wf(self) -> bool {
        &&& keys_distinct(self.entries())
        &&& forall|i: int|
            0 <= i < self.entries().len() ==> (#[trigger] self.entries()[i]).1.len() > 0
    }

    /// A new graph with no entries.
    pub fn new() -> (g: UndirectedGraph)
        ensures
            g.wf(),
            g.entries() == Seq::<CorpusEntry>::empty(),
    {
        let g = UndirectedGraph { words: Vec::new() };
        proof {
            assert(g.entries() =~= Seq::<CorpusEntry>::empty());
        }
        g
    }

    /// Records one observation of `word2` following `word1`: the pair's
    /// count grows by one, or a fresh pair with count 1 is added.
    pub fn add(&mut self, word1: &String, word2: &String)
        requires
            old(self).wf(),
        ensures
            final(self).wf(),
            final(self).entries() == graph_add(old(self).entries(), word1@, word2@),
    {
        let ghost es = old(self).entries();
        match find_key(&self.words, word1) {
            Some(i) => {
                let mut entry = self.words.remove(i);
                let ghost list = es[i as int].1;
                proof {
                    assert(list == entry.1@.map_values(|nd: Node| (nd.word@, nd.frequency)));
                }
                match find_node(&entry.1, word2) {
                    Some(j) => {
                        let mut node = entry.1.remove(j);
                        let ghost f0 = node.frequency;
                        if node.frequency < u32::MAX {
                            node.frequency = node.frequency + 1;
                        }
                        proof {
                            assert(node.frequency == sat_inc(f0));
                        }
                        entry.1.insert(j, node);
                        proof {
                            lemma_bump_found(list, j as int, word2@);
                            assert(entry.1@.map_values(|nd: Node| (nd.word@, nd.frequency))
                                =~~= bump(list, word2@));
                        }
                    },
                    None => {
                        entry.1.push(Node::new(word2.clone(), 1));
                        proof {
                            lemma_bump_absent(list, word2@);
                            assert(entry.1@.map_values(|nd: Node| (nd.word@, nd.frequency))
                                =~~= bump(list, word2@));
                        }
                    },
                }
                self.words.insert(i, entry);
                proof {
                    lemma_graph_add_found(es, i as int, word1@, word2@);
                    assert(self.entries() =~~= graph_add(es, word1@, word2@));
                    assert forall|a: int, b: int|
                        0 <= a < b < self.entries().len() implies self.entries()[a].0
                        != self.entries()[b].0 by {
                        assert(self.entries()[a].0 == es[a].0);
                        assert(self.entries()[b].0 == es[b].0);
                    }
                }
            },
            None => {
                self.words.push((word1.clone(), vec![Node::new(word2.clone(), 1)]));
                proof {
                    lemma_graph_add_absent(es, word1@, word2@);
                    assert(self.entries() =~~= graph_add(es, word1@, word2@));
                    assert forall|a: int, b: int|
                        0 <= a < b < self.entries().len() implies self.entries()[a].0
                        != self.entries()[b].0 by {
                        if b < es.len() {
                            assert(self.entries()[a].0 == es[a].0);
                            assert(self.entries()[b].0 == es[b].0);
                        } else {
                            assert(self.entries()[a].0 == es[a].0);
                            assert(self.entries()[b].0 == word1@);
                        }
                    }
                }
            },
        }
    }

    /// The whole graph in its corpus text form: one line per predecessor,
    /// each successor followed by its count, all tokens space-separated.
    pub fn serialize(&self) -> (out: String)
        ensures
            out@ == corpus_text(self.entries()),
    {
        let ghost es = self.entries();
        let mut out = String::new();
        proof {
            assert(es.take(0) =~= Seq::<CorpusEntry>::empty());
        }
        let n = self.words.len();
        for i in 0..n
            invariant
                n == self.words.len(),
                es == self.entries(),
                out@ == corpus_text(es.take(i as int)),
        {
            let entry = &self.words[i];
            let ghost list = es[i as int].1;
            proof {
                assert(es[i as int].0 == entry.0@);
                assert(list == entry.1@.map_values(|nd: Node| (nd.word@, nd.frequency)));
                assert(list.take(0) =~= Seq::<(Seq<char>, u32)>::empty());
            }
            out.append(entry.0.as_str());
            out.push(' ');
            let m = entry.1.len();
            for j in 0..m
                invariant
                    m == entry.1.len(),
                    list == entry.1@.map_values(|nd: Node| (nd.word@, nd.frequency)),
                    es == self.entries(),
                    i < self.words.len(),
                    n == self.words.len(),
                    entry == &self.words@[i as int],
                    es[i as int].0 == entry.0@,
                    list == es[i as int].1,
                    out@ == corpus_text(es.take(i as int)) + es[i as int].0 + seq![' ']
                        + pairs_text(list.take(j as int)),
            {
                let node = &entry.1[j];
                proof {
                    assert(list[j as int] == (node.word@, node.frequency));
                }
                out.append(node.word.as_str());
                out.push(' ');
                push_decimal(node.frequency, &mut out);
                out.push(' ');
                proof {
                    lemma_pairs_text_app(list.take(j as int), seq![list[j as int]]);
                    assert(list.take(j as int + 1) =~= list.take(j as int) + seq![
                        list[j as int],
                    ]);
                    assert(seq![list[j as int]].skip(1) =~= Seq::<(Seq<char>, u32)>::empty());
                    assert(pairs_text(Seq::<(Seq<char>, u32)>::empty()) =~= Seq::<char>::empty());
                    assert(pairs_text(seq![list[j as int]]) =~= list[j as int].0 + seq![' ']
                        + dec_str(list[j as int].1 as nat) + seq![' ']);
                    assert(out@ =~= corpus_text(es.take(i as int)) + es[i as int].0 + seq![' ']
                        + pairs_text(list.take(j as int + 1)));
                }
            }
            out.push('\n');
            proof {
                lemma_corpus_text_app(es.take(i as int), seq![es[i as int]]);
                assert(es.take(i as int + 1) =~= es.take(i as int) + seq![es[i as int]]);
                assert(list.take(m as int) =~= list);
                assert(seq![es[i as int]].skip(1) =~= Seq::<CorpusEntry>::empty());
                assert(corpus_text(Seq::<CorpusEntry>::empty()) =~= Seq::<char>::empty());
                assert(corpus_text(seq![es[i as int]]) =~= line_text(
                    es[i as int].0,
                    es[i as int].1,
                ));
                assert(out@ =~= corpus_text(es.take(i as int + 1)));
            }
        }
        proof {
            assert(es.take(n as int) =~= es);
        }
        out
    }
}

/// The position of the first entry keyed by `w`, if any.
fn find_key(words: &Vec<(String, Vec<Node>)>, w: &String) -> (r: Option<usize>)
    ensures
        match r {
            Some(i) => i < words.len() && words@[i as int].0@ == w@ && forall|m: int|
                0 <= m < i ==> (#[trigger] words@[m]).0@ != w@,
            None => forall|m: int| 0 <= m < words.len() ==> (#[trigger] words@[m]).0@ != w@,
        },
{
    let n = words.len();
    for i in 0..n
        invariant
            n == words.len(),
            forall|m: int| 0 <= m < i ==> (#[trigger] words@[m]).0@ != w@,
    {
        let entry = &words[i];
        if entry.0 == *w {
            return Some(i);
        }
    }
    None
}

/// The position of the first successor node for `w`, if any.
fn find_node(list: &Vec<Node>, w: &String) -> (r: Option<usize>)
    ensures
        match r {
            Some(j) => j < list.len() && list@[j as int].word@ == w@ && forall|m: int|
                0 <= m < j ==> (#[trigger] list@[m]).word@ != w@,
            None => forall|m: int| 0 <= m < list.len() ==> (#[trigger] list@[m]).word@ != w@,
        },
{
    let n = list.len();
    for j in 0..n
        invariant
            n == list.len(),
            forall|m: int| 0 <= m < j ==> (#[trigger] list@[m]).word@ != w@,
    {
        let node = &list[j];
        if node.word == *w {
            return Some(j);
        }
    }
    None
}

} // verus!

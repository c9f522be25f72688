use crate::corpus::{
    assoc_map, corpus_map, corpus_ok, lemma_assoc_map, lemma_assoc_map_update, odd_tokens,
    CorpusError,
};
use crate::text::{joined, lemma_joined_app, records, records_of, tokens, tokens_of};
use vstd::prelude::*;

verus! {

/// The bigram next-word predictor: for each predecessor word, the ordered
/// successor words loaded from an adjacency corpus.
pub struct Predictor {
    words: Vec<(String, Vec<String>)>,
}

impl Predictor {
    /// The loaded entries: each predecessor with its successor words.
    pub closed spec fn entries(self) -> Seq<(Seq<char>, Seq<Seq<char>>)> {
        self.words.deep_view()
    }

    /// Each predecessor appears in one entry only.
    pub closed spec fn wf(self) -> bool {
        forall|i: int, j: int|
            0 <= i < j < self.entries().len() ==> self.entries()[i].0 != self.entries()[j].0
    }

    /// What the predictor knows: the mapping from predecessor to successors.
    pub closed spec fn model(self) -> Map<Seq<char>, Seq<Seq<char>>> {
        assoc_map(self.entries())
    }

    /// A new predictor that knows no words.
    pub fn new() -> (p: Predictor)
        ensures
            p.wf(),
            p.model() == Map::<Seq<char>, Seq<Seq<char>>>::empty(),
    {
        let p = Predictor { words: Vec::new() };
        proof {
            assert(p.entries() =~= Seq::<(Seq<char>, Seq<Seq<char>>)>::empty());
        }
        p
    }

    /// Loads an adjacency corpus from its text form. Each line names a
    /// predecessor and then successor-count pairs; the tokens at the odd
    /// positions become that predecessor's successors in line order, a later
    /// line for the same predecessor winning. Loading replaces whatever was
    /// loaded before. A line with fewer than two tokens is reported and
    /// leaves the predictor exactly as it was.
    pub fn load(&mut self, corpus: &str) -> (r: Result<(), CorpusError>)
        requires
            old(self).wf(),
        ensures
            final(self).wf(),
            r is Ok <==> corpus_ok(records(corpus@)),
            r is Ok ==> final(self).model() == corpus_map(records(corpus@)),
            r is Err ==> *final(self) == *old(self),
    {
        let lines = records_of(corpus);
        let ghost recs = records(corpus@);
        let ghost self0 = *self;
        let mut new_words: Vec<(String, Vec<String>)> = Vec::new();
        proof {
            assert(recs.take(0) =~= Seq::<Seq<char>>::empty());
            assert(new_words.deep_view() =~= Seq::<(Seq<char>, Seq<Seq<char>>)>::empty());
        }
        let n = lines.len();
        for i in 0..n
            invariant
                n == lines.len(),
                *self == self0,
                self0 == *old(self),
                self0.wf(),
                lines.deep_view() == recs,
                recs == records(corpus@),
                forall|a: int, b: int|
                    0 <= a < b < new_words.deep_view().len() ==> new_words.deep_view()[a].0
                        != new_words.deep_view()[b].0,
                assoc_map(new_words.deep_view()) == corpus_map(recs.take(i as int)),
                forall|j: int| 0 <= j < i ==> tokens(#[trigger] recs[j]).len() >= 2,
        {
            let line = &lines[i];
            proof {
                assert(line@ == recs[i as int]);
            }
            let toks = tokens_of(line.as_str());
            let ghost tv = tokens(recs[i as int]);
            proof {
                assert(toks.deep_view().len() == toks@.len());
            }
            if toks.len() < 2 {
                return Err(CorpusError::MalformedLine);
            }
            let mut succ: Vec<String> = Vec::new();
            let mut j: usize = 1;
            while j < toks.len()
                invariant
                    toks.deep_view() == tv,
                    toks.len() == tv.len(),
                    1 <= j,
                    j % 2 == 1,
                    j <= toks.len() + 1,
                    succ.len() == (j - 1) / 2,
                    forall|m: int|
                        0 <= m < succ.len() ==> #[trigger] succ.deep_view()[m] == tv[2 * m + 1],
                decreases toks.len() + 1 - j,
            {
                let s = toks[j].clone();
                let ghost prev = succ.deep_view();
                succ.push(s);
                proof {
                    assert(succ.deep_view() =~= prev.push(tv[j as int]));
                }
                j = j + 2;
            }
            proof {
                assert(succ.len() == tv.len() / 2);
                assert(succ.deep_view() =~= odd_tokens(tv));
            }
            let key = toks[0].clone();
            proof {
                assert(key@ == tv[0]);
            }
            assoc_set(&mut new_words, key, succ);
            proof {
                assert(recs.take(i as int + 1).drop_last() =~= recs.take(i as int));
                assert(recs.take(i as int + 1).last() == recs[i as int]);
                assert(assoc_map(new_words.deep_view()) == corpus_map(recs.take(i as int + 1)));
            }
        }
        self.words = new_words;
        proof {
            assert(recs.take(n as int) =~= recs);
        }
        Ok(())
    }

    /// The successors recorded for `word`, joined into one string, each
    /// followed by a single space. A word never seen as a predecessor gives
    /// the empty string.
    pub fn predict(&self, word: &String) -> (out: String)
        requires
            self.wf(),
        ensures
            self.model().dom().contains(word@) ==> out@ == joined(self.model()[word@]),
            !self.model().dom().contains(word@) ==> out@ == Seq::<char>::empty(),
    {
        proof {
            lemma_assoc_map(self.entries(), word@);
        }
        match find_entry(&self.words, word) {
            Some(i) => {
                let list = &self.words[i].1;
                let ghost lv = self.entries()[i as int].1;
                proof {
                    assert(self.entries()[i as int].0 == word@);
                    assert(self.model().dom().contains(word@));
                    assert(self.model()[word@] == lv);
                    assert(lv == list.deep_view());
                    assert(lv.take(0) =~= Seq::<Seq<char>>::empty());
                }
                let mut out = String::new();
                let m = list.len();
                for j in 0..m
                    invariant
                        m == list.len(),
                        lv == list.deep_view(),
                        out@ == joined(lv.take(j as int)),
                {
                    proof {
                        assert(lv[j as int] == list@[j as int]@);
                    }
                    out.append(list[j].as_str());
                    out.push(' ');
                    proof {
                        lemma_joined_app(lv.take(j as int), seq![lv[j as int]]);
                        assert(lv.take(j as int + 1) =~= lv.take(j as int) + seq![lv[j as int]]);
                        assert(seq![lv[j as int]].skip(1) =~= Seq::<Seq<char>>::empty());
                        assert(joined(Seq::<Seq<char>>::empty()) =~= Seq::<char>::empty());
                        assert(joined(seq![lv[j as int]]) =~= lv[j as int] + seq![' ']);
                        assert(out@ =~= joined(lv.take(j as int + 1)));
                    }
                }
                proof {
                    assert(lv.take(m as int) =~= lv);
                }
                out
            },
            None => {
                proof {
                    if self.model().dom().contains(word@) {
                        let i = choose|i: int|
                            0 <= i < self.entries().len() && (#[trigger] self.entries()[i]).0
                                == word@;
                        assert(false);
                    }
                }
                String::new()
            },
        }
    }
}

/// The position of the first entry keyed by `w`, if any.
fn find_entry(words: &Vec<(String, Vec<String>)>, w: &String) -> (r: Option<usize>)
    ensures
        match r {
            Some(i) => i < words.len() && words.deep_view()[i as int].0 == w@ && forall|m: int|
                0 <= m < i ==> (#[trigger] words.deep_view()[m]).0 != w@,
            None => forall|m: int|
                0 <= m < words.len() ==> (#[trigger] words.deep_view()[m]).0 != w@,
        },
{
    let n = words.len();
    for i in 0..n
        invariant
            n == words.len(),
            forall|m: int| 0 <= m < i ==> (#[trigger] words.deep_view()[m]).0 != w@,
    {
        let entry = &words[i];
        proof {
            assert(words.deep_view()[i as int].0 == entry.0@);
        }
        if entry.0 == *w {
            return Some(i);
        }
    }
    None
}

/// Sets `key` to `val` in the association list: replaces the one entry with
/// that key, or appends a fresh one at the end.
fn assoc_set(words: &mut Vec<(String, Vec<String>)>, key: String, val: Vec<String>)
    requires
        forall|a: int, b: int|
            0 <= a < b < old(words).deep_view().len() ==> (#[trigger] old(words).deep_view()[a]).0
                != (#[trigger] old(words).deep_view()[b]).0,
    ensures
        forall|a: int, b: int|
            0 <= a < b < final(words).deep_view().len()
                ==> (#[trigger] final(words).deep_view()[a]).0
                != (#[trigger] final(words).deep_view()[b]).0,
        assoc_map(final(words).deep_view()) == assoc_map(old(words).deep_view()).insert(
            key@,
            val.deep_view(),
        ),
{
    let ghost es = words.deep_view();
    let ghost kv = key@;
    let ghost vv = val.deep_view();
    match find_entry(words, &key) {
        Some(i) => {
            let _replaced = words.remove(i);
            words.insert(i, (key, val));
            proof {
                assert(words.deep_view() =~~= es.update(i as int, (kv, vv)));
                lemma_assoc_map_update(es, i as int, vv);
                assert(es[i as int].0 == kv);
                assert forall|a: int, b: int|
                    0 <= a < b < words.deep_view().len() implies words.deep_view()[a].0
                    != words.deep_view()[b].0 by {
                    if a != i && b != i {
                        assert(words.deep_view()[a].0 == es[a].0);
                        assert(words.deep_view()[b].0 == es[b].0);
                    } else if a == i {
                        assert(words.deep_view()[a].0 == es[a].0);
                        assert(words.deep_view()[b].0 == es[b].0);
                    } else {
                        assert(words.deep_view()[a].0 == es[a].0);
                        assert(words.deep_view()[b].0 == es[b].0);
                    }
                }
            }
        },
        None => {
            words.push((key, val));
            proof {
                assert(words.deep_view() =~~= es.push((kv, vv)));
                assert(words.deep_view().drop_last() =~= es);
                assert(words.deep_view().last() == (kv, vv));
                assert(assoc_map(words.deep_view()) == assoc_map(es).insert(kv, vv));
                assert forall|a: int, b: int|
                    0 <= a < b < words.deep_view().len() implies words.deep_view()[a].0
                    != words.deep_view()[b].0 by {
                    if b < es.len() {
                        assert(words.deep_view()[a].0 == es[a].0);
                        assert(words.deep_view()[b].0 == es[b].0);
                    } else {
                        assert(words.deep_view()[a].0 == es[a].0);
                        assert(words.deep_view()[b].0 == kv);
                    }
                }
            }
        },
    }
}

} // verus!

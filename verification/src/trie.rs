use crate::text::{joined, lemma_joined_app, records, records_of};
use vstd::prelude::*;

verus! {

/// Whether every character of `w` is a lowercase ASCII letter.
pub open spec fn all_lower(w: Seq<char>) -> bool {
    forall|k: int| 0 <= k < w.len() ==> is_lower_alpha(#[trigger] w[k])
}

/// The characters a trie path may hold: the lowercase ASCII letters.
pub open spec fn is_lower_alpha(c: char) -> bool {
    97 <= c as int && c as int <= 122
}

/// The child slot a letter is kept in: 0 for 'a' up to 25 for 'z'.
pub open spec fn letter_index(c: char) -> int {
    c as int - 97
}

/// Whether `p` is a prefix of `u`.
pub open spec fn is_prefix_of(p: Seq<char>, u: Seq<char>) -> bool {
    p.len() <= u.len() && u.take(p.len() as int) == p
}

/// The error a trie operation reports: the input held a character outside
/// the supported range of lowercase ASCII letters.
#[derive(Debug, Clone, Copy, PartialEq, Eq)]
pub enum TrieError {
    UnsupportedChar,
}

/// One node of the prefix tree: the letter it stands for, a marker for the
/// end of an inserted word, and one optional child per letter.
struct TrieNode {
    data: char,
    is_end_of_word: bool,
    children: Vec<Option<Box<TrieNode>>>,
}

impl TrieNode {
    /// Every node has exactly 26 child slots; the child in slot `i`, when
    /// present, holds the `i`-th letter and is itself well formed.
    spec fn wf(self) -> bool
        decreases self,
    {
        &&& self.children.len() == 26
        &&& forall|i: int|
            0 <= i < 26 ==> match #[trigger] self.children[i] {
                Some(child) => {
                    &&& is_lower_alpha(child.data)
                    &&& letter_index(child.data) == i
                    &&& child.wf()
                },
                None => true,
            }
    }

    /// The node reached from this one by walking the letters of `p`, or
    /// `None` when the walk falls off the tree.
    spec fn walk(self, p: Seq<char>) -> Option<TrieNode>
        decreases p.len(),
    {
        if p.len() == 0 {
            Some(self)
        } else if !is_lower_alpha(p[0]) {
            None
        } else {
            match self.children[letter_index(p[0])] {
                Some(child) => child.walk(p.skip(1)),
                None => None,
            }
        }
    }

    /// Whether the letter sequence `w`, walked from this node, ends on a
    /// node marked as the end of a word.
    spec fn holds_word(self, w: Seq<char>) -> bool {
        match self.walk(w) {
            Some(n) => n.is_end_of_word,
            None => false,
        }
    }

    /// The words in this subtree, in traversal order: the empty word first
    /// when this node itself ends a word, then the words under each child,
    /// in letter order.
    spec fn word_list(self) -> Seq<Seq<char>>
        decreases self, 1int, 0int,
    {
        own_words(self) + self.word_list_range(0, 26)
    }

    /// The words contributed by the child slots in `[lo, hi)`.
    spec fn word_list_range(self, lo: int, hi: int) -> Seq<Seq<char>>
        decreases self, 0int, hi - lo,
    {
        if !(0 <= lo && lo < hi && hi <= 26 && self.children.len() == 26) {
            seq![]
        } else {
            (match self.children[lo] {
                Some(child) => child.word_list().map_values(
                    |suffix: Seq<char>| seq![child.data] + suffix,
                ),
                None => seq![],
            }) + self.word_list_range(lo + 1, hi)
        }
    }

    /// The words contributed by child slot `i` alone.
    spec fn slot_words(self, i: int) -> Seq<Seq<char>> {
        match self.children[i] {
            Some(child) => child.word_list().map_values(
                |suffix: Seq<char>| seq![child.data] + suffix,
            ),
            None => seq![],
        }
    }

    /// A fresh node for the letter `data`: no children, not the end of a word.
    fn new(data: char) -> (n: TrieNode)
        ensures
            n.wf(),
            n.data == data,
            !n.is_end_of_word,
            forall|w: Seq<char>| !n.holds_word(w),
    {
        let mut default_children: Vec<Option<Box<TrieNode>>> = Vec::new();
        for _i in 0..26
            invariant
                default_children.len() == _i,
                forall|j: int| 0 <= j < _i ==> default_children[j] is None,
        {
            default_children.push(None);
        }
        let n = TrieNode { data, is_end_of_word: false, children: default_children };
        assert forall|w: Seq<char>| !n.holds_word(w) by {
            if w.len() != 0 && is_lower_alpha(w[0]) {
                assert(n.children[letter_index(w[0])] is None);
            }
        }
        n
    }

    /// Marks the path `w[i..]` under this node as a word, growing the
    /// missing nodes along the way. Every other word is untouched.
    fn insert_rec(&mut self, w: &Vec<char>, i: usize)
        requires
            old(self).wf(),
            i <= w.len(),
            forall|k: int| i <= k < w@.len() ==> is_lower_alpha(#[trigger] w@[k]),
        ensures
            final(self).wf(),
            final(self).data == old(self).data,
            forall|u: Seq<char>|
                final(self).holds_word(u) <==> old(self).holds_word(u) || u == w@.skip(i as int),
        decreases w.len() - i,
    {
        if i == w.len() {
            self.is_end_of_word = true;
            proof {
                assert(w@.skip(i as int) =~= Seq::<char>::empty());
                assert forall|u: Seq<char>|
                    self.holds_word(u) <==> (old(self).holds_word(u) || u == w@.skip(
                        i as int,
                    )) by {
                    if u.len() == 0 {
                        assert(u =~= w@.skip(i as int));
                    } else {
                        assert(self.children == old(self).children);
                        assert(self.walk(u) == old(self).walk(u));
                    }
                }
            }
        } else {
            let c = w[i];
            let idx = letter_slot(c);
            let slot = self.children.remove(idx);
            let mut cnode: TrieNode = match slot {
                Some(b) => *b,
                None => TrieNode::new(c),
            };
            let ghost cnode0 = cnode;
            proof {
                assert(match old(self).children[idx as int] {
                    Some(child) => cnode0 == *child && cnode0.wf() && cnode0.data == c,
                    None => !cnode0.is_end_of_word && cnode0.wf() && cnode0.data == c,
                });
            }
            cnode.insert_rec(w, i + 1);
            self.children.insert(idx, Some(Box::new(cnode)));
            proof {
                assert(self.children@ =~= old(self).children@.update(
                    idx as int,
                    Some(Box::new(cnode)),
                ));
                assert forall|j: int| 0 <= j < 26 implies match #[trigger] self.children[j] {
                    Some(child) => {
                        &&& is_lower_alpha(child.data)
                        &&& letter_index(child.data) == j
                        &&& child.wf()
                    },
                    None => true,
                } by {
                    if j != idx {
                        assert(self.children[j] == old(self).children[j]);
                    }
                }
                assert(w@.skip(i as int)[0] == w@[i as int]);
                assert forall|u: Seq<char>|
                    self.holds_word(u) <==> (old(self).holds_word(u) || u == w@.skip(
                        i as int,
                    )) by {
                    if u.len() == 0 {
                        assert(self.walk(u) == Some(*self));
                        assert(old(self).walk(u) == Some(*old(self)));
                    } else if !is_lower_alpha(u[0]) {
                        assert(self.walk(u) is None);
                        assert(old(self).walk(u) is None);
                    } else if letter_index(u[0]) != idx {
                        assert(self.children[letter_index(u[0])] == old(self).children[
                        letter_index(u[0])]);
                        assert(self.walk(u) == old(self).walk(u));
                    } else {
                        assert(u[0] == c);
                        assert(self.holds_word(u) == cnode.holds_word(u.skip(1)));
                        assert(old(self).holds_word(u) == cnode0.holds_word(u.skip(1)));
                        if u.skip(1) == w@.skip(i as int + 1) {
                            assert forall|k: int| 0 <= k < u.len() implies u[k] == w@.skip(
                                i as int,
                            )[k] by {
                                if k > 0 {
                                    assert(u[k] == u.skip(1)[k - 1]);
                                    assert(w@.skip(i as int)[k] == w@.skip(i as int + 1)[k - 1]);
                                }
                            }
                            assert(u =~= w@.skip(i as int));
                        }
                        if u == w@.skip(i as int) {
                            assert(u.skip(1) =~= w@.skip(i as int + 1));
                        }
                    }
                }
            }
        }
    }

    /// Appends to `out` every word of this subtree, each put after the
    /// prefix `cur` and followed by a single space, in traversal order.
    fn append_words(&self, cur: &String, out: &mut String)
        requires
            self.wf(),
        ensures
            final(out)@ == old(out)@ + joined(prefixed(self.word_list(), cur@)),
        decreases *self,
    {
        if self.is_end_of_word {
            out.append(cur.as_str());
            out.push(' ');
        }
        proof {
            assert(self.word_list_range(0, 0) =~~= Seq::<Seq<char>>::empty());
            if self.is_end_of_word {
                let ws = prefixed(own_words(*self), cur@);
                assert(ws.len() == 1);
                assert(ws[0] =~= cur@);
                assert(ws.skip(1).len() == 0);
                assert(joined(ws.skip(1)) =~= Seq::<char>::empty());
                assert(joined(ws) =~= ws[0] + seq![' '] + joined(ws.skip(1)));
                assert(joined(prefixed(own_words(*self), cur@)) =~= cur@ + seq![' ']);
                assert(out@ =~= old(out)@ + joined(
                    prefixed(own_words(*self) + self.word_list_range(0, 0), cur@),
                ));
            } else {
                assert(prefixed(own_words(*self), cur@) =~~= Seq::<Seq<char>>::empty());
                assert(out@ =~= old(out)@ + joined(
                    prefixed(own_words(*self) + self.word_list_range(0, 0), cur@),
                ));
            }
        }
        let mut k: usize = 0;
        while k < 26
            invariant
                self.wf(),
                k <= 26,
                out@ == old(out)@ + joined(
                    prefixed(own_words(*self) + self.word_list_range(0, k as int), cur@),
                ),
            decreases 26 - k,
        {
            let ghost sofar = own_words(*self) + self.word_list_range(0, k as int);
            let slot = &self.children[k];
            match slot {
                Some(b) => {
                    let child: &TrieNode = &**b;
                    let mut next = cur.clone();
                    next.push(child.data);
                    proof {
                        assert(child.wf());
                        assert(next@ =~= cur@ + seq![child.data]);
                    }
                    child.append_words(&next, out);
                    proof {
                        assert(prefixed(self.slot_words(k as int), cur@) =~~= prefixed(
                            child.word_list(),
                            next@,
                        ));
                        lemma_range_snoc(*self, 0, k as int);
                        assert(sofar + self.slot_words(k as int) =~~= own_words(*self)
                            + self.word_list_range(0, k as int + 1));
                        assert(prefixed(sofar + self.slot_words(k as int), cur@) =~~= prefixed(
                            sofar,
                            cur@,
                        ) + prefixed(self.slot_words(k as int), cur@));
                        lemma_joined_app(
                            prefixed(sofar, cur@),
                            prefixed(self.slot_words(k as int), cur@),
                        );
                        assert(out@ =~= old(out)@ + joined(
                            prefixed(own_words(*self) + self.word_list_range(0, k as int + 1), cur@),
                        ));
                    }
                },
                None => {
                    proof {
                        lemma_range_snoc(*self, 0, k as int);
                        assert(self.slot_words(k as int) =~~= Seq::<Seq<char>>::empty());
                        assert(own_words(*self) + self.word_list_range(0, k as int + 1) =~~= sofar);
                    }
                },
            }
            k = k + 1;
        }
        proof {
            assert(self.word_list() =~~= own_words(*self) + self.word_list_range(0, 26));
        }
    }
}

/// The word this node contributes by itself: the empty word when the node
/// ends a word, nothing otherwise.
spec fn own_words(n: TrieNode) -> Seq<Seq<char>> {
    if n.is_end_of_word {
        seq![Seq::<char>::empty()]
    } else {
        seq![]
    }
}

/// Each word of `ws` with `pre` put in front of it.
spec fn prefixed(ws: Seq<Seq<char>>, pre: Seq<char>) -> Seq<Seq<char>> {
    ws.map_values(|suffix: Seq<char>| pre + suffix)
}

/// A slot range grows at its upper end by the words of the new slot.
proof fn lemma_range_snoc(n: TrieNode, lo: int, hi: int)
    requires
        0 <= lo <= hi < 26,
        n.children.len() == 26,
    ensures
        n.word_list_range(lo, hi + 1) == n.word_list_range(lo, hi) + n.slot_words(hi),
    decreases hi - lo,
{
    if lo == hi {
        assert(n.word_list_range(lo + 1, lo + 1) =~~= Seq::<Seq<char>>::empty());
        assert(n.word_list_range(lo, lo) =~~= Seq::<Seq<char>>::empty());
        assert(n.word_list_range(lo, lo + 1) =~~= n.slot_words(lo) + n.word_list_range(
            lo + 1,
            lo + 1,
        ));
        assert(n.word_list_range(lo, lo + 1) =~~= n.word_list_range(lo, lo) + n.slot_words(lo));
    } else {
        lemma_range_snoc(n, lo + 1, hi);
        assert(n.word_list_range(lo, hi + 1) =~~= n.slot_words(lo) + n.word_list_range(
            lo + 1,
            hi + 1,
        ));
        assert(n.word_list_range(lo, hi + 1) =~~= n.word_list_range(lo, hi) + n.slot_words(hi));
    }
}

/// Walking `p` is walking its first `i` letters, then the rest.
proof fn lemma_walk_split(n: TrieNode, p: Seq<char>, i: int)
    requires
        0 <= i <= p.len(),
    ensures
        n.walk(p) == (match n.walk(p.take(i)) {
            Some(m) => m.walk(p.skip(i)),
            None => None::<TrieNode>,
        }),
    decreases i,
{
    if i == 0 {
        assert(p.take(0) =~= Seq::<char>::empty());
        assert(p.skip(0) =~= p);
    } else {
        assert(p.take(i)[0] == p[0]);
        if is_lower_alpha(p[0]) {
            match n.children[letter_index(p[0])] {
                Some(child) => {
                    lemma_walk_split(*child, p.skip(1), i - 1);
                    assert(p.skip(1).take(i - 1) =~= p.take(i).skip(1));
                    assert(p.skip(1).skip(i - 1) =~= p.skip(i));
                },
                None => {},
            }
        }
    }
}

/// A prefix tree over lowercase ASCII words, for word-level completion.
pub struct Trie {
    root: TrieNode,
}

impl Trie {
    /// The tree is well formed.
    pub closed spec fn wf(self) -> bool {
        self.root.wf()
    }

    /// The words held by the tree: `insert` adds to this set and `predict`
    /// reports from it.
    pub closed spec fn contains(self, w: Seq<char>) -> bool {
        self.root.holds_word(w)
    }

    /// A new, empty tree: it contains no word at all.
    pub fn new() -> (t: Trie)
        ensures
            t.wf(),
            forall|w: Seq<char>| !t.contains(w),
    {
        Trie { root: TrieNode::new('*') }
    }

    /// Inserts `word` into the tree. Words may hold only lowercase ASCII
    /// letters; any other character is reported and leaves the tree as it
    /// was. Inserting a word the tree already holds changes nothing it
    /// reports.
    pub fn insert(&mut self, word: &str) -> (r: Result<(), TrieError>)
        requires
            old(self).wf(),
        ensures
            final(self).wf(),
            r is Ok <==> (forall|k: int| 0 <= k < word@.len() ==> is_lower_alpha(#[trigger] word@[k])),
            r is Ok ==> forall|u: Seq<char>|
                final(self).contains(u) <==> old(self).contains(u) || u == word@,
            r is Err ==> *final(self) == *old(self),
    {
        let n = word.unicode_len();
        let mut chars: Vec<char> = Vec::new();
        let ghost self0 = *self;
        for i in 0..n
            invariant
                n == word@.len(),
                *self == self0,
                self0 == *old(self),
                self0.wf(),
                chars@ =~= word@.take(i as int),
                forall|k: int| 0 <= k < i ==> is_lower_alpha(#[trigger] word@[k]),
        {
            let c = word.get_char(i);
            let cu = c as u32;
            if cu < 97 || cu > 122 {
                return Err(TrieError::UnsupportedChar);
            }
            chars.push(c);
            proof {
                assert(chars@ =~= word@.take(i as int + 1));
            }
        }
        proof {
            assert(chars@ =~= word@);
        }
        self.root.insert_rec(&chars, 0);
        proof {
            assert(chars@.skip(0) =~= word@);
        }
        Ok(())
    }

    /// Loads a newline-delimited vocabulary: every nonempty line becomes one
    /// word of the tree. A line with a character outside the lowercase
    /// letters is reported and leaves the tree exactly as it was.
    pub fn load(&mut self, vocab_text: &str) -> (r: Result<(), TrieError>)
        requires
            old(self).wf(),
        ensures
            final(self).wf(),
            r is Ok <==> (forall|j: int|
                0 <= j < records(vocab_text@).len() ==> all_lower(#[trigger] records(vocab_text@)[j])),
            r is Ok ==> forall|u: Seq<char>|
                final(self).contains(u) <==> old(self).contains(u) || (records(
                    vocab_text@,
                ).contains(u) && u.len() > 0),
            r is Err ==> *final(self) == *old(self),
    {
        let lines = records_of(vocab_text);
        let ghost recs = records(vocab_text@);
        let ghost self0 = *self;
        let mut i: usize = 0;
        while i < lines.len()
            invariant
                *self == self0,
                self0 == *old(self),
                self0.wf(),
                i <= lines.len(),
                lines.deep_view() == recs,
                recs == records(vocab_text@),
                forall|j: int| 0 <= j < i ==> all_lower(#[trigger] recs[j]),
            decreases lines.len() - i,
        {
            let line = &lines[i];
            proof {
                assert(line@ == recs[i as int]);
            }
            if !all_lower_str(line.as_str()) {
                return Err(TrieError::UnsupportedChar);
            }
            i = i + 1;
        }
        let mut i: usize = 0;
        while i < lines.len()
            invariant
                self.wf(),
                self0 == *old(self),
                i <= lines.len(),
                lines.deep_view() == recs,
                recs == records(vocab_text@),
                forall|j: int| 0 <= j < recs.len() ==> all_lower(#[trigger] recs[j]),
                forall|u: Seq<char>|
                    (#[trigger] self.contains(u)) <==> self0.contains(u) || vocab_set(
                        recs,
                        i as int,
                    ).contains(u),
            decreases lines.len() - i,
        {
            let line = &lines[i];
            proof {
                assert(line@ == recs[i as int]);
            }
            let ghost before = *self;
            if line.unicode_len() > 0 {
                let inserted = self.insert(line.as_str());
                proof {
                    assert(inserted is Ok);
                    assert(vocab_set(recs, i as int + 1) == vocab_set(recs, i as int).insert(
                        recs[i as int],
                    ));
                    assert forall|u: Seq<char>|
                        (#[trigger] self.contains(u)) <==> (self0.contains(u) || vocab_set(
                            recs,
                            i as int + 1,
                        ).contains(u)) by {
                        assert(self.contains(u) <==> before.contains(u) || u == line@);
                        assert(before.contains(u) <==> self0.contains(u) || vocab_set(
                            recs,
                            i as int,
                        ).contains(u));
                        assert(vocab_set(recs, i as int + 1).contains(u) <==> vocab_set(
                            recs,
                            i as int,
                        ).contains(u) || u == recs[i as int]);
                    }
                }
            } else {
                proof {
                    assert(line@.len() == 0);
                    assert(vocab_set(recs, i as int + 1) == vocab_set(recs, i as int));
                }
            }
            i = i + 1;
        }
        proof {
            lemma_vocab_set(recs, recs.len() as int);
            assert forall|u: Seq<char>|
                self.contains(u) <==> (self0.contains(u) || (recs.contains(u) && u.len()
                    > 0)) by {
                assert(self.contains(u) <==> self0.contains(u) || vocab_set(
                    recs,
                    recs.len() as int,
                ).contains(u));
                if recs.contains(u) && u.len() > 0 {
                    let j = choose|j: int| 0 <= j < recs.len() && recs[j] == u;
                    assert(0 <= j < recs.len() && recs[j] == u && u.len() > 0);
                    assert(exists|k: int| 0 <= k < recs.len() && #[trigger] recs[k] == u && u.len() > 0);
                    assert(vocab_set(recs, recs.len() as int).contains(u));
                }
                if vocab_set(recs, recs.len() as int).contains(u) {
                    let j = choose|j: int|
                        0 <= j < recs.len() && #[trigger] recs[j] == u && u.len() > 0;
                    assert(recs[j] == u);
                    assert(recs.contains(u));
                }
            }
        }
        Ok(())
    }

    /// The completions the tree reports for `prefix`, in traversal order:
    /// every held word that starts with `prefix`, or nothing when the walk
    /// along `prefix` falls off the tree.
    pub closed spec fn completions(self, prefix: Seq<char>) -> Seq<Seq<char>> {
        match self.root.walk(prefix) {
            Some(n) => prefixed(n.word_list(), prefix),
            None => seq![],
        }
    }

    /// All words the tree holds that start with `phrase`, joined into one
    /// string, each followed by a single space. An unreachable prefix gives
    /// the empty string.
    pub fn predict(&self, phrase: &str) -> (out: String)
        requires
            self.wf(),
        ensures
            out@ == joined(self.completions(phrase@)),
    {
        let n = phrase.unicode_len();
        let mut node: &TrieNode = &self.root;
        let mut i: usize = 0;
        proof {
            assert(phrase@.take(0) =~= Seq::<char>::empty());
        }
        while i < n
            invariant
                n == phrase@.len(),
                i <= n,
                self.wf(),
                self.root.walk(phrase@.take(i as int)) == Some(*node),
                node.wf(),
            decreases n - i,
        {
            let c = phrase.get_char(i);
            let cu = c as u32;
            if cu < 97 || cu > 122 {
                proof {
                    lemma_walk_split(self.root, phrase@, i as int);
                    assert(phrase@.skip(i as int)[0] == phrase@[i as int]);
                    assert(self.completions(phrase@) =~~= Seq::<Seq<char>>::empty());
                }
                return String::new();
            }
            let idx = letter_slot(c);
            let slot = &node.children[idx];
            match slot {
                Some(b) => {
                    proof {
                        lemma_walk_split(self.root, phrase@.take(i as int + 1), i as int);
                        assert(phrase@.take(i as int + 1).take(i as int) =~= phrase@.take(i as int));
                        assert(phrase@.take(i as int + 1).skip(i as int) =~= seq![
                            phrase@[i as int],
                        ]);
                        assert(seq![phrase@[i as int]].skip(1) =~= Seq::<char>::empty());
                        assert(node.children[letter_index(phrase@[i as int])] == Some(*b));
                        assert((**b).walk(Seq::<char>::empty()) == Some(**b));
                        assert(node.walk(seq![phrase@[i as int]]) == Some(**b));
                        assert(self.root.walk(phrase@.take(i as int + 1)) == Some(**b));
                        assert((**b).wf());
                    }
                    node = &**b;
                    i = i + 1;
                },
                None => {
                    proof {
                        lemma_walk_split(self.root, phrase@, i as int);
                        assert(phrase@.skip(i as int)[0] == phrase@[i as int]);
                        assert(self.completions(phrase@) =~~= Seq::<Seq<char>>::empty());
                    }
                    return String::new();
                },
            }
        }
        proof {
            assert(phrase@.take(n as int) =~= phrase@);
        }
        let mut out = String::new();
        let pre = phrase.to_owned();
        node.append_words(&pre, &mut out);
        proof {
            assert(out@ =~= joined(self.completions(phrase@)));
        }
        out
    }
}

/// The set of nonempty words among the first `i` records of `rs`.
spec fn vocab_set(rs: Seq<Seq<char>>, i: int) -> Set<Seq<char>>
    decreases i,
{
    if i <= 0 {
        Set::empty()
    } else if rs[i - 1].len() > 0 {
        vocab_set(rs, i - 1).insert(rs[i - 1])
    } else {
        vocab_set(rs, i - 1)
    }
}

/// The words of `vocab_set` are exactly the nonempty records.
proof fn lemma_vocab_set(rs: Seq<Seq<char>>, i: int)
    requires
        0 <= i <= rs.len(),
    ensures
        forall|u: Seq<char>| #[trigger]
            vocab_set(rs, i).contains(u) <==> (exists|j: int|
                0 <= j < i && #[trigger] rs[j] == u && u.len() > 0),
    decreases i,
{
    if i > 0 {
        lemma_vocab_set(rs, i - 1);
        assert forall|u: Seq<char>| #[trigger]
            vocab_set(rs, i).contains(u) <==> (exists|j: int|
                0 <= j < i && #[trigger] rs[j] == u && u.len() > 0) by {
            if vocab_set(rs, i).contains(u) {
                if vocab_set(rs, i - 1).contains(u) {
                    let j = choose|j: int| 0 <= j < i - 1 && #[trigger] rs[j] == u && u.len() > 0;
                    assert(0 <= j < i && rs[j] == u && u.len() > 0);
                } else {
                    assert(rs[i - 1] == u && u.len() > 0);
                }
            } else {
                if exists|j: int| 0 <= j < i && #[trigger] rs[j] == u && u.len() > 0 {
                    let j = choose|j: int| 0 <= j < i && #[trigger] rs[j] == u && u.len() > 0;
                    if j < i - 1 {
                        assert(exists|k: int| 0 <= k < i - 1 && #[trigger] rs[k] == u && u.len() > 0);
                        assert(vocab_set(rs, i - 1).contains(u));
                        assert(false);
                    } else {
                        assert(rs[i - 1] == u && u.len() > 0);
                        assert(vocab_set(rs, i).contains(u));
                        assert(false);
                    }
                }
            }
        }
    }
}

/// Whether every character of `w` is a lowercase ASCII letter.
fn all_lower_str(w: &str) -> (r: bool)
    ensures
        r == all_lower(w@),
{
    let n = w.unicode_len();
    for i in 0..n
        invariant
            n == w@.len(),
            forall|k: int| 0 <= k < i ==> is_lower_alpha(#[trigger] w@[k]),
    {
        let c = w.get_char(i);
        let cu = c as u32;
        if cu < 97 || cu > 122 {
            return false;
        }
    }
    true
}

/// Every node a walk reaches in a well formed tree is well formed.
proof fn lemma_walk_wf(n: TrieNode, p: Seq<char>)
    requires
        n.wf(),
    ensures
        match n.walk(p) {
            Some(m) => m.wf(),
            None => true,
        },
    decreases p.len(),
{
    if p.len() > 0 && is_lower_alpha(p[0]) {
        match n.children[letter_index(p[0])] {
            Some(child) => {
                lemma_walk_wf(*child, p.skip(1));
            },
            None => {},
        }
    }
}

/// Every word in a well formed node's word list is held under that node.
proof fn lemma_word_list_sound(n: TrieNode)
    requires
        n.wf(),
    ensures
        forall|j: int|
            0 <= j < n.word_list().len() ==> n.holds_word(#[trigger] n.word_list()[j]),
    decreases n, 1int, 0int,
{
    lemma_range_sound(n, 0, 26);
    assert forall|j: int|
        0 <= j < n.word_list().len() implies n.holds_word(#[trigger] n.word_list()[j]) by {
        let own = own_words(n);
        if j < own.len() {
            assert(n.word_list()[j] == Seq::<char>::empty());
            assert(n.walk(n.word_list()[j]) == Some(n));
        } else {
            assert(n.word_list()[j] == n.word_list_range(0, 26)[j - own.len()]);
        }
    }
}

/// Every word a slot range lists is held under the node.
proof fn lemma_range_sound(n: TrieNode, lo: int, hi: int)
    requires
        n.wf(),
        0 <= lo <= hi <= 26,
    ensures
        forall|j: int|
            0 <= j < n.word_list_range(lo, hi).len() ==> n.holds_word(
                #[trigger] n.word_list_range(lo, hi)[j],
            ),
    decreases n, 0int, hi - lo,
{
    if lo < hi {
        lemma_range_sound(n, lo + 1, hi);
        match n.children[lo] {
            Some(child) => {
                lemma_word_list_sound(*child);
                assert forall|j: int|
                    0 <= j < n.word_list_range(lo, hi).len() implies n.holds_word(
                    #[trigger] n.word_list_range(lo, hi)[j],
                ) by {
                    let cl = child.word_list().len() as int;
                    if j < cl {
                        let x = child.word_list()[j];
                        assert(n.word_list_range(lo, hi)[j] == seq![child.data] + x);
                        assert(child.holds_word(x));
                        assert((seq![child.data] + x)[0] == child.data);
                        assert((seq![child.data] + x).skip(1) =~= x);
                        assert(n.walk(seq![child.data] + x) == child.walk(x));
                    } else {
                        assert(n.word_list_range(lo, hi)[j] == n.word_list_range(lo + 1, hi)[j
                            - cl]);
                    }
                }
            },
            None => {
                assert forall|j: int|
                    0 <= j < n.word_list_range(lo, hi).len() implies n.holds_word(
                    #[trigger] n.word_list_range(lo, hi)[j],
                ) by {
                    assert(n.word_list_range(lo, hi)[j] == n.word_list_range(lo + 1, hi)[j]);
                }
            },
        }
    }
}

/// Every word held under a node appears in its word list.
proof fn lemma_word_list_complete(n: TrieNode, u: Seq<char>)
    requires
        n.wf(),
        n.holds_word(u),
    ensures
        n.word_list().contains(u),
    decreases u.len(),
{
    if u.len() == 0 {
        assert(u =~= Seq::<char>::empty());
        assert(n.is_end_of_word);
        assert(n.word_list()[0] == u);
        assert(n.word_list().contains(u));
    } else {
        let idx = letter_index(u[0]);
        assert(is_lower_alpha(u[0]));
        match n.children[idx] {
            Some(child) => {
                assert(n.holds_word(u) == child.holds_word(u.skip(1)));
                lemma_word_list_complete(*child, u.skip(1));
                let j = choose|j: int|
                    0 <= j < child.word_list().len() && child.word_list()[j] == u.skip(1);
                assert(n.slot_words(idx)[j] == seq![child.data] + u.skip(1));
                assert(child.data == u[0]);
                assert(seq![child.data] + u.skip(1) =~= u);
                assert(n.slot_words(idx).contains(u));
                lemma_range_covers(n, 0, idx, 26, u);
                let k = choose|k: int|
                    0 <= k < n.word_list_range(0, 26).len() && n.word_list_range(0, 26)[k] == u;
                assert(n.word_list()[own_words(n).len() + k] == u);
                assert(n.word_list().contains(u));
            },
            None => {
                assert(false);
            },
        }
    }
}

/// A word listed by one slot is listed by any slot range around it.
proof fn lemma_range_covers(n: TrieNode, lo: int, k: int, hi: int, x: Seq<char>)
    requires
        n.children.len() == 26,
        0 <= lo <= k < hi <= 26,
        n.slot_words(k).contains(x),
    ensures
        n.word_list_range(lo, hi).contains(x),
    decreases hi - k,
{
    if hi == k + 1 {
        lemma_range_snoc(n, lo, k);
        let j = choose|j: int| 0 <= j < n.slot_words(k).len() && n.slot_words(k)[j] == x;
        assert(n.word_list_range(lo, hi)[n.word_list_range(lo, k).len() + j] == x);
        assert(n.word_list_range(lo, hi).contains(x));
    } else {
        lemma_range_covers(n, lo, k, hi - 1, x);
        lemma_range_snoc(n, lo, hi - 1);
        let j = choose|j: int|
            0 <= j < n.word_list_range(lo, hi - 1).len() && #[trigger] n.word_list_range(
                lo,
                hi - 1,
            )[j] == x;
        assert(n.word_list_range(lo, hi)[j] == x);
        assert(n.word_list_range(lo, hi).contains(x));
    }
}

/// Every word a slot range lists is nonempty and starts with a letter of
/// one of its slots.
proof fn lemma_range_first(n: TrieNode, lo: int, hi: int)
    requires
        n.wf(),
        0 <= lo <= hi <= 26,
    ensures
        forall|j: int|
            0 <= j < n.word_list_range(lo, hi).len() ==> {
                &&& (#[trigger] n.word_list_range(lo, hi)[j]).len() > 0
                &&& is_lower_alpha(n.word_list_range(lo, hi)[j][0])
                &&& lo <= letter_index(n.word_list_range(lo, hi)[j][0]) < hi
            },
    decreases hi - lo,
{
    if lo < hi {
        lemma_range_first(n, lo + 1, hi);
        assert forall|j: int|
            0 <= j < n.word_list_range(lo, hi).len() implies {
            &&& (#[trigger] n.word_list_range(lo, hi)[j]).len() > 0
            &&& is_lower_alpha(n.word_list_range(lo, hi)[j][0])
            &&& lo <= letter_index(n.word_list_range(lo, hi)[j][0]) < hi
        } by {
            match n.children[lo] {
                Some(child) => {
                    let cl = child.word_list().len() as int;
                    if j < cl {
                        assert(n.word_list_range(lo, hi)[j] == seq![child.data]
                            + child.word_list()[j]);
                        assert((seq![child.data] + child.word_list()[j])[0] == child.data);
                    } else {
                        assert(n.word_list_range(lo, hi)[j] == n.word_list_range(lo + 1, hi)[j
                            - cl]);
                    }
                },
                None => {
                    assert(n.word_list_range(lo, hi)[j] == n.word_list_range(lo + 1, hi)[j]);
                },
            }
        }
    }
}

/// A well formed node's word list never lists a word twice.
proof fn lemma_word_list_distinct(n: TrieNode)
    requires
        n.wf(),
    ensures
        forall|j: int, k: int|
            0 <= j < k < n.word_list().len() ==> n.word_list()[j] != n.word_list()[k],
    decreases n, 1int, 0int,
{
    lemma_range_distinct(n, 0, 26);
    lemma_range_first(n, 0, 26);
    assert forall|j: int, k: int|
        0 <= j < k < n.word_list().len() implies n.word_list()[j] != n.word_list()[k] by {
        let own = own_words(n);
        let rng = n.word_list_range(0, 26);
        if j < own.len() && k >= own.len() {
            assert(n.word_list()[j].len() == 0);
            assert(n.word_list()[k] == rng[k - own.len()]);
            assert(rng[k - own.len()].len() > 0);
        } else if j >= own.len() {
            assert(n.word_list()[j] == rng[j - own.len()]);
            assert(n.word_list()[k] == rng[k - own.len()]);
        }
    }
}

/// The words of distinct slots differ, and so does every pair a single
/// slot lists.
proof fn lemma_range_distinct(n: TrieNode, lo: int, hi: int)
    requires
        n.wf(),
        0 <= lo <= hi <= 26,
    ensures
        forall|j: int, k: int|
            0 <= j < k < n.word_list_range(lo, hi).len() ==> n.word_list_range(lo, hi)[j]
                != n.word_list_range(lo, hi)[k],
    decreases n, 0int, hi - lo,
{
    if lo < hi {
        lemma_range_distinct(n, lo + 1, hi);
        lemma_range_first(n, lo + 1, hi);
        match n.children[lo] {
            Some(child) => {
                lemma_word_list_distinct(*child);
                assert forall|j: int, k: int|
                    0 <= j < k < n.word_list_range(lo, hi).len() implies n.word_list_range(
                    lo,
                    hi,
                )[j] != n.word_list_range(lo, hi)[k] by {
                    let cl = child.word_list().len() as int;
                    let rng = n.word_list_range(lo, hi);
                    if k < cl {
                        assert(rng[j] == seq![child.data] + child.word_list()[j]);
                        assert(rng[k] == seq![child.data] + child.word_list()[k]);
                        assert(child.word_list()[j] != child.word_list()[k]);
                        if rng[j] == rng[k] {
                            assert((seq![child.data] + child.word_list()[j]).skip(1)
                                =~= child.word_list()[j]);
                            assert((seq![child.data] + child.word_list()[k]).skip(1)
                                =~= child.word_list()[k]);
                            assert(false);
                        }
                    } else if j < cl {
                        assert(rng[j] == seq![child.data] + child.word_list()[j]);
                        assert(rng[j][0] == child.data);
                        assert(letter_index(rng[j][0]) == lo);
                        assert(rng[k] == n.word_list_range(lo + 1, hi)[k - cl]);
                        assert(letter_index(rng[k][0]) >= lo + 1);
                    } else {
                        assert(rng[j] == n.word_list_range(lo + 1, hi)[j - cl]);
                        assert(rng[k] == n.word_list_range(lo + 1, hi)[k - cl]);
                    }
                }
            },
            None => {
                assert forall|j: int, k: int|
                    0 <= j < k < n.word_list_range(lo, hi).len() implies n.word_list_range(
                    lo,
                    hi,
                )[j] != n.word_list_range(lo, hi)[k] by {
                    assert(n.word_list_range(lo, hi)[j] == n.word_list_range(lo + 1, hi)[j]);
                    assert(n.word_list_range(lo, hi)[k] == n.word_list_range(lo + 1, hi)[k]);
                }
            },
        }
    }
}

/// Law: a held word that starts with a prefix is among that prefix's
/// completions.
pub proof fn lemma_completions_complete(t: Trie, p: Seq<char>, u: Seq<char>)
    requires
        t.wf(),
        t.contains(u),
        is_prefix_of(p, u),
    ensures
        t.completions(p).contains(u),
{
    lemma_walk_split(t.root, u, p.len() as int);
    match t.root.walk(p) {
        Some(m) => {
            lemma_walk_wf(t.root, p);
            assert(m.holds_word(u.skip(p.len() as int)));
            lemma_word_list_complete(m, u.skip(p.len() as int));
            let j = choose|j: int|
                0 <= j < m.word_list().len() && m.word_list()[j] == u.skip(p.len() as int);
            assert(t.completions(p)[j] == p + u.skip(p.len() as int));
            assert(p + u.skip(p.len() as int) =~= u);
            assert(t.completions(p).contains(u));
        },
        None => {
            assert(false);
        },
    }
}

/// Law: every reported completion is a held word that starts with the
/// prefix it was asked for.
pub proof fn lemma_completions_sound(t: Trie, p: Seq<char>)
    requires
        t.wf(),
    ensures
        forall|j: int|
            0 <= j < t.completions(p).len() ==> t.contains(#[trigger] t.completions(p)[j])
                && is_prefix_of(p, t.completions(p)[j]),
{
    match t.root.walk(p) {
        Some(m) => {
            lemma_walk_wf(t.root, p);
            lemma_word_list_sound(m);
            assert forall|j: int|
                0 <= j < t.completions(p).len() implies t.contains(#[trigger] t.completions(p)[j])
                && is_prefix_of(p, t.completions(p)[j]) by {
                let x = m.word_list()[j];
                assert(t.completions(p)[j] == p + x);
                assert(m.holds_word(x));
                lemma_walk_split(t.root, p + x, p.len() as int);
                assert((p + x).take(p.len() as int) =~= p);
                assert((p + x).skip(p.len() as int) =~= x);
                assert(t.contains(p + x));
                assert(is_prefix_of(p, p + x));
            }
        },
        None => {},
    }
}

/// Law: a prefix that no held word starts with has no completions at all.
pub proof fn lemma_completions_empty(t: Trie, p: Seq<char>)
    requires
        t.wf(),
        forall|u: Seq<char>| #[trigger] t.contains(u) ==> !is_prefix_of(p, u),
    ensures
        t.completions(p) == Seq::<Seq<char>>::empty(),
{
    lemma_completions_sound(t, p);
    if t.completions(p).len() > 0 {
        assert(t.contains(t.completions(p)[0]) && is_prefix_of(p, t.completions(p)[0]));
        assert(false);
    }
    assert(t.completions(p) =~~= Seq::<Seq<char>>::empty());
}

/// Law: no prefix's completions report the same word twice, so inserting a
/// word again never duplicates it in any result.
pub proof fn lemma_completions_distinct(t: Trie, p: Seq<char>)
    requires
        t.wf(),
    ensures
        forall|j: int, k: int|
            0 <= j < k < t.completions(p).len() ==> t.completions(p)[j] != t.completions(p)[k],
{
    match t.root.walk(p) {
        Some(m) => {
            lemma_walk_wf(t.root, p);
            lemma_word_list_distinct(m);
            assert forall|j: int, k: int|
                0 <= j < k < t.completions(p).len() implies t.completions(p)[j] != t.completions(
                p,
            )[k] by {
                assert(t.completions(p)[j] == p + m.word_list()[j]);
                assert(t.completions(p)[k] == p + m.word_list()[k]);
                if t.completions(p)[j] == t.completions(p)[k] {
                    assert((p + m.word_list()[j]).skip(p.len() as int) =~= m.word_list()[j]);
                    assert((p + m.word_list()[k]).skip(p.len() as int) =~= m.word_list()[k]);
                    assert(false);
                }
            }
        },
        None => {},
    }
}

/// Law: every held word appears among the completions of itself.
pub proof fn lemma_self_completion(t: Trie, w: Seq<char>)
    requires
        t.wf(),
        t.contains(w),
    ensures
        t.completions(w).contains(w),
{
    assert(w.take(w.len() as int) =~= w);
    lemma_completions_complete(t, w, w);
}

/// Law: a tree that holds exactly one word completes that word by exactly
/// that word.
pub proof fn lemma_sole_completion(t: Trie, w: Seq<char>)
    requires
        t.wf(),
        forall|u: Seq<char>| #[trigger] t.contains(u) <==> u == w,
    ensures
        t.completions(w) == seq![w],
{
    assert(t.contains(w));
    lemma_self_completion(t, w);
    lemma_completions_sound(t, w);
    lemma_completions_distinct(t, w);
    let c = t.completions(w);
    assert forall|j: int| 0 <= j < c.len() implies c[j] == w by {
        assert(t.contains(c[j]));
    }
    if c.len() >= 2 {
        assert(c[0] == w && c[1] == w);
        assert(false);
    }
    let j = choose|j: int| 0 <= j < c.len() && c[j] == w;
    assert(c.len() == 1);
    assert(c =~= seq![w]);
}

/// Law: a tree that holds nothing completes nothing, whatever the prefix.
pub proof fn lemma_empty_tree(t: Trie, p: Seq<char>)
    requires
        t.wf(),
        forall|u: Seq<char>| !#[trigger] t.contains(u),
    ensures
        t.completions(p) == Seq::<Seq<char>>::empty(),
{
    lemma_completions_empty(t, p);
}

/// The child slot for the lowercase letter `c`.
fn letter_slot(c: char) -> (idx: usize)
    requires
        is_lower_alpha(c),
    ensures
        idx == letter_index(c),
        idx < 26,
{
    ((c as u32) - 97) as usize
}

} // verus!

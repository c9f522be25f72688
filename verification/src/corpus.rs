use crate::text::{
    dec_digit, dec_str, is_corpus_ws, records, split_records, split_tokens, tokens, valid_token,
};
use vstd::prelude::*;

verus! {

/// One adjacency entry: a predecessor word and its successors, each with
/// the count of times the ordered pair was observed.
pub type CorpusEntry = (Seq<char>, Seq<(Seq<char>, u32)>);

/// The error loading a corpus reports: a line with fewer than two tokens,
/// which cannot name a predecessor and a successor.
#[derive(Debug, Clone, Copy, PartialEq, Eq)]
pub enum CorpusError {
    MalformedLine,
}

/// A count one higher, held at the top of the counter's range.
pub open spec fn sat_inc(c: u32) -> u32 {
    if c == u32::MAX {
        c
    } else {
        (c + 1) as u32
    }
}

/// One more observation of successor `w`: its count grows by one, or a
/// fresh pair with count 1 joins the end of the list.
pub open spec fn bump(list: Seq<(Seq<char>, u32)>, w: Seq<char>) -> Seq<(Seq<char>, u32)>
    decreases list.len(),
{
    if list.len() == 0 {
        seq![(w, 1u32)]
    } else if list[0].0 == w {
        seq![(list[0].0, sat_inc(list[0].1))] + list.skip(1)
    } else {
        seq![list[0]] + bump(list.skip(1), w)
    }
}

/// One more observed pair: the predecessor's list is bumped, or a fresh
/// entry joins the end of the graph.
pub open spec fn graph_add(es: Seq<CorpusEntry>, w1: Seq<char>, w2: Seq<char>) -> Seq<CorpusEntry>
    decreases es.len(),
{
    if es.len() == 0 {
        seq![(w1, seq![(w2, 1u32)])]
    } else if es[0].0 == w1 {
        seq![(es[0].0, bump(es[0].1, w2))] + es.skip(1)
    } else {
        seq![es[0]] + graph_add(es.skip(1), w1, w2)
    }
}

/// The successor words of a list, counts dropped, in list order.
pub open spec fn succ_words(list: Seq<(Seq<char>, u32)>) -> Seq<Seq<char>> {
    list.map_values(|p: (Seq<char>, u32)| p.0)
}

/// No two entries name the same predecessor.
pub open spec fn keys_distinct(es: Seq<CorpusEntry>) -> bool {
    forall|i: int, j: int| 0 <= i < j < es.len() ==> es[i].0 != es[j].0
}

/// The text of one entry's successor pairs: each word and its count,
/// every token followed by a single space.
pub open spec fn pairs_text(list: Seq<(Seq<char>, u32)>) -> Seq<char>
    decreases list.len(),
{
    if list.len() == 0 {
        Seq::empty()
    } else {
        list[0].0 + seq![' '] + dec_str(list[0].1 as nat) + seq![' '] + pairs_text(list.skip(1))
    }
}

/// The serialized line of one entry: the predecessor, a space, the
/// successor pairs, and a closing newline.
pub open spec fn line_text(key: Seq<char>, list: Seq<(Seq<char>, u32)>) -> Seq<char> {
    key + seq![' '] + pairs_text(list) + seq!['\n']
}

/// The serialized corpus: one line per entry, in entry order.
pub open spec fn corpus_text(es: Seq<CorpusEntry>) -> Seq<char>
    decreases es.len(),
{
    if es.len() == 0 {
        Seq::empty()
    } else {
        line_text(es[0].0, es[0].1) + corpus_text(es.skip(1))
    }
}

/// Whether every record of a corpus names at least a predecessor and one
/// token after it.
pub open spec fn corpus_ok(rs: Seq<Seq<char>>) -> bool {
    forall|j: int| 0 <= j < rs.len() ==> tokens(#[trigger] rs[j]).len() >= 2
}

/// The tokens at the odd positions of a record: the successor words,
/// their counts skipped.
pub open spec fn odd_tokens(ts: Seq<Seq<char>>) -> Seq<Seq<char>> {
    Seq::new((ts.len() / 2) as nat, |k: int| ts[2 * k + 1])
}

/// The mapping a parsed corpus yields: per record, the first token maps to
/// the odd-position tokens; a later record for the same word wins.
pub open spec fn corpus_map(rs: Seq<Seq<char>>) -> Map<Seq<char>, Seq<Seq<char>>>
    decreases rs.len(),
{
    if rs.len() == 0 {
        Map::empty()
    } else {
        corpus_map(rs.drop_last()).insert(
            tokens(rs.last())[0],
            odd_tokens(tokens(rs.last())),
        )
    }
}

/// The mapping the graph's entries stand for: each predecessor maps to its
/// successor words in order.
pub open spec fn entries_map(es: Seq<CorpusEntry>) -> Map<Seq<char>, Seq<Seq<char>>>
    decreases es.len(),
{
    if es.len() == 0 {
        Map::empty()
    } else {
        entries_map(es.drop_last()).insert(es.last().0, succ_words(es.last().1))
    }
}

/// The mapping an association list stands for, later keys winning.
pub open spec fn assoc_map(es: Seq<(Seq<char>, Seq<Seq<char>>)>) -> Map<Seq<char>, Seq<Seq<char>>>
    decreases es.len(),
{
    if es.len() == 0 {
        Map::empty()
    } else {
        assoc_map(es.drop_last()).insert(es.last().0, es.last().1)
    }
}

/// With distinct keys, the association map reads back exactly the entries.
pub proof fn lemma_assoc_map(es: Seq<(Seq<char>, Seq<Seq<char>>)>, k: Seq<char>)
    requires
        forall|i: int, j: int| 0 <= i < j < es.len() ==> es[i].0 != es[j].0,
    ensures
        assoc_map(es).dom().contains(k) <==> exists|i: int| 0 <= i < es.len() && (#[trigger] es[i]).0 == k,
        forall|i: int|
            0 <= i < es.len() && (#[trigger] es[i]).0 == k ==> assoc_map(es)[k] == es[i].1,
    decreases es.len(),
{
    if es.len() > 0 {
        lemma_assoc_map(es.drop_last(), k);
        let last = es.last();
        assert forall|i: int|
            0 <= i < es.len() && (#[trigger] es[i]).0 == k implies assoc_map(es)[k] == es[i].1 by {
            if i == es.len() - 1 {
                assert(assoc_map(es)[k] == last.1);
            } else {
                assert(es.drop_last()[i] == es[i]);
                assert(es[i].0 != last.0);
                assert(assoc_map(es)[k] == assoc_map(es.drop_last())[k]);
            }
        }
        if assoc_map(es).dom().contains(k) {
            if k == last.0 {
                assert(es[es.len() - 1].0 == k);
            } else {
                let i = choose|i: int|
                    0 <= i < es.drop_last().len() && (#[trigger] es.drop_last()[i]).0 == k;
                assert(es[i].0 == k);
            }
        }
        if exists|i: int| 0 <= i < es.len() && (#[trigger] es[i]).0 == k {
            let i = choose|i: int| 0 <= i < es.len() && (#[trigger] es[i]).0 == k;
            if i < es.len() - 1 {
                assert(es.drop_last()[i].0 == k);
            }
        }
    }
}

/// Replacing the value of a key that appears once is an insert on the
/// association map.
pub proof fn lemma_assoc_map_update(
    es: Seq<(Seq<char>, Seq<Seq<char>>)>,
    i: int,
    v: Seq<Seq<char>>,
)
    requires
        forall|a: int, b: int| 0 <= a < b < es.len() ==> es[a].0 != es[b].0,
        0 <= i < es.len(),
    ensures
        assoc_map(es.update(i, (es[i].0, v))) == assoc_map(es).insert(es[i].0, v),
    decreases es.len(),
{
    let es2 = es.update(i, (es[i].0, v));
    if i == es.len() - 1 {
        assert(es2.drop_last() =~= es.drop_last());
        assert(es2.last() == (es[i].0, v));
        assert(assoc_map(es.drop_last()).insert(es[i].0, es.last().1).insert(es[i].0, v)
            =~= assoc_map(es.drop_last()).insert(es[i].0, v));
    } else {
        assert forall|a: int, b: int|
            0 <= a < b < es.drop_last().len() implies es.drop_last()[a].0 != es.drop_last()[b].0 by {
            assert(es.drop_last()[a] == es[a]);
            assert(es.drop_last()[b] == es[b]);
        }
        assert(es.drop_last()[i] == es[i]);
        lemma_assoc_map_update(es.drop_last(), i, v);
        assert(es2.drop_last() =~= es.drop_last().update(i, (es[i].0, v)));
        assert(es2.last() == es.last());
        assert(es[i].0 != es.last().0);
        assert(assoc_map(es.drop_last()).insert(es[i].0, v).insert(es.last().0, es.last().1)
            =~= assoc_map(es.drop_last()).insert(es.last().0, es.last().1).insert(es[i].0, v));
    }
}

/// Bumping a list whose first match for `w` stands at `j` only raises that
/// count.
pub proof fn lemma_bump_found(list: Seq<(Seq<char>, u32)>, j: int, w: Seq<char>)
    requires
        0 <= j < list.len(),
        list[j].0 == w,
        forall|m: int| 0 <= m < j ==> (#[trigger] list[m]).0 != w,
    ensures
        bump(list, w) == list.update(j, (list[j].0, sat_inc(list[j].1))),
    decreases j,
{
    if j == 0 {
        assert(bump(list, w) =~= list.update(0, (list[0].0, sat_inc(list[0].1))));
    } else {
        assert(list.skip(1)[j - 1] == list[j]);
        assert forall|m: int| 0 <= m < j - 1 implies (#[trigger] list.skip(1)[m]).0 != w by {
            assert(list.skip(1)[m] == list[m + 1]);
        }
        lemma_bump_found(list.skip(1), j - 1, w);
        assert(bump(list, w) =~= list.update(j, (list[j].0, sat_inc(list[j].1))));
    }
}

/// Bumping a list that never names `w` appends a fresh pair with count 1.
pub proof fn lemma_bump_absent(list: Seq<(Seq<char>, u32)>, w: Seq<char>)
    requires
        forall|m: int| 0 <= m < list.len() ==> (#[trigger] list[m]).0 != w,
    ensures
        bump(list, w) == list.push((w, 1u32)),
    decreases list.len(),
{
    if list.len() == 0 {
        assert(bump(list, w) =~= list.push((w, 1u32)));
    } else {
        assert(list[0].0 != w);
        assert forall|m: int|
            0 <= m < list.skip(1).len() implies (#[trigger] list.skip(1)[m]).0 != w by {
            assert(list.skip(1)[m] == list[m + 1]);
        }
        lemma_bump_absent(list.skip(1), w);
        assert(bump(list, w) =~= list.push((w, 1u32)));
    }
}

/// Adding a pair whose predecessor's first match stands at `i` only bumps
/// that entry's list.
pub proof fn lemma_graph_add_found(es: Seq<CorpusEntry>, i: int, w1: Seq<char>, w2: Seq<char>)
    requires
        0 <= i < es.len(),
        es[i].0 == w1,
        forall|m: int| 0 <= m < i ==> (#[trigger] es[m]).0 != w1,
    ensures
        graph_add(es, w1, w2) == es.update(i, (es[i].0, bump(es[i].1, w2))),
    decreases i,
{
    if i == 0 {
        assert(graph_add(es, w1, w2) =~= es.update(0, (es[0].0, bump(es[0].1, w2))));
    } else {
        assert(es.skip(1)[i - 1] == es[i]);
        assert forall|m: int| 0 <= m < i - 1 implies (#[trigger] es.skip(1)[m]).0 != w1 by {
            assert(es.skip(1)[m] == es[m + 1]);
        }
        lemma_graph_add_found(es.skip(1), i - 1, w1, w2);
        assert(graph_add(es, w1, w2) =~= es.update(i, (es[i].0, bump(es[i].1, w2))));
    }
}

/// Adding a pair whose predecessor is new appends a fresh entry.
pub proof fn lemma_graph_add_absent(es: Seq<CorpusEntry>, w1: Seq<char>, w2: Seq<char>)
    requires
        forall|m: int| 0 <= m < es.len() ==> (#[trigger] es[m]).0 != w1,
    ensures
        graph_add(es, w1, w2) == es.push((w1, seq![(w2, 1u32)])),
    decreases es.len(),
{
    if es.len() == 0 {
        assert(graph_add(es, w1, w2) =~= es.push((w1, seq![(w2, 1u32)])));
    } else {
        assert(es[0].0 != w1);
        assert forall|m: int|
            0 <= m < es.skip(1).len() implies (#[trigger] es.skip(1)[m]).0 != w1 by {
            assert(es.skip(1)[m] == es[m + 1]);
        }
        lemma_graph_add_absent(es.skip(1), w1, w2);
        assert(graph_add(es, w1, w2) =~= es.push((w1, seq![(w2, 1u32)])));
    }
}

/// Law: one more observation never lowers a count and never drops a
/// successor — every recorded pair stays in place, and at most one fresh
/// pair joins the end.
pub proof fn lemma_bump_monotone(list: Seq<(Seq<char>, u32)>, w: Seq<char>)
    ensures
        list.len() <= bump(list, w).len() <= list.len() + 1,
        forall|k: int|
            0 <= k < list.len() ==> (#[trigger] bump(list, w)[k]).0 == list[k].0 && bump(
                list,
                w,
            )[k].1 >= list[k].1,
    decreases list.len(),
{
    if list.len() > 0 && list[0].0 != w {
        lemma_bump_monotone(list.skip(1), w);
        assert forall|k: int|
            0 <= k < list.len() implies (#[trigger] bump(list, w)[k]).0 == list[k].0 && bump(
            list,
            w,
        )[k].1 >= list[k].1 by {
            if k > 0 {
                assert(bump(list, w)[k] == bump(list.skip(1), w)[k - 1]);
                assert(list.skip(1)[k - 1] == list[k]);
            }
        }
    }
}

/// Law: one more observed pair never loses an entry — every predecessor
/// stays in place with its successors only bumped, and at most one fresh
/// entry joins the end.
pub proof fn lemma_graph_add_monotone(es: Seq<CorpusEntry>, w1: Seq<char>, w2: Seq<char>)
    ensures
        es.len() <= graph_add(es, w1, w2).len() <= es.len() + 1,
        forall|i: int|
            0 <= i < es.len() ==> (#[trigger] graph_add(es, w1, w2)[i]).0 == es[i].0,
    decreases es.len(),
{
    if es.len() > 0 && es[0].0 != w1 {
        lemma_graph_add_monotone(es.skip(1), w1, w2);
        assert forall|i: int|
            0 <= i < es.len() implies (#[trigger] graph_add(es, w1, w2)[i]).0 == es[i].0 by {
            if i > 0 {
                assert(graph_add(es, w1, w2)[i] == graph_add(es.skip(1), w1, w2)[i - 1]);
                assert(es.skip(1)[i - 1] == es[i]);
            }
        }
    }
}

/// An entry whose words survive serialization: the predecessor and every
/// successor is a nonempty, whitespace-free token, and there is at least
/// one successor.
pub open spec fn entry_valid(e: CorpusEntry) -> bool {
    &&& valid_token(e.0)
    &&& e.1.len() > 0
    &&& forall|k: int| 0 <= k < e.1.len() ==> valid_token((#[trigger] e.1[k]).0)
}

/// Whether every entry of the graph is fit for serialization.
pub open spec fn entries_valid(es: Seq<CorpusEntry>) -> bool {
    forall|i: int| 0 <= i < es.len() ==> entry_valid(#[trigger] es[i])
}

/// One entry's line without its closing newline.
pub open spec fn line_body(e: CorpusEntry) -> Seq<char> {
    e.0 + seq![' '] + pairs_text(e.1)
}

/// The line bodies of all entries, in entry order.
pub open spec fn line_bodies(es: Seq<CorpusEntry>) -> Seq<Seq<char>> {
    es.map_values(|e: CorpusEntry| line_body(e))
}

/// The tokens a successor list serializes to: each word, then its count.
pub open spec fn interleave(list: Seq<(Seq<char>, u32)>) -> Seq<Seq<char>> {
    Seq::new(
        (2 * list.len()) as nat,
        |k: int|
            if k % 2 == 0 {
                list[k / 2].0
            } else {
                dec_str(list[k / 2].1 as nat)
            },
    )
}

/// A decimal rendering is a token: nonempty and free of whitespace.
proof fn lemma_dec_str_token(n: nat)
    ensures
        valid_token(dec_str(n)),
    decreases n,
{
    if n < 10 {
        assert(!is_corpus_ws(dec_digit(n)));
        assert(dec_str(n)[0] == dec_digit(n));
    } else {
        lemma_dec_str_token(n / 10);
        assert(!is_corpus_ws(dec_digit(n % 10)));
        assert forall|i: int| 0 <= i < dec_str(n).len() implies !is_corpus_ws(
            #[trigger] dec_str(n)[i],
        ) by {
            if i < dec_str(n / 10).len() {
                assert(dec_str(n)[i] == dec_str(n / 10)[i]);
            } else {
                assert(dec_str(n)[i] == dec_digit(n % 10));
            }
        }
    }
}

/// No character of a valid entry's line body is a newline.
proof fn lemma_pairs_text_no_newline(list: Seq<(Seq<char>, u32)>)
    requires
        forall|k: int| 0 <= k < list.len() ==> valid_token((#[trigger] list[k]).0),
    ensures
        forall|i: int| 0 <= i < pairs_text(list).len() ==> #[trigger] pairs_text(list)[i] != '\n',
    decreases list.len(),
{
    if list.len() > 0 {
        assert forall|k: int|
            0 <= k < list.skip(1).len() implies valid_token((#[trigger] list.skip(1)[k]).0) by {
            assert(list.skip(1)[k] == list[k + 1]);
        }
        lemma_pairs_text_no_newline(list.skip(1));
        lemma_dec_str_token(list[0].1 as nat);
        let w = list[0].0;
        let d = dec_str(list[0].1 as nat);
        let rest = pairs_text(list.skip(1));
        assert forall|i: int|
            0 <= i < pairs_text(list).len() implies #[trigger] pairs_text(list)[i] != '\n' by {
            assert(valid_token(w));
            if i < w.len() {
                assert(pairs_text(list)[i] == w[i]);
            } else if i == w.len() {
                assert(pairs_text(list)[i] == ' ');
            } else if i < w.len() + 1 + d.len() {
                assert(pairs_text(list)[i] == d[i - w.len() - 1]);
            } else if i == w.len() + 1 + d.len() {
                assert(pairs_text(list)[i] == ' ');
            } else {
                assert(pairs_text(list)[i] == rest[i - (w.len() + 1 + d.len() + 1)]);
            }
        }
    }
}

/// Splitting records off a text that starts with a newline-free body and a
/// newline yields that body, then the records of the rest.
proof fn lemma_split_records_line(body: Seq<char>, rest: Seq<char>, cur: Seq<char>)
    requires
        forall|i: int| 0 <= i < body.len() ==> #[trigger] body[i] != '\n',
    ensures
        split_records(body + seq!['\n'] + rest, cur) == seq![cur + body] + split_records(
            rest,
            Seq::empty(),
        ),
    decreases body.len(),
{
    let s = body + seq!['\n'] + rest;
    if body.len() == 0 {
        assert(s[0] == '\n');
        assert(s.skip(1) =~= rest);
        assert(cur + body =~= cur);
        assert(split_records(s, cur) =~= seq![cur + body] + split_records(rest, Seq::empty()));
    } else {
        assert(s[0] == body[0]);
        assert(s[0] != '\n');
        assert forall|i: int|
            0 <= i < body.skip(1).len() implies #[trigger] body.skip(1)[i] != '\n' by {
            assert(body.skip(1)[i] == body[i + 1]);
        }
        lemma_split_records_line(body.skip(1), rest, cur.push(body[0]));
        assert(s.skip(1) =~= body.skip(1) + seq!['\n'] + rest);
        assert(cur.push(body[0]) + body.skip(1) =~= cur + body);
    }
}

/// Splitting tokens off a text that starts with a token and a space yields
/// the pending text extended by that token, then the tokens of the rest.
proof fn lemma_split_tokens_word(t: Seq<char>, s: Seq<char>, cur: Seq<char>)
    requires
        valid_token(t),
    ensures
        split_tokens(t + seq![' '] + s, cur) == seq![cur + t] + split_tokens(s, Seq::empty()),
    decreases t.len(),
{
    let full = t + seq![' '] + s;
    assert(full[0] == t[0]);
    assert(!is_corpus_ws(t[0]));
    if t.len() == 1 {
        assert(full.skip(1) =~= seq![' '] + s);
        assert((seq![' '] + s)[0] == ' ');
        assert((seq![' '] + s).skip(1) =~= s);
        assert(cur.push(t[0]) + Seq::<char>::empty() =~= cur.push(t[0]));
        assert(cur.push(t[0]) =~= cur + t);
        assert(split_tokens(seq![' '] + s, cur.push(t[0])) =~= seq![cur.push(t[0])]
            + split_tokens(s, Seq::empty()));
        assert(split_tokens(full, cur) =~= seq![cur + t] + split_tokens(s, Seq::empty()));
    } else {
        assert forall|i: int|
            0 <= i < t.skip(1).len() implies !is_corpus_ws(#[trigger] t.skip(1)[i]) by {
            assert(t.skip(1)[i] == t[i + 1]);
        }
        lemma_split_tokens_word(t.skip(1), s, cur.push(t[0]));
        assert(full.skip(1) =~= t.skip(1) + seq![' '] + s);
        assert(cur.push(t[0]) + t.skip(1) =~= cur + t);
    }
}

/// The records of a serialized corpus are exactly its line bodies.
proof fn lemma_records_of_corpus(es: Seq<CorpusEntry>)
    requires
        entries_valid(es),
    ensures
        records(corpus_text(es)) == line_bodies(es),
    decreases es.len(),
{
    if es.len() == 0 {
        assert(records(corpus_text(es)) =~~= line_bodies(es));
    } else {
        let e = es[0];
        let body = line_body(e);
        let rest = corpus_text(es.skip(1));
        assert(entry_valid(e));
        lemma_pairs_text_no_newline(e.1);
        assert forall|i: int| 0 <= i < body.len() implies #[trigger] body[i] != '\n' by {
            if i < e.0.len() {
                assert(body[i] == e.0[i]);
                assert(!is_corpus_ws(e.0[i]));
            } else if i == e.0.len() {
                assert(body[i] == ' ');
            } else {
                assert(body[i] == pairs_text(e.1)[i - e.0.len() - 1]);
            }
        }
        assert(corpus_text(es) =~= body + seq!['\n'] + rest);
        lemma_split_records_line(body, rest, Seq::empty());
        assert(Seq::<char>::empty() + body =~= body);
        assert forall|i: int|
            0 <= i < es.skip(1).len() implies entry_valid(#[trigger] es.skip(1)[i]) by {
            assert(es.skip(1)[i] == es[i + 1]);
        }
        lemma_records_of_corpus(es.skip(1));
        assert(records(corpus_text(es)) =~~= seq![body] + line_bodies(es.skip(1)));
        assert(line_bodies(es) =~~= seq![body] + line_bodies(es.skip(1)));
    }
}

/// The tokens of a serialized successor list are its words and counts, in
/// pair order.
proof fn lemma_tokens_of_pairs(list: Seq<(Seq<char>, u32)>)
    requires
        forall|k: int| 0 <= k < list.len() ==> valid_token((#[trigger] list[k]).0),
    ensures
        split_tokens(pairs_text(list), Seq::empty()) == interleave(list),
    decreases list.len(),
{
    if list.len() == 0 {
        assert(split_tokens(pairs_text(list), Seq::empty()) =~~= interleave(list));
    } else {
        let w = list[0].0;
        let d = dec_str(list[0].1 as nat);
        let rest = pairs_text(list.skip(1));
        lemma_dec_str_token(list[0].1 as nat);
        assert(pairs_text(list) =~= w + seq![' '] + (d + seq![' '] + rest));
        lemma_split_tokens_word(w, d + seq![' '] + rest, Seq::empty());
        lemma_split_tokens_word(d, rest, Seq::empty());
        assert forall|k: int|
            0 <= k < list.skip(1).len() implies valid_token((#[trigger] list.skip(1)[k]).0) by {
            assert(list.skip(1)[k] == list[k + 1]);
        }
        lemma_tokens_of_pairs(list.skip(1));
        assert(Seq::<char>::empty() + w =~= w);
        assert(Seq::<char>::empty() + d =~= d);
        assert forall|k: int|
            0 <= k < interleave(list).len() implies (seq![w, d] + interleave(list.skip(1)))[k]
            == interleave(list)[k] by {
            if k >= 2 {
                assert(interleave(list.skip(1))[k - 2] == interleave(list)[k]);
            }
        }
        assert(split_tokens(pairs_text(list), Seq::empty()) =~~= interleave(list));
    }
}

/// The tokens of an entry's line body: the predecessor first, then each
/// successor and its count.
proof fn lemma_tokens_of_line(e: CorpusEntry)
    requires
        entry_valid(e),
    ensures
        tokens(line_body(e)) == seq![e.0] + interleave(e.1),
{
    lemma_split_tokens_word(e.0, pairs_text(e.1), Seq::empty());
    lemma_tokens_of_pairs(e.1);
    assert(Seq::<char>::empty() + e.0 =~= e.0);
    assert(tokens(line_body(e)) =~~= seq![e.0] + interleave(e.1));
}

/// The odd-position tokens of a serialized line are the successor words.
proof fn lemma_odd_tokens_of_line(e: CorpusEntry)
    ensures
        odd_tokens(seq![e.0] + interleave(e.1)) == succ_words(e.1),
{
    let ts = seq![e.0] + interleave(e.1);
    assert(ts.len() == 1 + 2 * e.1.len());
    assert(ts.len() / 2 == e.1.len());
    assert forall|k: int|
        0 <= k < succ_words(e.1).len() implies odd_tokens(ts)[k] == succ_words(e.1)[k] by {
        assert(odd_tokens(ts)[k] == ts[2 * k + 1]);
        assert(ts[2 * k + 1] == interleave(e.1)[2 * k]);
        assert((2 * k) % 2 == 0 && (2 * k) / 2 == k);
    }
    assert(odd_tokens(ts) =~~= succ_words(e.1));
}

/// Law: a corpus built from valid entries, serialized and parsed back,
/// yields exactly the mapping the entries stand for — every predecessor's
/// successors come back complete and in the order they were written.
pub proof fn lemma_corpus_round_trip(es: Seq<CorpusEntry>)
    requires
        entries_valid(es),
    ensures
        corpus_ok(records(corpus_text(es))),
        corpus_map(records(corpus_text(es))) == entries_map(es),
{
    lemma_records_of_corpus(es);
    assert forall|j: int|
        0 <= j < records(corpus_text(es)).len() implies tokens(
        #[trigger] records(corpus_text(es))[j],
    ).len() >= 2 by {
        assert(records(corpus_text(es))[j] == line_body(es[j]));
        lemma_tokens_of_line(es[j]);
        assert(tokens(line_body(es[j])).len() == 1 + 2 * es[j].1.len());
    }
    lemma_corpus_map_of_bodies(es);
}

/// Parsing the line bodies rebuilds the entries' mapping.
proof fn lemma_corpus_map_of_bodies(es: Seq<CorpusEntry>)
    requires
        entries_valid(es),
    ensures
        corpus_map(line_bodies(es)) == entries_map(es),
    decreases es.len(),
{
    if es.len() > 0 {
        let e = es.last();
        assert(entry_valid(e));
        assert forall|i: int|
            0 <= i < es.drop_last().len() implies entry_valid(#[trigger] es.drop_last()[i]) by {
            assert(es.drop_last()[i] == es[i]);
        }
        lemma_corpus_map_of_bodies(es.drop_last());
        assert(line_bodies(es).drop_last() =~~= line_bodies(es.drop_last()));
        assert(line_bodies(es).last() == line_body(e));
        lemma_tokens_of_line(e);
        lemma_odd_tokens_of_line(e);
        assert(tokens(line_body(e))[0] == e.0);
        assert(odd_tokens(tokens(line_body(e))) == succ_words(e.1));
        assert(corpus_map(line_bodies(es)) == corpus_map(line_bodies(es.drop_last())).insert(
            e.0,
            succ_words(e.1),
        ));
    }
}

/// With distinct predecessors, the entries' mapping reads back exactly the
/// entries.
pub proof fn lemma_entries_map(es: Seq<CorpusEntry>, k: Seq<char>)
    requires
        keys_distinct(es),
    ensures
        entries_map(es).dom().contains(k) <==> exists|i: int|
            0 <= i < es.len() && (#[trigger] es[i]).0 == k,
        forall|i: int|
            0 <= i < es.len() && (#[trigger] es[i]).0 == k ==> entries_map(es)[k] == succ_words(
                es[i].1,
            ),
    decreases es.len(),
{
    if es.len() > 0 {
        assert forall|a: int, b: int|
            0 <= a < b < es.drop_last().len() implies es.drop_last()[a].0 != es.drop_last()[b].0 by {
            assert(es.drop_last()[a] == es[a]);
            assert(es.drop_last()[b] == es[b]);
        }
        lemma_entries_map(es.drop_last(), k);
        let last = es.last();
        assert forall|i: int|
            0 <= i < es.len() && (#[trigger] es[i]).0 == k implies entries_map(es)[k]
            == succ_words(es[i].1) by {
            if i == es.len() - 1 {
                assert(entries_map(es)[k] == succ_words(last.1));
            } else {
                assert(es.drop_last()[i] == es[i]);
                assert(es[i].0 != last.0);
                assert(entries_map(es)[k] == entries_map(es.drop_last())[k]);
            }
        }
        if entries_map(es).dom().contains(k) {
            if k == last.0 {
                assert(es[es.len() - 1].0 == k);
            } else {
                let i = choose|i: int|
                    0 <= i < es.drop_last().len() && (#[trigger] es.drop_last()[i]).0 == k;
                assert(es[i].0 == k);
            }
        }
        if exists|i: int| 0 <= i < es.len() && (#[trigger] es[i]).0 == k {
            let i = choose|i: int| 0 <= i < es.len() && (#[trigger] es[i]).0 == k;
            if i < es.len() - 1 {
                assert(es.drop_last()[i].0 == k);
            }
        }
    }
}

/// Serialization of successor pairs distributes over concatenation.
pub proof fn lemma_pairs_text_app(a: Seq<(Seq<char>, u32)>, b: Seq<(Seq<char>, u32)>)
    ensures
        pairs_text(a + b) == pairs_text(a) + pairs_text(b),
    decreases a.len(),
{
    if a.len() == 0 {
        assert(a + b =~= b);
        assert(pairs_text(a) + pairs_text(b) =~= pairs_text(b));
    } else {
        lemma_pairs_text_app(a.skip(1), b);
        assert((a + b).skip(1) =~= a.skip(1) + b);
        assert((a + b)[0] == a[0]);
        assert(pairs_text(a + b) =~= pairs_text(a) + pairs_text(b));
    }
}

/// Serialization of the corpus distributes over concatenation of entries.
pub proof fn lemma_corpus_text_app(a: Seq<CorpusEntry>, b: Seq<CorpusEntry>)
    ensures
        corpus_text(a + b) == corpus_text(a) + corpus_text(b),
    decreases a.len(),
{
    if a.len() == 0 {
        assert(a + b =~= b);
        assert(corpus_text(a) + corpus_text(b) =~= corpus_text(b));
    } else {
        lemma_corpus_text_app(a.skip(1), b);
        assert((a + b).skip(1) =~= a.skip(1) + b);
        assert((a + b)[0] == a[0]);
        assert(corpus_text(a + b) =~= corpus_text(a) + corpus_text(b));
    }
}

} // verus!

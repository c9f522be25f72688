use vstd::prelude::*;

verus! {

/// The ASCII whitespace characters: tokens of a corpus line are the maximal
/// runs of characters outside this set.
pub open spec fn is_corpus_ws(c: char) -> bool {
    c == ' ' || c == '\t' || c == '\n' || c == '\r' || c == '\x0c'
}

/// A word that survives serialization: nonempty and free of whitespace.
pub open spec fn valid_token(w: Seq<char>) -> bool {
    w.len() > 0 && forall|i: int| 0 <= i < w.len() ==> !is_corpus_ws(#[trigger] w[i])
}

/// Whitespace-splitting of `s`, with `cur` the token read so far:
/// whitespace ends the current token (empty tokens are dropped), any other
/// character extends it.
pub open spec fn split_tokens(s: Seq<char>, cur: Seq<char>) -> Seq<Seq<char>>
    decreases s.len(),
{
    if s.len() == 0 {
        if cur.len() > 0 {
            seq![cur]
        } else {
            seq![]
        }
    } else if is_corpus_ws(s[0]) {
        (if cur.len() > 0 {
            seq![cur]
        } else {
            seq![]
        }) + split_tokens(s.skip(1), Seq::empty())
    } else {
        split_tokens(s.skip(1), cur.push(s[0]))
    }
}

/// The whitespace-separated tokens of `s`.
pub open spec fn tokens(s: Seq<char>) -> Seq<Seq<char>> {
    split_tokens(s, Seq::empty())
}

/// Newline-splitting of `s`, with `cur` the record read so far. A newline
/// ends the current record, even an empty one; a last record without a
/// closing newline counts only if it is nonempty.
pub open spec fn split_records(s: Seq<char>, cur: Seq<char>) -> Seq<Seq<char>>
    decreases s.len(),
{
    if s.len() == 0 {
        if cur.len() > 0 {
            seq![cur]
        } else {
            seq![]
        }
    } else if s[0] == '\n' {
        seq![cur] + split_records(s.skip(1), Seq::empty())
    } else {
        split_records(s.skip(1), cur.push(s[0]))
    }
}

/// The newline-separated records of `s`.
pub open spec fn records(s: Seq<char>) -> Seq<Seq<char>> {
    split_records(s, Seq::empty())
}

/// The words of `ws` laid out one after another, each followed by a single
/// space: the shape of every prediction result.
pub open spec fn joined(ws: Seq<Seq<char>>) -> Seq<char>
    decreases ws.len(),
{
    if ws.len() == 0 {
        Seq::empty()
    } else {
        ws[0] + seq![' '] + joined(ws.skip(1))
    }
}

/// Joining distributes over concatenation of word lists.
pub proof fn lemma_joined_app(a: Seq<Seq<char>>, b: Seq<Seq<char>>)
    ensures
        joined(a + b) == joined(a) + joined(b),
    decreases a.len(),
{
    if a.len() == 0 {
        assert(a + b =~= b);
        assert(joined(a) + joined(b) =~= joined(b));
    } else {
        lemma_joined_app(a.skip(1), b);
        assert((a + b).skip(1) =~= a.skip(1) + b);
        assert((a + b)[0] == a[0]);
        assert(joined(a + b) =~= joined(a) + joined(b));
    }
}

/// The decimal digit `d` as a character.
pub open spec fn dec_digit(d: nat) -> char {
    if d == 0 {
        '0'
    } else if d == 1 {
        '1'
    } else if d == 2 {
        '2'
    } else if d == 3 {
        '3'
    } else if d == 4 {
        '4'
    } else if d == 5 {
        '5'
    } else if d == 6 {
        '6'
    } else if d == 7 {
        '7'
    } else if d == 8 {
        '8'
    } else {
        '9'
    }
}

/// The decimal rendering of `n`, most significant digit first, no sign and
/// no leading zeroes.
pub open spec fn dec_str(n: nat) -> Seq<char>
    decreases n,
{
    if n < 10 {
        seq![dec_digit(n)]
    } else {
        dec_str(n / 10).push(dec_digit(n % 10))
    }
}

/// Relies on alloc's String::push: it appends exactly the given character.
pub assume_specification[ String::push ](s: &mut String, ch: char)
    ensures
        final(s)@ == old(s)@.push(ch),
;

/// Whether `c` is ASCII whitespace, as `is_corpus_ws` counts it.
pub fn is_ws_char(c: char) -> (r: bool)
    ensures
        r == is_corpus_ws(c),
{
    c == ' ' || c == '\t' || c == '\n' || c == '\r' || c == '\x0c'
}

/// Splits `s` into its newline-separated records.
pub fn records_of(s: &str) -> (res: Vec<String>)
    ensures
        res.deep_view() == records(s@),
{
    let mut res: Vec<String> = Vec::new();
    let mut cur: String = String::new();
    let n = s.unicode_len();
    proof {
        assert(s@.skip(0) =~= s@);
        assert(res.deep_view() =~= Seq::<Seq<char>>::empty());
    }
    for i in 0..n
        invariant
            n == s@.len(),
            res.deep_view() + split_records(s@.skip(i as int), cur@) =~= records(s@),
    {
        let c = s.get_char(i);
        proof {
            assert(s@.skip(i as int)[0] == c);
            assert(s@.skip(i as int).skip(1) =~= s@.skip(i as int + 1));
        }
        if c == '\n' {
            let ghost prev = res.deep_view();
            let ghost cv = cur@;
            res.push(cur);
            cur = String::new();
            proof {
                assert(res.deep_view() =~= prev.push(cv));
            }
        } else {
            cur.push(c);
        }
    }
    if cur.unicode_len() > 0 {
        let ghost prev = res.deep_view();
        let ghost cv = cur@;
        res.push(cur);
        proof {
            assert(res.deep_view() =~= prev.push(cv));
        }
    }
    proof {
        assert(res.deep_view() =~= records(s@));
    }
    res
}

/// Splits `line` into its whitespace-separated tokens.
pub fn tokens_of(line: &str) -> (res: Vec<String>)
    ensures
        res.deep_view() == tokens(line@),
{
    let mut res: Vec<String> = Vec::new();
    let mut cur: String = String::new();
    let n = line.unicode_len();
    proof {
        assert(line@.skip(0) =~= line@);
        assert(res.deep_view() =~= Seq::<Seq<char>>::empty());
    }
    for i in 0..n
        invariant
            n == line@.len(),
            res.deep_view() + split_tokens(line@.skip(i as int), cur@) =~= tokens(line@),
    {
        let c = line.get_char(i);
        proof {
            assert(line@.skip(i as int)[0] == c);
            assert(line@.skip(i as int).skip(1) =~= line@.skip(i as int + 1));
        }
        if is_ws_char(c) {
            if cur.unicode_len() > 0 {
                let ghost prev = res.deep_view();
                let ghost cv = cur@;
                res.push(cur);
                cur = String::new();
                proof {
                    assert(res.deep_view() =~= prev.push(cv));
                }
            } else {
                proof {
                    assert(cur@ =~= Seq::<char>::empty());
                }
            }
        } else {
            cur.push(c);
        }
    }
    if cur.unicode_len() > 0 {
        let ghost prev = res.deep_view();
        let ghost cv = cur@;
        res.push(cur);
        proof {
            assert(res.deep_view() =~= prev.push(cv));
        }
    }
    proof {
        assert(res.deep_view() =~= tokens(line@));
    }
    res
}

/// The decimal digit `d` as a character.
fn dec_digit_char(d: u32) -> (c: char)
    requires
        d < 10,
    ensures
        c == dec_digit(d as nat),
{
    if d == 0 {
        '0'
    } else if d == 1 {
        '1'
    } else if d == 2 {
        '2'
    } else if d == 3 {
        '3'
    } else if d == 4 {
        '4'
    } else if d == 5 {
        '5'
    } else if d == 6 {
        '6'
    } else if d == 7 {
        '7'
    } else if d == 8 {
        '8'
    } else {
        '9'
    }
}

/// Appends the decimal rendering of `n` to `out`.
pub fn push_decimal(n: u32, out: &mut String)
    ensures
        final(out)@ == old(out)@ + dec_str(n as nat),
    decreases n,
{
    if n >= 10 {
        push_decimal(n / 10, out);
    }
    out.push(dec_digit_char(n % 10));
    proof {
        if n < 10 {
            assert(old(out)@ + dec_str(n as nat) =~= old(out)@.push(dec_digit(n as nat)));
        } else {
            assert(old(out)@ + dec_str(n as nat) =~= (old(out)@ + dec_str(n as nat / 10)).push(
                dec_digit(n as nat % 10),
            ));
        }
    }
}

} // verus!

//! What holds of every range notation: normal tokens stay what they are, and translating twice
//! restores the order.

use vstd::prelude::*;

use crate::error::Error;
use crate::range;
use crate::text;

verus! {

/// Whether a character may stand in a token as it is written: a digit, a sign, or a rank, suit or
/// offsuit mark in either case.
pub open spec fn writable(c: char) -> bool {
    ||| '0' <= c <= '9'
    ||| c == '+' || c == '-' || c == ':' || c == '.'
    ||| c == 't' || c == 'j' || c == 'q' || c == 'k' || c == 'a'
    ||| c == 'T' || c == 'J' || c == 'Q' || c == 'K' || c == 'A'
    ||| c == 's' || c == 'h' || c == 'd' || c == 'c' || c == 'o'
    ||| c == 'S' || c == 'H' || c == 'D' || c == 'C' || c == 'O'
}

/// A character as tokens have it: ranks capital, suits and the offsuit mark small.
pub open spec fn normal_char(c: char) -> char {
    if c == 't' || c == 'j' || c == 'q' || c == 'k' || c == 'a' {
        text::upper(c)
    } else if c == 'S' || c == 'H' || c == 'D' || c == 'C' || c == 'O' {
        text::lower(c)
    } else {
        c
    }
}

/// A token in its normal form: not empty, and of characters of the engine only.
pub open spec fn normal(t: Seq<char>) -> bool {
    &&& t.len() > 0
    &&& forall|i: int| 0 <= i < t.len() ==> range::allowed(#[trigger] t[i])
}

proof fn lemma_chars(c: char)
    ensures
        range::allowed(range::mapped(c)) <==> writable(c),
        writable(c) ==> range::mapped(c) == normal_char(c),
        range::allowed(c) ==> range::mapped(c) == c && !range::separator(c) && !text::blank(c),
{
}

proof fn lemma_normalized(word: Seq<char>, k: int)
    requires
        0 <= k <= word.len(),
    ensures
        range::normalized(word, k) is Ok <==> forall|i: int| 0 <= i < k ==> writable(#[trigger] word[i]),
        range::normalized(word, k) is Ok ==> range::normalized(word, k)->Ok_0 == Seq::new(
            k as nat,
            |i: int| normal_char(word[i]),
        ),
    decreases k,
{
    if k > 0 {
        lemma_normalized(word, k - 1);
        lemma_chars(word[k - 1]);
        if range::normalized(word, k) is Ok {
            assert(range::normalized(word, k)->Ok_0 =~= Seq::new(k as nat, |i: int| normal_char(word[i])));
        }
    } else {
        assert(Seq::new(0, |i: int| normal_char(word[i])) =~= Seq::<char>::empty());
    }
}

/// A word is a token exactly where all its characters may stand in one; its normal form has as many
/// characters, ranks capital and suits small, and is its own normal form.
pub proof fn law_normal_tokens(word: Seq<char>)
    ensures
        range::normalized(word, word.len() as int) is Ok <==> forall|i: int|
            0 <= i < word.len() ==> writable(#[trigger] word[i]),
        range::normalized(word, word.len() as int) is Ok ==> {
            let t = range::normalized(word, word.len() as int)->Ok_0;
            &&& t == Seq::new(word.len(), |i: int| normal_char(word[i]))
            &&& word.len() > 0 ==> normal(t)
            &&& range::normalized(t, t.len() as int) == Ok::<Seq<char>, Error>(t)
        },
{
    lemma_normalized(word, word.len() as int);
    if range::normalized(word, word.len() as int) is Ok {
        let t = range::normalized(word, word.len() as int)->Ok_0;
        assert forall|i: int| 0 <= i < t.len() implies range::allowed(#[trigger] t[i]) && writable(t[i])
            && normal_char(t[i]) == t[i] by {
            assert(writable(word[i]));
            lemma_chars(word[i]);
            lemma_chars(t[i]);
        }
        lemma_normalized(t, t.len() as int);
        assert(Seq::new(t.len(), |i: int| normal_char(t[i])) =~= t);
    }
}

proof fn lemma_words_are_not_empty(p: Seq<Seq<char>>, i: int)
    requires
        0 <= i < range::words(p).len(),
    ensures
        range::words(p)[i].len() > 0,
    decreases p.len(),
{
    if i < range::words(p.drop_last()).len() {
        lemma_words_are_not_empty(p.drop_last(), i);
    }
}

proof fn lemma_tokens_are_normal(w: Seq<Seq<char>>, k: int, i: int)
    requires
        0 <= k <= w.len(),
        range::tokens(w, k) is Ok,
        forall|j: int| 0 <= j < w.len() ==> (#[trigger] w[j]).len() > 0,
    ensures
        range::tokens(w, k)->Ok_0.len() == k,
        0 <= i < k ==> normal(range::tokens(w, k)->Ok_0[i]),
    decreases k,
{
    if k > 0 {
        lemma_tokens_are_normal(w, k - 1, i);
        law_normal_tokens(w[k - 1]);
    }
}

/// A normal token is one piece, one word and one token.
proof fn lemma_single(t: Seq<char>)
    requires
        normal(t),
    ensures
        range::range_tokens(t) == Ok::<Seq<Seq<char>>, Error>(seq![t]),
{
    lemma_one_piece(t, t.len() as int);
    assert(t.take(t.len() as int) =~= t);
    let p = range::pieces(t);
    lemma_chars(t.first());
    lemma_chars(t.last());
    assert(range::allowed(t[0]) && range::allowed(t[t.len() - 1]));
    assert(range::trim(t) == t);
    assert(p == seq![t]);
    assert(p.last() == t);
    assert(p.drop_last() =~= Seq::empty());
    assert(range::words(p.drop_last()) =~= Seq::empty());
    assert(range::words(p) =~= seq![t]);
    law_normal_tokens(t);
    assert forall|i: int| 0 <= i < t.len() implies writable(#[trigger] t[i]) && normal_char(t[i]) == t[i] by {
        lemma_chars(t[i]);
    }
    assert(Seq::new(t.len(), |i: int| normal_char(t[i])) =~= t);
    reveal_with_fuel(range::tokens, 2);
    assert(range::tokens(seq![t], 1)->Ok_0 =~= seq![t]);
}

proof fn lemma_one_piece(t: Seq<char>, k: int)
    requires
        normal(t),
        0 <= k <= t.len(),
    ensures
        range::pieces(t.take(k)) == seq![t.take(k)],
    decreases k,
{
    let s = t.take(k);
    if k == 0 {
        assert(s =~= Seq::empty());
    } else {
        lemma_one_piece(t, k - 1);
        assert(s.drop_last() =~= t.take(k - 1));
        lemma_chars(t[k - 1]);
        assert(s.last() == t[k - 1]);
        let before = range::pieces(s.drop_last());
        assert(before.drop_last() =~= Seq::empty());
        assert(t.take(k - 1).push(t[k - 1]) =~= s);
        assert(range::pieces(s) =~= seq![s]);
    }
}

proof fn lemma_backwards(t: Seq<Seq<char>>)
    requires
        t.len() > 0,
        forall|i: int| 0 <= i < t.len() ==> normal(#[trigger] t[i]),
    ensures
        range::range_tokens(range::backwards(t)) == Ok::<Seq<Seq<char>>, Error>(t.reverse()),
        forall|i: int|
            0 <= i < range::backwards(t).len() ==> {
                let c = #[trigger] range::backwards(t)[i];
                c == ',' || range::allowed(c)
            },
    decreases t.len(),
{
    if t.len() == 1 {
        lemma_single(t[0]);
        assert(t.reverse() =~= seq![t[0]]);
        assert(normal(t[0]));
    } else {
        let rest = t.drop_last();
        let a = t.last();
        let b = range::backwards(rest);
        assert forall|i: int| 0 <= i < rest.len() implies normal(#[trigger] rest[i]) by {
            assert(rest[i] == t[i]);
        }
        lemma_backwards(rest);
        assert(normal(a));
        lemma_single(a);
        let v = range::words(range::pieces(a));
        let w = range::words(range::pieces(b));
        range::lemma_pieces_of_two(a, ',', b);
        range::lemma_words_of_two(range::pieces(a), range::pieces(b));
        range::lemma_tokens_of_two(v, w, (v.len() + w.len()) as int);
        lemma_token_count(w, w.len() as int);
        assert(t.reverse() =~= seq![a] + rest.reverse());
        let s = range::backwards(t);
        assert(s == a.push(',') + b);
        assert forall|i: int| 0 <= i < s.len() implies ({
            let c = #[trigger] s[i];
            c == ',' || range::allowed(c)
        }) by {
            if i < a.len() {
                assert(range::allowed(a[i]));
            } else if i > a.len() {
                assert(s[i] == b[i - a.len() - 1]);
            }
        }
    }
}

proof fn lemma_token_count(w: Seq<Seq<char>>, k: int)
    requires
        0 <= k <= w.len(),
        range::tokens(w, k) is Ok,
    ensures
        range::tokens(w, k)->Ok_0.len() == k,
    decreases k,
{
    if k > 0 {
        lemma_token_count(w, k - 1);
    }
}

/// The engine's notation of a range has no blanks and no empty tokens. Its tokens are those of the
/// range in the opposite order; translating it restores the order, and translating that gives the
/// same notation again.
pub proof fn law_translating_twice_restores_the_order(s: Seq<char>)
    requires
        range::notation(s) is Ok,
    ensures
        ({
            let t = range::range_tokens(s)->Ok_0;
            let first = range::notation(s)->Ok_0;
            let second = range::notation(first)->Ok_0;
            &&& range::range_tokens(s) is Ok
            &&& forall|i: int| 0 <= i < t.len() ==> normal(#[trigger] t[i])
            &&& forall|i: int|
                0 <= i < first.len() ==> (#[trigger] first[i] == ',' || range::allowed(first[i]))
                    && !text::blank(first[i])
            &&& range::range_tokens(first) == Ok::<Seq<Seq<char>>, Error>(t.reverse())
            &&& range::notation(first) is Ok
            &&& range::range_tokens(second) == Ok::<Seq<Seq<char>>, Error>(t)
            &&& range::notation(second) == Ok::<Seq<char>, Error>(first)
        }),
{
    let w = range::words(range::pieces(s));
    let t = range::range_tokens(s)->Ok_0;
    let first = range::notation(s)->Ok_0;
    assert forall|j: int| 0 <= j < w.len() implies (#[trigger] w[j]).len() > 0 by {
        lemma_words_are_not_empty(range::pieces(s), j);
    }
    lemma_token_count(w, w.len() as int);
    assert forall|i: int| 0 <= i < t.len() implies normal(#[trigger] t[i]) by {
        lemma_tokens_are_normal(w, w.len() as int, i);
    }
    lemma_backwards(t);
    let r = t.reverse();
    assert forall|i: int| 0 <= i < r.len() implies normal(#[trigger] r[i]) by {
        assert(r[i] == t[t.len() - 1 - i]);
    }
    lemma_backwards(r);
    assert(r.reverse() =~= t);
    assert forall|i: int| 0 <= i < first.len() implies (#[trigger] first[i] == ',' || range::allowed(
        first[i],
    )) && !text::blank(first[i]) by {
        lemma_chars(first[i]);
    }
}

} // verus!

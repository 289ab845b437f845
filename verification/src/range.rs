//! Range notation.
//!
//! A range is a list of tokens such as `22+`, `A2s+`, `T9s-65s`, `AhKh` or `KQo:0.5`, parted by
//! commas and blanks, in capital or small letters. A later token overrides an earlier one. The
//! engine parts tokens by commas alone, wants capital ranks and small suits, and lets the earlier
//! token win, so it is given the tokens in the opposite order.

use vstd::prelude::*;

use crate::error::Error;
use crate::range_laws;
use crate::text;

pub use crate::weights::total_weight;

verus! {

/// Whether a character parts tokens.
pub open spec fn separator(c: char) -> bool {
    c == ',' || c == ' ' || c == '\t' || c == '\n' || c == '\r'
}

/// The pieces between separators.
pub open spec fn pieces(s: Seq<char>) -> Seq<Seq<char>>
    decreases s.len(),
{
    if s.len() == 0 {
        seq![Seq::empty()]
    } else {
        let before = pieces(s.drop_last());
        if separator(s.last()) {
            before.push(Seq::empty())
        } else {
            before.drop_last().push(before.last().push(s.last()))
        }
    }
}

/// Text without the blanks at its end.
pub open spec fn trim_end(s: Seq<char>) -> Seq<char>
    decreases s.len(),
{
    if s.len() > 0 && text::blank(s.last()) {
        trim_end(s.drop_last())
    } else {
        s
    }
}

/// Text without the blanks at its start.
pub open spec fn trim_start(s: Seq<char>) -> Seq<char>
    decreases s.len(),
{
    if s.len() > 0 && text::blank(s.first()) {
        trim_start(s.drop_first())
    } else {
        s
    }
}

/// Text without the blanks at its ends.
pub open spec fn trim(s: Seq<char>) -> Seq<char> {
    trim_end(trim_start(s))
}

/// The pieces, trimmed, that are not empty.
pub open spec fn words(p: Seq<Seq<char>>) -> Seq<Seq<char>>
    decreases p.len(),
{
    if p.len() == 0 {
        Seq::empty()
    } else {
        let before = words(p.drop_last());
        let word = trim(p.last());
        if word.len() == 0 {
            before
        } else {
            before.push(word)
        }
    }
}

/// A character as the engine writes it: suits and the offsuit mark small, all else capital.
pub open spec fn mapped(c: char) -> char {
    let u = text::upper(c);
    if u == 'S' || u == 'H' || u == 'D' || u == 'C' || u == 'O' {
        text::lower(u)
    } else {
        u
    }
}

/// Whether a character occurs in tokens.
pub open spec fn allowed(c: char) -> bool {
    ||| '0' <= c <= '9'
    ||| c == 'T'
    ||| c == 'J'
    ||| c == 'Q'
    ||| c == 'K'
    ||| c == 'A'
    ||| c == 's'
    ||| c == 'h'
    ||| c == 'd'
    ||| c == 'c'
    ||| c == 'o'
    ||| c == '+'
    ||| c == '-'
    ||| c == ':'
    ||| c == '.'
}

/// The first `k` characters of a token as the engine writes them.
pub open spec fn normalized(word: Seq<char>, k: int) -> Result<Seq<char>, Error>
    decreases k,
{
    if k <= 0 {
        Ok(Seq::empty())
    } else {
        match normalized(word, k - 1) {
            Err(e) => Err(e),
            Ok(before) => if allowed(mapped(word[k - 1])) {
                Ok(before.push(mapped(word[k - 1])))
            } else {
                Err(Error::RangeChar(word[k - 1]))
            },
        }
    }
}

/// The first `k` words as tokens.
pub open spec fn tokens(w: Seq<Seq<char>>, k: int) -> Result<Seq<Seq<char>>, Error>
    decreases k,
{
    if k <= 0 {
        Ok(Seq::empty())
    } else {
        match tokens(w, k - 1) {
            Err(e) => Err(e),
            Ok(before) => match normalized(w[k - 1], w[k - 1].len() as int) {
                Err(e) => Err(e),
                Ok(token) => Ok(before.push(token)),
            },
        }
    }
}

/// The tokens from the last to the first, parted by commas.
pub open spec fn backwards(t: Seq<Seq<char>>) -> Seq<char>
    decreases t.len(),
{
    if t.len() == 0 {
        Seq::empty()
    } else if t.len() == 1 {
        t[0]
    } else {
        t.last().push(',') + backwards(t.drop_last())
    }
}

/// The tokens of a range.
pub open spec fn range_tokens(s: Seq<char>) -> Result<Seq<Seq<char>>, Error> {
    let w = words(pieces(s));
    tokens(w, w.len() as int)
}

/// A range as the engine writes it.
pub open spec fn notation(s: Seq<char>) -> Result<Seq<char>, Error> {
    match range_tokens(s) {
        Err(e) => Err(e),
        Ok(t) => if t.len() == 0 {
            Err(Error::RangeEmpty)
        } else {
            Ok(backwards(t))
        },
    }
}

fn is_separator(c: char) -> (r: bool)
    ensures
        r == separator(c),
{
    c == ',' || c == ' ' || c == '\t' || c == '\n' || c == '\r'
}

fn is_allowed(c: char) -> (r: bool)
    ensures
        r == allowed(c),
{
    ('0' <= c && c <= '9') || c == 'T' || c == 'J' || c == 'Q' || c == 'K' || c == 'A' || c == 's'
        || c == 'h' || c == 'd' || c == 'c' || c == 'o' || c == '+' || c == '-' || c == ':' || c
        == '.'
}

fn map_char(c: char) -> (r: char)
    ensures
        r == mapped(c),
{
    let u: char = text::to_upper(c);
    if u == 'S' || u == 'H' || u == 'D' || u == 'C' || u == 'O' {
        text::to_lower(u)
    } else {
        u
    }
}

proof fn lemma_trim_start(s: Seq<char>, k: int)
    requires
        0 <= k <= s.len(),
        forall|i: int| 0 <= i < k ==> text::blank(#[trigger] s[i]),
    ensures
        trim_start(s) == trim_start(s.skip(k)),
    decreases k,
{
    if k == 0 {
        assert(s.skip(0) =~= s);
    } else {
        lemma_trim_start(s, k - 1);
        let t = s.skip(k - 1);
        assert(t.first() == s[k - 1]);
        assert(t.drop_first() =~= s.skip(k));
    }
}

proof fn lemma_trim_end(s: Seq<char>, k: int)
    requires
        0 <= k <= s.len(),
        forall|i: int| k <= i < s.len() ==> text::blank(#[trigger] s[i]),
    ensures
        trim_end(s) == trim_end(s.take(k)),
    decreases s.len() - k,
{
    if k == s.len() {
        assert(s.take(k) =~= s);
    } else {
        lemma_trim_end(s.drop_last(), k);
        assert(s.drop_last().take(k) =~= s.take(k));
        assert(text::blank(s.last()));
    }
}

/// Text without the blanks at its ends.
pub(crate) fn trim_chars(s: &Vec<char>) -> (r: Vec<char>)
    ensures
        r@ == trim(s@),
{
    let n: usize = s.len();
    let mut from: usize = 0;
    while from < n && text::is_blank(s[from])
        invariant
            n == s@.len(),
            from <= n,
            forall|i: int| 0 <= i < from ==> text::blank(#[trigger] s@[i]),
        decreases n - from,
    {
        from = from + 1;
    }
    let mut to: usize = n;
    while to > from && text::is_blank(s[to - 1])
        invariant
            n == s@.len(),
            from <= to <= n,
            forall|i: int| to <= i < n ==> text::blank(#[trigger] s@[i]),
        decreases to,
    {
        to = to - 1;
    }
    let mut out: Vec<char> = Vec::new();
    for i in from..to
        invariant
            from <= to <= s@.len(),
            out@ == s@.subrange(from as int, i as int),
    {
        out.push(s[i]);
        assert(s@.subrange(from as int, i + 1) =~= s@.subrange(from as int, i as int).push(
            s@[i as int],
        ));
    }
    proof {
        let rest = s@.skip(from as int);
        lemma_trim_start(s@, from as int);
        assert(rest.len() > 0 ==> rest.first() == s@[from as int]);
        assert(trim_start(rest) == rest);
        assert forall|i: int| to - from <= i < rest.len() implies text::blank(#[trigger] rest[i]) by {
            assert(rest[i] == s@[from + i]);
        }
        lemma_trim_end(rest, to - from);
        let kept = rest.take(to - from);
        assert(kept =~= s@.subrange(from as int, to as int));
        assert(kept.len() > 0 ==> kept.last() == s@[to - 1]);
    }
    out
}

/// A word as a token, with ranks capital and suits small: the word must be made of digits, signs,
/// ranks, suits and the offsuit mark, in either case. A token is what it is made into.
pub fn normalize_token(token: &str) -> (r: Result<String, Error>)
    ensures
        match normalized(token@, token@.len() as int) {
            Err(e) => r == Err::<String, Error>(e),
            Ok(t) => r is Ok && r->Ok_0@ == t,
        },
        r is Ok <==> forall|i: int| 0 <= i < token@.len() ==> range_laws::writable(#[trigger] token@[i]),
        r is Ok ==> {
            let t = r->Ok_0@;
            &&& t == Seq::new(token@.len(), |i: int| range_laws::normal_char(token@[i]))
            &&& normalized(t, t.len() as int) == Ok::<Seq<char>, Error>(t)
        },
{
    let word: Vec<char> = text::chars_of(token);
    let mut out: String = String::new();
    proof {
        range_laws::law_normal_tokens(token@);
        assert(out@ =~= Seq::empty());
    }
    for i in 0..word.len()
        invariant
            word@ == token@,
            normalized(word@, i as int) == Ok::<Seq<char>, Error>(out@),
            normalized(word@, word@.len() as int) is Ok <==> forall|k: int|
                0 <= k < token@.len() ==> range_laws::writable(#[trigger] token@[k]),
    {
        let c: char = map_char(word[i]);
        if !is_allowed(c) {
            proof {
                lemma_normalized_stop(word@, i + 1, word@.len() as int);
            }
            return Err(Error::RangeChar(word[i]));
        }
        out.push(c);
    }
    Ok(out)
}

proof fn lemma_normalized_stop(word: Seq<char>, j: int, k: int)
    requires
        j <= k,
        normalized(word, j) is Err,
    ensures
        normalized(word, k) == normalized(word, j),
    decreases k,
{
    if j < k {
        lemma_normalized_stop(word, j, k - 1);
    }
}

proof fn lemma_tokens_stop(w: Seq<Seq<char>>, j: int, k: int)
    requires
        j <= k,
        tokens(w, j) is Err,
    ensures
        tokens(w, k) == tokens(w, j),
    decreases k,
{
    if j < k {
        lemma_tokens_stop(w, j, k - 1);
    }
}

/// The contents of a list of texts.
pub open spec fn texts(v: Seq<Vec<char>>) -> Seq<Seq<char>> {
    Seq::new(v.len(), |i: int| v[i]@)
}

/// The pieces between separators.
fn split(s: &Vec<char>) -> (r: Vec<Vec<char>>)
    ensures
        texts(r@) == pieces(s@),
{
    let mut done: Vec<Vec<char>> = Vec::new();
    let mut current: Vec<char> = Vec::new();
    assert(texts(done@).push(current@) =~= pieces(s@.take(0)));
    for i in 0..s.len()
        invariant
            texts(done@).push(current@) == pieces(s@.take(i as int)),
    {
        let ghost before = texts(done@).push(current@);
        let ghost part = current@;
        assert(s@.take(i + 1).drop_last() =~= s@.take(i as int));
        assert(before.drop_last() =~= texts(done@));
        assert(before.last() == current@);
        let c: char = s[i];
        if is_separator(c) {
            let mut next: Vec<char> = Vec::new();
            std::mem::swap(&mut next, &mut current);
            let ghost old_done = texts(done@);
            done.push(next);
            assert(texts(done@) =~= old_done.push(part));
            assert(current@ =~= Seq::empty());
        } else {
            current.push(c);
        }
        assert(texts(done@).push(current@) =~= pieces(s@.take(i + 1)));
    }
    assert(s@.take(s@.len() as int) =~= s@);
    let ghost whole = texts(done@).push(current@);
    done.push(current);
    assert(texts(done@) =~= whole);
    done
}

/// The tokens of a range.
fn split_tokens(input: &str) -> (r: Result<Vec<String>, Error>)
    ensures
        match range_tokens(input@) {
            Err(e) => r == Err::<Vec<String>, Error>(e),
            Ok(t) => r is Ok && text::letters(r->Ok_0@) == t,
        },
{
    let chars: Vec<char> = text::chars_of(input);
    let parts: Vec<Vec<char>> = split(&chars);
    let ghost p = pieces(input@);
    let ghost all = words(p);
    let mut out: Vec<String> = Vec::new();
    let ghost mut seen: Seq<Seq<char>> = Seq::empty();
    assert(p.take(0) =~= Seq::empty());
    assert(text::letters(out@) =~= Seq::empty());
    for i in 0..parts.len()
        invariant
            texts(parts@) == p,
            all == words(p),
            seen == words(p.take(i as int)),
            seen.len() <= all.len(),
            seen == all.take(seen.len() as int),
            tokens(all, seen.len() as int) == Ok::<Seq<Seq<char>>, Error>(text::letters(out@)),
            range_tokens(input@) == tokens(all, all.len() as int),
    {
        let word: Vec<char> = trim_chars(&parts[i]);
        proof {
            assert(p.take(i + 1).drop_last() =~= p.take(i as int));
            assert(p.take(i + 1).last() == texts(parts@)[i as int]);
            lemma_words_prefix(p, i + 1);
        }
        if word.len() > 0 {
            proof {
                let more = seen.push(word@);
                assert(words(p.take(i + 1)) == more);
                assert(all.take(more.len() as int)[seen.len() as int] == word@);
                assert(all[seen.len() as int] == word@);
                assert(more =~= all.take(more.len() as int));
            }
            let mut token: String = String::new();
            text::append(&mut token, &word);
            assert(token@ =~= word@);
            match normalize_token(token.as_str()) {
                Ok(token) => {
                    let ghost old_out = text::letters(out@);
                    let ghost t = token@;
                    out.push(token);
                    assert(text::letters(out@) =~= old_out.push(t));
                    proof {
                        seen = seen.push(word@);
                    }
                },
                Err(e) => {
                    proof {
                        lemma_tokens_stop(all, seen.len() as int + 1, all.len() as int);
                    }
                    return Err(e);
                },
            }
        }
    }
    assert(p.take(p.len() as int) =~= p);
    Ok(out)
}

/// The words of the first pieces are the first words.
proof fn lemma_words_prefix(p: Seq<Seq<char>>, k: int)
    requires
        0 <= k <= p.len(),
    ensures
        words(p.take(k)).len() <= words(p).len(),
        words(p.take(k)) == words(p).take(words(p.take(k)).len() as int),
    decreases p.len() - k,
{
    if k == p.len() {
        assert(p.take(k) =~= p);
        assert(words(p).take(words(p).len() as int) =~= words(p));
    } else {
        lemma_words_prefix(p, k + 1);
        assert(p.take(k + 1).drop_last() =~= p.take(k));
        let a = words(p.take(k));
        let b = words(p.take(k + 1));
        assert(a =~= b.take(a.len() as int));
        assert(a =~= words(p).take(a.len() as int)) by {
            assert forall|i: int| 0 <= i < a.len() implies a[i] == words(p)[i] by {
                assert(a[i] == b[i]);
                assert(words(p).take(b.len() as int)[i] == words(p)[i]);
            }
        }
    }
}

/// A range as the engine writes it.
pub fn to_library_notation(input: &str) -> (r: Result<String, Error>)
    ensures
        match notation(input@) {
            Err(e) => r == Err::<String, Error>(e),
            Ok(t) => r is Ok && r->Ok_0@ == t,
        },
{
    let tokens: Vec<String> = match split_tokens(input) {
        Ok(tokens) => tokens,
        Err(e) => return Err(e),
    };
    let n: usize = tokens.len();
    if n == 0 {
        return Err(Error::RangeEmpty);
    }
    let ghost t = text::letters(tokens@);
    let mut out: String = String::new();
    let mut left: usize = n;
    assert(t.take(n as int) =~= t);
    assert(out@ + backwards(t) =~= backwards(t));
    while left > 1
        invariant
            n == tokens@.len(),
            t == text::letters(tokens@),
            1 <= left <= n,
            out@ + backwards(t.take(left as int)) == backwards(t),
        decreases left,
    {
        let ghost before = out@;
        text::append_str(&mut out, tokens[left - 1].as_str());
        out.push(',');
        proof {
            let now = t.take(left as int);
            assert(now.drop_last() =~= t.take(left - 1));
            assert(now.last() == t[left - 1]);
            assert(out@ =~= before + t[left - 1].push(','));
            assert(before + (t[left - 1].push(',') + backwards(t.take(left - 1))) =~= out@ + backwards(
                t.take(left - 1),
            ));
        }
        left = left - 1;
    }
    text::append_str(&mut out, tokens[0].as_str());
    assert(t.take(1)[0] == t[0]);
    Ok(out)
}

pub proof fn lemma_pieces_of_two(a: Seq<char>, c: char, b: Seq<char>)
    requires
        separator(c),
    ensures
        pieces(a.push(c) + b) == pieces(a) + pieces(b),
        pieces(b).len() > 0,
    decreases b.len(),
{
    let s = a.push(c) + b;
    if b.len() == 0 {
        assert(s =~= a.push(c));
        assert(s.drop_last() =~= a);
        assert(pieces(s) =~= pieces(a) + pieces(b));
    } else {
        lemma_pieces_of_two(a, c, b.drop_last());
        assert(s.drop_last() =~= a.push(c) + b.drop_last());
        assert(s.last() == b.last());
        let p = pieces(a);
        let q = pieces(b.drop_last());
        assert((p + q).drop_last() =~= p + q.drop_last());
        assert((p + q).last() == q.last());
        assert(pieces(s) =~= p + pieces(b));
    }
}

pub proof fn lemma_words_of_two(p: Seq<Seq<char>>, q: Seq<Seq<char>>)
    ensures
        words(p + q) == words(p) + words(q),
    decreases q.len(),
{
    if q.len() == 0 {
        assert(p + q =~= p);
        assert(words(p) + words(q) =~= words(p));
    } else {
        lemma_words_of_two(p, q.drop_last());
        assert((p + q).drop_last() =~= p + q.drop_last());
        assert((p + q).last() == q.last());
        assert(words(p + q) =~= words(p) + words(q));
    }
}

pub proof fn lemma_tokens_of_two(v: Seq<Seq<char>>, w: Seq<Seq<char>>, k: int)
    requires
        tokens(v, v.len() as int) is Ok,
        tokens(w, w.len() as int) is Ok,
        0 <= k <= v.len() + w.len(),
    ensures
        k <= v.len() ==> tokens(v + w, k) == tokens(v, k) && tokens(v, k) is Ok,
        k > v.len() ==> tokens(w, k - v.len()) is Ok && tokens(v + w, k) == Ok::<
            Seq<Seq<char>>,
            Error,
        >(tokens(v, v.len() as int)->Ok_0 + tokens(w, k - v.len())->Ok_0),
    decreases k,
{
    if k > 0 {
        lemma_tokens_of_two(v, w, k - 1);
        if k <= v.len() {
            assert((v + w)[k - 1] == v[k - 1]);
            if tokens(v, k) is Err {
                lemma_tokens_stop(v, k, v.len() as int);
            }
        } else {
            let j = k - v.len();
            assert((v + w)[k - 1] == w[j - 1]);
            if tokens(w, j) is Err {
                lemma_tokens_stop(w, j, w.len() as int);
            }
            let t = tokens(v, v.len() as int)->Ok_0;
            if j == 1 {
                assert(t + Seq::<Seq<char>>::empty() =~= t);
                assert(tokens(w, 0) == Ok::<Seq<Seq<char>>, Error>(Seq::empty()));
            }
            let before = tokens(w, j - 1)->Ok_0;
            let last = tokens(w, j)->Ok_0.last();
            assert(t + before.push(last) =~= (t + before).push(last));
        }
    }
}

proof fn lemma_backwards_of_two(t: Seq<Seq<char>>, u: Seq<Seq<char>>)
    requires
        t.len() > 0,
        u.len() > 0,
    ensures
        backwards(t + u) == backwards(u).push(',') + backwards(t),
    decreases u.len(),
{
    let all = t + u;
    assert(all.last() == u.last());
    if u.len() == 1 {
        assert(all.drop_last() =~= t);
    } else {
        lemma_backwards_of_two(t, u.drop_last());
        assert(all.drop_last() =~= t + u.drop_last());
        assert(u.last().push(',') + (backwards(u.drop_last()).push(',') + backwards(t)) =~= (
        u.last().push(',') + backwards(u.drop_last())).push(',') + backwards(t));
    }
}

/// Whatever separator parts two ranges, the engine is given the tokens of the later one first, so
/// that they win.
pub proof fn law_later_tokens_come_first(a: Seq<char>, c: char, b: Seq<char>)
    requires
        separator(c),
        notation(a) is Ok,
        notation(b) is Ok,
    ensures
        notation(a.push(c) + b) == Ok::<Seq<char>, Error>(
            notation(b)->Ok_0.push(',') + notation(a)->Ok_0,
        ),
{
    let v = words(pieces(a));
    let w = words(pieces(b));
    lemma_pieces_of_two(a, c, b);
    lemma_words_of_two(pieces(a), pieces(b));
    lemma_tokens_of_two(v, w, (v.len() + w.len()) as int);
    let t = tokens(v, v.len() as int)->Ok_0;
    let u = tokens(w, w.len() as int)->Ok_0;
    lemma_backwards_of_two(t, u);
}

/// A change of characters that no rule of the notation notices.
spec fn unnoticed(f: spec_fn(char) -> char) -> bool {
    forall|c: char|
        #![trigger f(c)]
        separator(f(c)) == separator(c) && text::blank(f(c)) == text::blank(c) && mapped(f(c))
            == mapped(c)
}

spec fn changed(s: Seq<char>, f: spec_fn(char) -> char) -> Seq<char> {
    Seq::new(s.len(), |i: int| f(s[i]))
}

spec fn all_changed(p: Seq<Seq<char>>, f: spec_fn(char) -> char) -> Seq<Seq<char>> {
    Seq::new(p.len(), |i: int| changed(p[i], f))
}

proof fn lemma_pieces_changed(s: Seq<char>, f: spec_fn(char) -> char)
    requires
        unnoticed(f),
    ensures
        pieces(changed(s, f)) == all_changed(pieces(s), f),
        pieces(s).len() > 0,
    decreases s.len(),
{
    let c = changed(s, f);
    if s.len() == 0 {
        assert(changed(Seq::empty(), f) =~= Seq::empty());
        assert(pieces(c) =~= all_changed(pieces(s), f));
    } else {
        lemma_pieces_changed(s.drop_last(), f);
        assert(c.drop_last() =~= changed(s.drop_last(), f));
        assert(c.last() == f(s.last()));
        let p = pieces(s.drop_last());
        assert(changed(Seq::empty(), f) =~= Seq::empty());
        assert(changed(p.last().push(s.last()), f) =~= changed(p.last(), f).push(f(s.last())));
        assert(all_changed(p, f).drop_last() =~= all_changed(p.drop_last(), f));
        assert(pieces(c) =~= all_changed(pieces(s), f));
    }
}

proof fn lemma_trim_changed(s: Seq<char>, f: spec_fn(char) -> char)
    requires
        unnoticed(f),
    ensures
        trim(changed(s, f)) == changed(trim(s), f),
{
    lemma_trim_start_changed(s, f);
    lemma_trim_end_changed(trim_start(s), f);
}

proof fn lemma_trim_start_changed(s: Seq<char>, f: spec_fn(char) -> char)
    requires
        unnoticed(f),
    ensures
        trim_start(changed(s, f)) == changed(trim_start(s), f),
    decreases s.len(),
{
    let c = changed(s, f);
    if s.len() > 0 {
        assert(c.first() == f(s.first()));
        if text::blank(s.first()) {
            lemma_trim_start_changed(s.drop_first(), f);
            assert(c.drop_first() =~= changed(s.drop_first(), f));
        }
    }
}

proof fn lemma_trim_end_changed(s: Seq<char>, f: spec_fn(char) -> char)
    requires
        unnoticed(f),
    ensures
        trim_end(changed(s, f)) == changed(trim_end(s), f),
    decreases s.len(),
{
    let c = changed(s, f);
    if s.len() > 0 {
        assert(c.last() == f(s.last()));
        if text::blank(s.last()) {
            lemma_trim_end_changed(s.drop_last(), f);
            assert(c.drop_last() =~= changed(s.drop_last(), f));
        }
    }
}

proof fn lemma_words_changed(p: Seq<Seq<char>>, f: spec_fn(char) -> char)
    requires
        unnoticed(f),
    ensures
        words(all_changed(p, f)) == all_changed(words(p), f),
    decreases p.len(),
{
    let c = all_changed(p, f);
    if p.len() == 0 {
        assert(words(c) =~= all_changed(words(p), f));
    } else {
        lemma_words_changed(p.drop_last(), f);
        lemma_trim_changed(p.last(), f);
        assert(c.drop_last() =~= all_changed(p.drop_last(), f));
        assert(words(c) =~= all_changed(words(p), f));
    }
}

proof fn lemma_normalized_changed(word: Seq<char>, f: spec_fn(char) -> char, k: int)
    requires
        unnoticed(f),
        0 <= k <= word.len(),
    ensures
        normalized(word, k) is Ok <==> normalized(changed(word, f), k) is Ok,
        normalized(word, k) is Ok ==> normalized(changed(word, f), k) == normalized(word, k),
    decreases k,
{
    if k > 0 {
        lemma_normalized_changed(word, f, k - 1);
        assert(changed(word, f)[k - 1] == f(word[k - 1]));
    }
}

proof fn lemma_tokens_changed(w: Seq<Seq<char>>, f: spec_fn(char) -> char, k: int)
    requires
        unnoticed(f),
        0 <= k <= w.len(),
    ensures
        tokens(w, k) is Ok <==> tokens(all_changed(w, f), k) is Ok,
        tokens(w, k) is Ok ==> tokens(all_changed(w, f), k) == tokens(w, k),
    decreases k,
{
    if k > 0 {
        lemma_tokens_changed(w, f, k - 1);
        lemma_normalized_changed(w[k - 1], f, w[k - 1].len() as int);
    }
}

proof fn lemma_notation_changed(s: Seq<char>, f: spec_fn(char) -> char)
    requires
        unnoticed(f),
    ensures
        notation(s) is Ok <==> notation(changed(s, f)) is Ok,
        notation(s) is Ok ==> notation(changed(s, f)) == notation(s),
{
    lemma_pieces_changed(s, f);
    lemma_words_changed(pieces(s), f);
    let w = words(pieces(s));
    lemma_tokens_changed(w, f, w.len() as int);
}

/// Capital and small letters are alike.
pub proof fn law_case_does_not_matter(s: Seq<char>)
    ensures
        notation(s) is Ok <==> notation(s.map_values(|c: char| text::upper(c))) is Ok,
        notation(s) is Ok <==> notation(s.map_values(|c: char| text::lower(c))) is Ok,
        notation(s) is Ok ==> notation(s.map_values(|c: char| text::upper(c))) == notation(s),
        notation(s) is Ok ==> notation(s.map_values(|c: char| text::lower(c))) == notation(s),
{
    let up = |c: char| text::upper(c);
    let down = |c: char| text::lower(c);
    assert(s.map_values(up) =~= changed(s, up));
    assert(s.map_values(down) =~= changed(s, down));
    lemma_notation_changed(s, up);
    lemma_notation_changed(s, down);
}

} // verus!

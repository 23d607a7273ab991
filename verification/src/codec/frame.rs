//! Framing: a text is cut into tokens, each written as its length in
//! decimal, a colon, the token itself and a comma, so that a token may hold
//! any character.

use vstd::prelude::*;
use crate::codec::chars::put_all;
use crate::codec::decimal::{
    all_digits, decimal, digit_of, digit_value, lemma_decimal, lemma_number_round_trip, number_u64,
    read_number, write_number, MAX_DIGITS,
};

verus! {

/// A token as it is written.
pub open spec fn framed(token: Seq<char>) -> Seq<char> {
    decimal(token.len()) + seq![':'] + token + seq![',']
}

/// Tokens as they are written, one after the other.
pub open spec fn frames(tokens: Seq<Seq<char>>) -> Seq<char>
    decreases tokens.len(),
{
    if tokens.len() == 0 {
        Seq::empty()
    } else {
        frames(tokens.drop_last()) + framed(tokens.last())
    }
}

/// How many digits the text begins with.
pub open spec fn leading_digits(s: Seq<char>) -> nat
    decreases s.len(),
{
    if s.len() == 0 || digit_value(s[0]) is None {
        0
    } else {
        1 + leading_digits(s.drop_first())
    }
}

/// The first token of a text and where the text goes on after it; none where
/// the text does not begin with a token as it is written.
pub open spec fn unframed(s: Seq<char>) -> Option<(Seq<char>, int)> {
    let k = leading_digits(s) as int;
    match number_u64(s.take(k)) {
        None => None,
        Some(n) => if k < s.len() && s[k] == ':' && k + 1 + n < s.len() && s[k + 1 + n] == ',' {
            Some((s.subrange(k + 1, k + 1 + n), k + 2 + n))
        } else {
            None
        },
    }
}

/// The tokens of a text; none where the text is not made of tokens as they
/// are written, one after the other with nothing in between or after.
pub open spec fn unframes(s: Seq<char>) -> Option<Seq<Seq<char>>>
    decreases s.len(),
{
    if s.len() == 0 {
        Some(Seq::empty())
    } else {
        match unframed(s) {
            None => None,
            Some((token, next)) => if 0 < next <= s.len() {
                match unframes(s.skip(next)) {
                    None => None,
                    Some(rest) => Some(seq![token] + rest),
                }
            } else {
                None
            },
        }
    }
}

/// The digits that a text begins with are digits, and what follows them, if
/// anything, is none.
pub proof fn lemma_leading_digits(s: Seq<char>)
    ensures
        leading_digits(s) <= s.len(),
        all_digits(s.take(leading_digits(s) as int)),
        leading_digits(s) < s.len() ==> digit_value(s[leading_digits(s) as int]) is None,
    decreases s.len(),
{
    if s.len() == 0 || digit_value(s[0]) is None {
    } else {
        let t = s.drop_first();
        lemma_leading_digits(t);
        let k = leading_digits(t) as int;
        assert forall|i: int| 0 <= i < k + 1 implies digit_value(#[trigger] s.take(k + 1)[i]) is Some by {
            if i > 0 {
                assert(s.take(k + 1)[i] == t.take(k)[i - 1]);
            }
        }
        if k < t.len() {
            assert(s[k + 1] == t[k]);
        }
    }
}

/// Where a text begins with digits followed by something that is none, the
/// digits it begins with are exactly those.
pub proof fn lemma_leading_digits_are(s: Seq<char>, k: int)
    requires
        0 <= k <= s.len(),
        all_digits(s.take(k)),
        k < s.len() ==> digit_value(s[k]) is None,
    ensures
        leading_digits(s) == k,
    decreases s.len(),
{
    if k == 0 {
    } else {
        assert(s.take(k)[0] == s[0]);
        let t = s.drop_first();
        assert forall|i: int| 0 <= i < k - 1 implies digit_value(#[trigger] t.take(k - 1)[i]) is Some by {
            assert(t.take(k - 1)[i] == s.take(k)[i + 1]);
        }
        if k - 1 < t.len() {
            assert(t[k - 1] == s[k]);
        }
        lemma_leading_digits_are(t, k - 1);
    }
}

/// A token as it is written, with anything after it, is read back as that
/// token, and the text goes on right after it.
pub proof fn lemma_unframed(token: Seq<char>, rest: Seq<char>)
    requires
        token.len() <= u64::MAX,
    ensures
        unframed(framed(token) + rest) == Some((token, framed(token).len() as int)),
{
    let d = decimal(token.len());
    let s = framed(token) + rest;
    let k = d.len() as int;
    lemma_decimal(token.len());
    lemma_number_round_trip(token.len());
    assert(s.take(k) =~= d);
    assert(s[k] == ':');
    lemma_leading_digits_are(s, k);
    assert(s.subrange(k + 1, k + 1 + token.len()) =~= token);
    assert(s[k + 1 + token.len()] == ',');
}

/// Tokens written one after the other are written as the first of them
/// followed by the others.
pub proof fn lemma_frames_first(tokens: Seq<Seq<char>>)
    requires
        tokens.len() > 0,
    ensures
        frames(tokens) == framed(tokens.first()) + frames(tokens.drop_first()),
    decreases tokens.len(),
{
    if tokens.len() == 1 {
        assert(tokens.drop_last() =~= Seq::<Seq<char>>::empty());
        assert(tokens.drop_first() =~= Seq::<Seq<char>>::empty());
        assert(frames(tokens.drop_last()) =~= Seq::<char>::empty());
        assert(frames(tokens) =~= framed(tokens.first()) + frames(tokens.drop_first()));
    } else {
        let init = tokens.drop_last();
        lemma_frames_first(init);
        assert(init.first() == tokens.first());
        assert(init.drop_first() =~= tokens.drop_first().drop_last());
        assert(tokens.drop_first().last() == tokens.last());
        assert(frames(tokens) =~= framed(tokens.first()) + frames(tokens.drop_first()));
    }
}

/// Two runs of tokens written one after the other.
pub proof fn lemma_frames_add(a: Seq<Seq<char>>, b: Seq<Seq<char>>)
    ensures
        frames(a + b) == frames(a) + frames(b),
    decreases b.len(),
{
    if b.len() == 0 {
        assert(a + b =~= a);
        assert(frames(a) + frames(b) =~= frames(a));
    } else {
        lemma_frames_add(a, b.drop_last());
        assert((a + b).drop_last() =~= a + b.drop_last());
        assert((a + b).last() == b.last());
        assert(frames(a + b) =~= frames(a) + frames(b));
    }
}

/// Every token fits: its length can be written.
pub open spec fn all_fit(tokens: Seq<Seq<char>>) -> bool {
    forall|i: int| 0 <= i < tokens.len() ==> (#[trigger] tokens[i]).len() <= u64::MAX
}

/// Tokens written one after the other are read back as they were.
pub proof fn lemma_unframes(tokens: Seq<Seq<char>>)
    requires
        all_fit(tokens),
    ensures
        unframes(frames(tokens)) == Some(tokens),
    decreases tokens.len(),
{
    if tokens.len() == 0 {
    } else {
        let first = tokens.first();
        let others = tokens.drop_first();
        lemma_frames_first(tokens);
        assert(all_fit(others)) by {
            assert forall|i: int| 0 <= i < others.len() implies (#[trigger] others[i]).len()
                <= u64::MAX by {
                assert(others[i] == tokens[i + 1]);
            }
        }
        lemma_unframes(others);
        lemma_unframed(first, frames(others));
        lemma_decimal(first.len());
        let s = frames(tokens);
        let next = framed(first).len() as int;
        assert(s.skip(next) =~= frames(others));
        assert(seq![first] + others =~= tokens);
    }
}

/// Writes a token at the end of the text.
pub fn put_token(out: &mut Vec<char>, token: &Vec<char>)
    ensures
        final(out)@ == old(out)@ + framed(token@),
{
    write_number(out, token.len() as u64);
    out.push(':');
    put_all(out, token);
    out.push(',');
    assert(out@ =~= old(out)@ + framed(token@));
}

/// The texts of a list of tokens, in order.
pub open spec fn token_texts(tokens: Seq<Vec<char>>) -> Seq<Seq<char>> {
    Seq::new(tokens.len(), |i: int| tokens[i]@)
}

/// Reads the token that begins at `from`: returns it and where the text goes
/// on after it.
pub fn take_token(chars: &Vec<char>, from: usize) -> (r: Option<(Vec<char>, usize)>)
    requires
        from <= chars.len(),
    ensures
        match unframed(chars@.skip(from as int)) {
            Some((token, next)) => r matches Some((t, n)) && t@ == token && n == from + next
                && from < n <= chars.len(),
            None => r is None,
        },
{
    let ghost s = chars@.skip(from as int);
    let mut k: usize = from;
    while k < chars.len() && k - from <= MAX_DIGITS && digit_of(chars[k]).is_some()
        invariant
            from <= k <= chars.len(),
            s == chars@.skip(from as int),
            all_digits(s.take(k - from)),
        decreases chars.len() - k,
    {
        proof {
            let seen = s.take(k - from);
            let next = s.take(k - from + 1);
            assert forall|j: int| 0 <= j < next.len() implies digit_value(#[trigger] next[j]) is Some by {
                if j < seen.len() {
                    assert(next[j] == seen[j]);
                } else {
                    assert(next[j] == chars@[k as int]);
                }
            }
        }
        k += 1;
    }
    proof {
        lemma_leading_digits(s);
        if k - from <= MAX_DIGITS {
            if k < chars.len() {
                assert(s[k - from] == chars@[k as int]);
            }
            lemma_leading_digits_are(s, k - from);
        } else {
            // more digits than a number is read with
            let l = leading_digits(s) as int;
            if l < k - from {
                assert(s.take(k - from)[l] == s[l]);
            }
            assert(l >= k - from);
            assert(s.take(l).len() > MAX_DIGITS);
        }
    }
    if k - from > MAX_DIGITS {
        return None;
    }
    assert(s.take(k - from) =~= chars@.subrange(from as int, k as int));
    let n = match read_number(chars, from, k) {
        Some(n) => n,
        None => {
            return None;
        },
    };
    if k >= chars.len() || chars[k] != ':' {
        proof {
            if k < chars.len() {
                assert(s[k - from] == chars@[k as int]);
            }
        }
        return None;
    }
    assert(s[k - from] == chars@[k as int]);
    let room = chars.len() - k - 1;
    if n >= room as u64 {
        return None;
    }
    let start = k + 1;
    let end = start + n as usize;
    assert(s[end - from] == chars@[end as int]);
    if chars[end] != ',' {
        return None;
    }
    let mut token: Vec<char> = Vec::new();
    let mut i: usize = start;
    while i < end
        invariant
            start <= i <= end < chars.len(),
            token@ == chars@.subrange(start as int, i as int),
        decreases end - i,
    {
        token.push(chars[i]);
        assert(chars@.subrange(start as int, i + 1) =~= chars@.subrange(start as int, i as int).push(
            chars@[i as int],
        ));
        i += 1;
    }
    assert(s.subrange(k - from + 1, k - from + 1 + n) =~= chars@.subrange(
        start as int,
        end as int,
    ));
    Some((token, end + 1))
}

/// Cuts a text into its tokens: see `unframes`.
pub fn split_tokens(chars: &Vec<char>) -> (r: Option<Vec<Vec<char>>>)
    ensures
        match unframes(chars@) {
            Some(tokens) => r matches Some(found) && token_texts(found@) == tokens,
            None => r is None,
        },
{
    let mut found: Vec<Vec<char>> = Vec::new();
    let mut at: usize = 0;
    assert(token_texts(found@) =~= Seq::<Seq<char>>::empty());
    assert(chars@.skip(0) =~= chars@);
    while at < chars.len()
        invariant
            0 <= at <= chars.len(),
            match unframes(chars@.skip(at as int)) {
                Some(rest) => unframes(chars@) == Some(token_texts(found@) + rest),
                None => unframes(chars@) is None,
            },
        decreases chars.len() - at,
    {
        let ghost s = chars@.skip(at as int);
        let ghost before = token_texts(found@);
        match take_token(chars, at) {
            None => {
                return None;
            },
            Some((token, next)) => {
                proof {
                    assert(s.skip(next - at) =~= chars@.skip(next as int));
                    match unframes(chars@.skip(next as int)) {
                        Some(rest) => {
                            assert(before + (seq![token@] + rest) =~= before.push(token@) + rest);
                        },
                        None => {},
                    }
                }
                found.push(token);
                assert(token_texts(found@) =~= before.push(token@));
                at = next;
            },
        }
    }
    proof {
        assert(chars@.skip(at as int) =~= Seq::<char>::empty());
        assert(token_texts(found@) + Seq::<Seq<char>>::empty() =~= token_texts(found@));
    }
    Some(found)
}

} // verus!

//! What holds of the encoder and the decoder together.
use vstd::prelude::*;
use crate::decode::{decoded, lemma_digit_prefix, repeated};
use crate::digits::{decimal, is_digit, lemma_decimal};
use crate::encode::{encoded, expanded, runs, token_text, tokens_text, Token};

verus! {

/// The runs of a text are its maximal blocks: every count is at least 1 and
/// at most the text's length, two neighbouring runs hold different
/// characters, and the runs spelled out give the text back.
pub proof fn lemma_runs_are_maximal(s: Seq<char>)
    ensures
        forall|k: int| 0 <= k < runs(s).len() ==> 1 <= (#[trigger] runs(s)[k]).0 <= s.len(),
        forall|k: int| 0 <= k < runs(s).len() - 1 ==> (#[trigger] runs(s)[k]).1 != runs(s)[k + 1].1,
        expanded(runs(s)) == s,
        s.len() > 0 ==> runs(s).len() > 0 && runs(s).last().1 == s.last(),
    decreases s.len(),
{
    if s.len() > 0 {
        let p = s.drop_last();
        lemma_runs_are_maximal(p);
        let r = runs(p);
        let c = s.last();
        if r.len() > 0 && r.last().1 == c {
            let t = r.last();
            let rest = r.drop_last();
            let next = rest.push((t.0 + 1, c));
            assert(next.drop_last() =~= rest);
            assert(r =~= rest.push(t));
            let old_run = Seq::new(t.0, |_i: int| c);
            assert(Seq::new(t.0 + 1, |_i: int| c) =~= old_run.push(c));
            assert(expanded(r) == expanded(rest) + old_run);
            assert(expanded(next) == expanded(rest) + Seq::new(t.0 + 1, |_i: int| c));
            assert(s =~= p.push(c));
            assert((expanded(rest) + old_run).push(c) =~= expanded(rest) + old_run.push(c));
            assert(expanded(next) =~= s);
            assert forall|k: int| 0 <= k < next.len() - 1 implies (#[trigger] next[k]).1 != next[k
                + 1].1 by {
                assert(next[k] == r[k]);
                if k + 1 < next.len() - 1 {
                    assert(next[k + 1] == r[k + 1]);
                }
            }
        } else {
            let next = r.push((1, c));
            assert(next.drop_last() =~= r);
            assert(Seq::new(1, |_i: int| c) =~= seq![c]);
            assert(expanded(next) =~= s);
        }
    }
}

/// The text of a non-empty token list is that of its first token followed
/// by that of the others, and the same holds of what the tokens stand for.
proof fn lemma_front_split(ts: Seq<Token>)
    requires
        ts.len() > 0,
    ensures
        tokens_text(ts) == token_text(ts[0]) + tokens_text(ts.drop_first()),
        expanded(ts) == Seq::new(ts[0].0, |_i: int| ts[0].1) + expanded(ts.drop_first()),
    decreases ts.len(),
{
    if ts.len() == 1 {
        assert(ts.drop_last() =~= Seq::<Token>::empty());
        assert(ts.drop_first() =~= Seq::<Token>::empty());
        assert(tokens_text(ts) =~= token_text(ts[0]) + tokens_text(ts.drop_first()));
        assert(expanded(ts) =~= Seq::new(ts[0].0, |_i: int| ts[0].1) + expanded(ts.drop_first()));
    } else {
        let init = ts.drop_last();
        lemma_front_split(init);
        assert(init.drop_first() =~= ts.drop_first().drop_last());
        assert(ts.drop_first().last() == ts.last());
        assert(tokens_text(ts) =~= token_text(ts[0]) + tokens_text(ts.drop_first()));
        assert(expanded(ts) =~= Seq::new(ts[0].0, |_i: int| ts[0].1) + expanded(ts.drop_first()));
    }
}

/// Decoding one token followed by more text gives the token's characters
/// followed by the decoding of the rest, when the count is positive and fits
/// in a `usize` and the character is no digit.
proof fn lemma_decode_token(t: Token, rest: Seq<char>)
    requires
        1 <= t.0 <= usize::MAX,
        !is_digit(t.1),
    ensures
        decoded(token_text(t) + rest) == repeated(t.1, t.0) + decoded(rest),
{
    lemma_decimal(t.0);
    let ds = decimal(t.0);
    let u = token_text(t) + rest;
    let l = ds.len();
    assert forall|m: int| 0 <= m < l implies is_digit(#[trigger] u[m]) by {
        assert(u[m] == ds[m]);
    }
    assert(u[l as int] == t.1);
    lemma_digit_prefix(u, l);
    assert(u.take(l as int) =~= ds);
    assert(u.skip(l + 1 as int) =~= rest);
}

/// Decoding the text of tokens whose counts are positive and fit in a
/// `usize`, and whose characters are no digits, gives what they stand for.
proof fn lemma_decode_tokens(ts: Seq<Token>)
    requires
        forall|k: int| 0 <= k < ts.len() ==> 1 <= (#[trigger] ts[k]).0 <= usize::MAX,
        forall|k: int| 0 <= k < ts.len() ==> !is_digit((#[trigger] ts[k]).1),
    ensures
        decoded(tokens_text(ts)) == expanded(ts),
    decreases ts.len(),
{
    if ts.len() == 0 {
        assert(tokens_text(ts) =~= Seq::<char>::empty());
    } else {
        lemma_front_split(ts);
        let tail = ts.drop_first();
        assert forall|k: int| 0 <= k < tail.len() implies 1 <= (#[trigger] tail[k]).0 <= usize::MAX
            && !is_digit(tail[k].1) by {
            assert(tail[k] == ts[k + 1]);
        }
        lemma_decode_tokens(tail);
        lemma_decode_token(ts[0], tokens_text(tail));
    }
}

/// Decoding the encoding of a text that holds no digit gives the text back.
pub proof fn lemma_round_trip(s: Seq<char>)
    requires
        s.len() <= usize::MAX,
        forall|i: int| 0 <= i < s.len() ==> !is_digit(#[trigger] s[i]),
    ensures
        decoded(encoded(s)) == s,
{
    lemma_runs_are_maximal(s);
    let ts = runs(s);
    assert forall|k: int| 0 <= k < ts.len() implies !is_digit((#[trigger] ts[k]).1) by {
        lemma_run_chars_occur(s, k);
    }
    lemma_decode_tokens(ts);
}

/// The character of each run occurs in the text.
proof fn lemma_run_chars_occur(s: Seq<char>, k: int)
    requires
        0 <= k < runs(s).len(),
    ensures
        exists|i: int| 0 <= i < s.len() && s[i] == runs(s)[k].1,
    decreases s.len(),
{
    let p = s.drop_last();
    let r = runs(p);
    let c = s.last();
    if k == runs(s).len() - 1 {
        assert(s[s.len() - 1] == c);
    } else {
        assert(runs(s)[k] == r[k]);
        lemma_run_chars_occur(p, k);
        let i = choose|i: int| 0 <= i < p.len() && p[i] == r[k].1;
        assert(s[i] == p[i]);
    }
}

/// Encoding and then decoding a text that holds no digit keeps its size.
pub proof fn lemma_round_trip_size(s: Seq<char>)
    requires
        s.len() <= usize::MAX,
        forall|i: int| 0 <= i < s.len() ==> !is_digit(#[trigger] s[i]),
    ensures
        decoded(encoded(s)).len() == s.len(),
{
    lemma_round_trip(s);
}

/// A decimal representation is no longer than the number it spells, for
/// positive numbers.
proof fn lemma_decimal_short(n: nat)
    requires
        n >= 1,
    ensures
        decimal(n).len() <= n,
        n >= 10 ==> decimal(n).len() <= n / 10 + 1,
    decreases n,
{
    if n >= 10 {
        lemma_decimal_short(n / 10);
    }
}

/// A text in which no character equals its neighbour encodes to two
/// characters for each of its own: a count of 1 and the character. For such
/// a text the saving is negative, the encoding being longer.
pub proof fn lemma_no_repeats_double(s: Seq<char>)
    requires
        forall|i: int| 0 <= i < s.len() - 1 ==> #[trigger] s[i] != s[i + 1],
    ensures
        runs(s) == Seq::new(s.len(), |i: int| (1nat, s[i])),
        encoded(s).len() == 2 * s.len(),
    decreases s.len(),
{
    if s.len() > 0 {
        let p = s.drop_last();
        assert forall|i: int| 0 <= i < p.len() - 1 implies #[trigger] p[i] != p[i + 1] by {
            assert(s[i] != s[i + 1]);
        }
        lemma_no_repeats_double(p);
        if p.len() > 0 {
            assert(s[p.len() - 1] != s[p.len() as int]);
        }
        let next = runs(p).push((1nat, s.last()));
        assert(runs(s) =~= Seq::new(s.len(), |i: int| (1nat, s[i])));
        assert(next.drop_last() =~= runs(p));
        assert(decimal(1).len() == 1);
    }
}

/// A single run of `n` copies of `c` encodes to `n` in decimal followed by
/// `c`; from three copies on, that is shorter than the run, so the saving is
/// positive.
pub proof fn lemma_single_run(c: char, n: nat)
    requires
        n >= 1,
    ensures
        encoded(repeated(c, n)) == decimal(n).push(c),
        n >= 3 ==> encoded(repeated(c, n)).len() < n,
{
    lemma_runs_single(c, n);
    let ts = seq![(n, c)];
    assert(ts.drop_last() =~= Seq::<Token>::empty());
    assert(tokens_text(Seq::<Token>::empty()) == Seq::<char>::empty());
    assert(tokens_text(ts) =~= decimal(n).push(c));
    lemma_decimal_short(n);
}

/// A single run of `n` copies of `c` has the one token `(n, c)`.
proof fn lemma_runs_single(c: char, n: nat)
    requires
        n >= 1,
    ensures
        runs(repeated(c, n)) == seq![(n, c)],
    decreases n,
{
    let s = repeated(c, n);
    assert(s.last() == c);
    if n == 1 {
        assert(s.drop_last() =~= Seq::<char>::empty());
        assert(runs(Seq::<char>::empty()) == Seq::<Token>::empty());
        assert(runs(s) =~= seq![(1nat, c)]);
    } else {
        lemma_runs_single(c, (n - 1) as nat);
        assert(s.drop_last() =~= repeated(c, (n - 1) as nat));
        let r = seq![((n - 1) as nat, c)];
        assert(r.drop_last() =~= Seq::<Token>::empty());
        assert(runs(s) =~= seq![(n, c)]);
    }
}

} // verus!

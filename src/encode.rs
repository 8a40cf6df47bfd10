//! The encoder: each maximal run of equal characters becomes its length in
//! decimal followed by the character.
use vstd::prelude::*;
use crate::digits::{decimal, push_decimal};
use crate::ratio::PercentChange;
use crate::text::{chars_of, string_of};

verus! {

/// A token of the encoding: a repeat count and the repeated character.
pub type Token = (nat, char);

/// The runs of `s`, left to right: each maximal block of equal adjacent
/// characters as its length and its character.
pub open spec fn runs(s: Seq<char>) -> Seq<Token>
    decreases s.len(),
{
    if s.len() == 0 {
        Seq::empty()
    } else {
        let r = runs(s.drop_last());
        let c = s.last();
        if r.len() > 0 && r.last().1 == c {
            r.drop_last().push((r.last().0 + 1, c))
        } else {
            r.push((1, c))
        }
    }
}

/// The text of one token: the count in decimal, then the character.
pub open spec fn token_text(t: Token) -> Seq<char> {
    decimal(t.0).push(t.1)
}

/// The texts of the tokens, concatenated with no separator.
pub open spec fn tokens_text(ts: Seq<Token>) -> Seq<char>
    decreases ts.len(),
{
    if ts.len() == 0 {
        Seq::empty()
    } else {
        tokens_text(ts.drop_last()) + token_text(ts.last())
    }
}

/// The characters that the tokens stand for: each character repeated as
/// often as its count says, in order.
pub open spec fn expanded(ts: Seq<Token>) -> Seq<char>
    decreases ts.len(),
{
    if ts.len() == 0 {
        Seq::empty()
    } else {
        expanded(ts.drop_last()) + Seq::new(ts.last().0, |_i: int| ts.last().1)
    }
}

/// The run-length encoding of `s`.
pub open spec fn encoded(s: Seq<char>) -> Seq<char> {
    tokens_text(runs(s))
}

/// What the encoder reports: the sizes before and after, counted in
/// characters, the encoded text, and the share of the size that was saved.
pub struct CompressionResult {
    pub original_size: usize,
    pub compressed_size: usize,
    pub compressed_content: String,
    pub compression_ratio: PercentChange,
}

/// Run-length encodes the characters of `cs`.
pub fn encode_chars(cs: &Vec<char>) -> (r: Vec<char>)
    ensures
        r@ == encoded(cs@),
{
    let n = cs.len();
    let mut out: Vec<char> = Vec::new();
    if n == 0 {
        return out;
    }
    let mut current: char = cs[0];
    let mut count: usize = 1;
    let ghost mut done: Seq<Token> = Seq::empty();
    assert(cs@.take(1).drop_last() =~= Seq::<char>::empty());
    assert(runs(Seq::<char>::empty()) == Seq::<Token>::empty());
    assert(runs(cs@.take(1)) =~= done.push((1nat, current)));
    let mut i: usize = 1;
    while i < n
        invariant
            n == cs.len(),
            1 <= count <= i <= n,
            runs(cs@.take(i as int)) == done.push((count as nat, current)),
            out@ == tokens_text(done),
        decreases n - i,
    {
        let c = cs[i];
        assert(cs@.take(i + 1).drop_last() =~= cs@.take(i as int));
        if c == current {
            count = count + 1;
            assert(done.push(((count - 1) as nat, current)).drop_last() =~= done);
        } else {
            let ghost before = done;
            push_decimal(&mut out, count);
            out.push(current);
            proof {
                done = before.push((count as nat, current));
                assert(done.drop_last() =~= before);
                assert(out@ =~= tokens_text(done));
            }
            current = c;
            count = 1;
        }
        i = i + 1;
    }
    let ghost before = done;
    push_decimal(&mut out, count);
    out.push(current);
    proof {
        let all = before.push((count as nat, current));
        assert(all.drop_last() =~= before);
        assert(cs@.take(n as int) =~= cs@);
        assert(out@ =~= tokens_text(all));
    }
    out
}

/// Run-length encodes `input` and reports the sizes, counted in characters,
/// and the share of the size saved: `100 * (original - compressed) / original`
/// percent, or zero for empty input.
pub fn compress_rle(input: &str) -> (r: CompressionResult)
    ensures
        r.compressed_content@ == encoded(input@),
        r.original_size == input@.len(),
        r.compressed_size == encoded(input@).len(),
        input@.len() == 0 ==> r.compression_ratio.numerator == 0
            && r.compression_ratio.denominator == 1,
        input@.len() > 0 ==> r.compression_ratio.numerator == 100 * (input@.len() - encoded(
            input@,
        ).len()) && r.compression_ratio.denominator == input@.len(),
{
    let cs = chars_of(input);
    let original_size = cs.len();
    let out = encode_chars(&cs);
    let compressed_size = out.len();
    let compression_ratio = PercentChange::saving(compressed_size, original_size);
    CompressionResult {
        original_size,
        compressed_size,
        compressed_content: string_of(out),
        compression_ratio,
    }
}

} // verus!

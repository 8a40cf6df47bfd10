//! The decoder: a decimal count followed by a character stands for that
//! many copies of the character; what cannot be read so is skipped.
use vstd::prelude::*;
use crate::digits::{char_is_digit, digit_value, is_digit, value_of};
use crate::ratio::PercentChange;
use crate::text::{chars_of, string_of};

verus! {

/// The number of digits at the front of `s`.
pub open spec fn digit_prefix_len(s: Seq<char>) -> nat
    decreases s.len(),
{
    if s.len() > 0 && is_digit(s[0]) {
        1 + digit_prefix_len(s.drop_first())
    } else {
        0
    }
}

/// The repeat count that the digits `ds` give: their value, or 0 where the
/// value does not fit in a `usize`.
pub open spec fn repeat_count(ds: Seq<char>) -> nat {
    if value_of(ds) <= usize::MAX {
        value_of(ds)
    } else {
        0
    }
}

/// `n` copies of `c`.
pub open spec fn repeated(c: char, n: nat) -> Seq<char> {
    Seq::new(n, |_i: int| c)
}

/// The decoding of `s`. Digits followed by a character give the character,
/// repeated as often as the digits say; a character with no digits before
/// it, and digits with nothing after them, give nothing.
pub open spec fn decoded(s: Seq<char>) -> Seq<char>
    decreases s.len(),
{
    if s.len() == 0 {
        Seq::empty()
    } else {
        let d = digit_prefix_len(s);
        if d == 0 {
            decoded(s.skip(1))
        } else if d < s.len() {
            repeated(s[d as int], repeat_count(s.take(d as int))) + decoded(s.skip(d + 1 as int))
        } else {
            Seq::empty()
        }
    }
}

/// What the decoder reports: the sizes before and after, counted in
/// characters, the decoded text, and how many percent the size grew.
pub struct DecompressionResult {
    pub compressed_size: usize,
    pub decompressed_size: usize,
    pub decompressed_content: String,
    pub expansion_ratio: PercentChange,
}

/// Where the digits at the front of `s` end.
pub(crate) proof fn lemma_digit_prefix(s: Seq<char>, k: nat)
    requires
        k <= s.len(),
        forall|m: int| 0 <= m < k ==> is_digit(#[trigger] s[m]),
        k == s.len() || !is_digit(s[k as int]),
    ensures
        digit_prefix_len(s) == k,
    decreases k,
{
    if k > 0 {
        lemma_digit_prefix(s.drop_first(), (k - 1) as nat);
    }
}

/// Decodes the characters of `cs`.
pub fn decode_chars(cs: &Vec<char>) -> (r: Vec<char>)
    ensures
        r@ == decoded(cs@),
{
    let n = cs.len();
    let mut out: Vec<char> = Vec::new();
    let mut i: usize = 0;
    assert(cs@.skip(0) =~= cs@);
    while i < n
        invariant
            n == cs.len(),
            i <= n,
            out@ + decoded(cs@.skip(i as int)) == decoded(cs@),
        decreases n - i,
    {
        let start = i;
        let mut value: usize = 0;
        let mut overflow = false;
        assert(cs@.subrange(start as int, start as int) =~= Seq::<char>::empty());
        while i < n && char_is_digit(cs[i])
            invariant
                n == cs.len(),
                start <= i <= n,
                forall|m: int| start <= m < i ==> is_digit(#[trigger] cs@[m]),
                !overflow ==> value == value_of(cs@.subrange(start as int, i as int)),
                overflow ==> value_of(cs@.subrange(start as int, i as int)) > usize::MAX,
            decreases n - i,
        {
            let d: usize = (cs[i] as u32 - 48) as usize;
            proof {
                let next = cs@.subrange(start as int, i + 1);
                assert(next.drop_last() =~= cs@.subrange(start as int, i as int));
                assert(value_of(next) == value_of(cs@.subrange(start as int, i as int)) * 10
                    + digit_value(cs@[i as int]));
            }
            if !overflow {
                match value.checked_mul(10) {
                    Some(v) => match v.checked_add(d) {
                        Some(w) => {
                            value = w;
                        },
                        None => {
                            overflow = true;
                        },
                    },
                    None => {
                        overflow = true;
                    },
                }
            }
            i = i + 1;
        }
        let ghost s = cs@.skip(start as int);
        proof {
            lemma_digit_prefix(s, (i - start) as nat);
        }
        if i < n && i > start {
            let ch = cs[i];
            let count: usize = if overflow {
                0
            } else {
                value
            };
            let ghost before = out@;
            let mut k: usize = 0;
            while k < count
                invariant
                    k <= count,
                    out@ == before + repeated(ch, k as nat),
                decreases count - k,
            {
                out.push(ch);
                k = k + 1;
                assert(out@ =~= before + repeated(ch, k as nat));
            }
            proof {
                assert(s.take(i - start) =~= cs@.subrange(start as int, i as int));
                assert(s.skip(i - start + 1) =~= cs@.skip(i + 1));
                assert(s[i - start] == ch);
                assert(out@ + decoded(cs@.skip(i + 1)) =~= before + decoded(s));
            }
            i = i + 1;
        } else if i < n {
            proof {
                assert(s.skip(1) =~= cs@.skip(i + 1));
            }
            i = i + 1;
        } else {
            assert(cs@.skip(n as int) =~= Seq::<char>::empty());
        }
    }
    assert(cs@.skip(n as int) =~= Seq::<char>::empty());
    assert(out@ + decoded(Seq::<char>::empty()) =~= out@);
    out
}

/// Decodes `input` and reports the sizes, counted in characters, and the
/// growth: `100 * (decompressed - compressed) / compressed` percent, or
/// zero for empty input.
pub fn decompress_rle(input: &str) -> (r: DecompressionResult)
    ensures
        r.decompressed_content@ == decoded(input@),
        r.compressed_size == input@.len(),
        r.decompressed_size == decoded(input@).len(),
        input@.len() == 0 ==> r.expansion_ratio.numerator == 0
            && r.expansion_ratio.denominator == 1,
        input@.len() > 0 ==> r.expansion_ratio.numerator == 100 * (decoded(input@).len()
            - input@.len()) && r.expansion_ratio.denominator == input@.len(),
{
    let cs = chars_of(input);
    let compressed_size = cs.len();
    let out = decode_chars(&cs);
    let decompressed_size = out.len();
    let expansion_ratio = PercentChange::growth(decompressed_size, compressed_size);
    DecompressionResult {
        compressed_size,
        decompressed_size,
        decompressed_content: string_of(out),
        expansion_ratio,
    }
}

} // verus!

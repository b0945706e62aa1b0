//! Reading a score from a word and rendering numbers as decimal text.

use vstd::prelude::*;
use crate::chars::{is_digit, digit_val, is_digit_char};

verus! {

/// Whether `s` is one or more ASCII decimal digits.
pub open spec fn all_digits(s: Seq<char>) -> bool {
    s.len() > 0 && forall|k: int| 0 <= k < s.len() ==> is_digit(#[trigger] s[k])
}

/// The number the digit sequence `s` denotes.
pub open spec fn digits_val(s: Seq<char>) -> int
    decreases s.len(),
{
    if s.len() == 0 {
        0
    } else {
        digits_val(s.drop_last()) * 10 + digit_val(s.last())
    }
}

/// The part of the word that must be digits: `u32::from_str` allows one
/// leading `+` sign.
pub open spec fn digit_part(w: Seq<char>) -> Seq<char> {
    if w.len() > 0 && w[0] == '+' {
        w.drop_first()
    } else {
        w
    }
}

/// The value `w` parses to as a `u32`, if any, as `str::parse::<u32>`
/// decides it: an optional `+`, then one or more ASCII digits, and the
/// value must fit.
pub open spec fn parse_u32_spec(w: Seq<char>) -> Option<u32> {
    let body = digit_part(w);
    if all_digits(body) && digits_val(body) <= u32::MAX {
        Some(digits_val(body) as u32)
    } else {
        None
    }
}

proof fn lemma_digits_val_bounds(s: Seq<char>)
    requires
        forall|k: int| 0 <= k < s.len() ==> is_digit(#[trigger] s[k]),
    ensures
        0 <= digits_val(s),
    decreases s.len(),
{
    if s.len() > 0 {
        assert(forall|k: int|
            0 <= k < s.drop_last().len() ==> s.drop_last()[k] == #[trigger] s[k]);
        lemma_digits_val_bounds(s.drop_last());
        assert(is_digit(s[s.len() - 1]));
        assert(digit_val(s.last()) >= 0);
    }
}

proof fn lemma_digits_val_prefix_le(s: Seq<char>, k: int)
    requires
        0 <= k <= s.len(),
        forall|j: int| 0 <= j < s.len() ==> is_digit(#[trigger] s[j]),
    ensures
        digits_val(s.take(k)) <= digits_val(s),
    decreases s.len() - k,
{
    if k < s.len() {
        assert(forall|j: int| 0 <= j < k ==> s.take(k)[j] == #[trigger] s[j]);
        lemma_digits_val_bounds(s.take(k));
        assert(s.take(k + 1).drop_last() =~= s.take(k));
        assert(s.take(k + 1).last() == s[k]);
        assert(digits_val(s.take(k + 1)) == digits_val(s.take(k)) * 10 + digit_val(s[k]));
        assert(is_digit(s[k]));
        assert(digit_val(s[k]) >= 0);
        assert(digits_val(s.take(k)) <= digits_val(s.take(k + 1)));
        lemma_digits_val_prefix_le(s, k + 1);
    } else {
        assert(s.take(k) =~= s);
    }
}

/// The value the word `w` parses to as a `u32`, if any.
pub fn parse_u32(w: &Vec<char>) -> (r: Option<u32>)
    ensures
        r == parse_u32_spec(w@),
{
    let n = w.len();
    let start: usize = if n > 0 && w[0] == '+' {
        1
    } else {
        0
    };
    let ghost body = digit_part(w@);
    proof {
        assert(body =~= w@.skip(start as int));
    }
    if n == start {
        return None;
    }
    let mut acc: u64 = 0;
    let mut i: usize = start;
    while i < n
        invariant
            start <= i <= n,
            n == w@.len(),
            n > start,
            body == digit_part(w@),
            body == w@.skip(start as int),
            forall|k: int| 0 <= k < i - start ==> is_digit(#[trigger] body[k]),
            acc == digits_val(body.take(i - start)),
            acc <= u32::MAX,
        decreases n - i,
    {
        let c = w[i];
        proof {
            assert(body[i - start] == w@[i as int]);
        }
        if !is_digit_char(c) {
            proof {
                assert(!is_digit(body[i - start]));
                assert(!all_digits(body));
            }
            return None;
        }
        let d: u64 = (c as u32 as u64) - 0x30;
        let next: u64 = acc * 10 + d;
        proof {
            assert(body.take(i - start + 1).drop_last() =~= body.take(i - start));
            assert(body.take(i - start + 1).last() == body[i - start]);
        }
        if next > 0xFFFF_FFFF {
            proof {
                assert(digits_val(body.take(i - start + 1)) > u32::MAX);
                if all_digits(body) {
                    lemma_digits_val_prefix_le(body, i - start + 1);
                    assert(digits_val(body) > u32::MAX);
                }
            }
            return None;
        }
        acc = next;
        i = i + 1;
    }
    proof {
        assert(body.take(n - start) =~= body);
        assert(all_digits(body));
    }
    Some(acc as u32)
}

/// The decimal rendering of `n`: most significant digit first, no sign,
/// no leading zeroes (a single `0` for zero).
pub open spec fn dec_spec(n: nat) -> Seq<char>
    decreases n,
{
    if n < 10 {
        seq![(0x30 + n) as char]
    } else {
        dec_spec(n / 10).push((0x30 + n % 10) as char)
    }
}

/// The decimal rendering of `n`, as a string.
pub fn dec_u128(n: u128) -> (s: String)
    ensures
        s@ == dec_spec(n as nat),
    decreases n,
{
    if n < 10 {
        let d: u8 = 0x30 + (n as u8);
        let mut s = String::new();
        s.push(d as char);
        proof {
            assert(s@ =~= dec_spec(n as nat));
        }
        s
    } else {
        let mut s = dec_u128(n / 10);
        let d: u8 = 0x30 + ((n % 10) as u8);
        s.push(d as char);
        proof {
            assert(s@ =~= dec_spec(n as nat));
        }
        s
    }
}

} // verus!

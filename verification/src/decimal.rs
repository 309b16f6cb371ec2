//! Numbers written in decimal digits, without sign and without leading
//! zeros.

use crate::wire::same_bytes;
use vstd::prelude::*;

verus! {

/// The decimal digits of `n`, most significant first.
pub open spec fn digits(n: nat) -> Seq<u8>
    decreases n,
{
    if n < 10 {
        seq![(48 + n) as u8]
    } else {
        digits(n / 10).push((48 + n % 10) as u8)
    }
}

/// A decimal digit.
pub open spec fn is_digit(b: u8) -> bool {
    48 <= b <= 57
}

/// The number that the digits spell. A byte that is no digit counts as the
/// digit it would be after `0`.
pub open spec fn number_of(s: Seq<u8>) -> nat
    decreases s.len(),
{
    if s.len() == 0 {
        0
    } else {
        number_of(s.drop_last()) * 10 + (s.last() - 48) as nat
    }
}

/// The digits of a number are digits, at least one, and spell the number.
pub proof fn lemma_digits(n: nat)
    ensures
        digits(n).len() >= 1,
        forall|i: int| 0 <= i < digits(n).len() ==> is_digit(#[trigger] digits(n)[i]),
        number_of(digits(n)) == n,
    decreases n,
{
    if n < 10 {
        let s = digits(n);
        assert(s.drop_last().len() == 0);
        assert(number_of(s.drop_last()) == 0);
    } else {
        lemma_digits(n / 10);
        let s = digits(n);
        assert(s.drop_last() =~= digits(n / 10));
    }
}

/// A number below a power of ten has no more digits than the power has
/// zeros.
pub proof fn lemma_digits_len(n: nat)
    ensures
        n < 10 ==> digits(n).len() == 1,
        n < 100 ==> digits(n).len() <= 2,
        n < 1000 ==> digits(n).len() <= 3,
        n < 10000 ==> digits(n).len() <= 4,
        n < 100000 ==> digits(n).len() <= 5,
        n < 0x1_0000_0000 ==> digits(n).len() <= 10,
{
    reveal_with_fuel(digits, 11);
}

/// Writes `n` in decimal digits.
pub fn decimal(n: u32) -> (s: Vec<u8>)
    ensures
        s@ == digits(n as nat),
    decreases n,
{
    if n < 10 {
        let mut s: Vec<u8> = Vec::new();
        s.push((48 + n) as u8);
        assert(s@ =~= digits(n as nat));
        s
    } else {
        let mut s = decimal(n / 10);
        s.push((48 + n % 10) as u8);
        s
    }
}

/// Reads a number below 2^32 written in decimal digits without leading
/// zeros: the number whose digits the bytes are, if there is one.
pub fn parse_decimal(s: &[u8]) -> (r: Option<u32>)
    ensures
        match r {
            Some(n) => s@ == digits(n as nat),
            None => forall|n: nat| n < 0x1_0000_0000 ==> s@ != #[trigger] digits(n),
        },
{
    if s.len() < 1 || s.len() > 10 {
        proof {
            assert forall|n: nat| n < 0x1_0000_0000 implies s@ != #[trigger] digits(n) by {
                lemma_digits(n);
                lemma_digits_len(n);
            }
        }
        return None;
    }
    let mut n: u64 = 0;
    let mut i: usize = 0;
    proof {
        assert(s@.take(0).len() == 0);
    }
    while i < s.len()
        invariant
            i <= s@.len() <= 10,
            n == number_of(s@.take(i as int)),
            n < pow10(i as nat),
            forall|k: int| 0 <= k < i ==> is_digit(#[trigger] s@[k]),
        decreases s@.len() - i,
    {
        let b = s[i];
        if b < 48 || b > 57 {
            proof {
                assert forall|m: nat| m < 0x1_0000_0000 implies s@ != #[trigger] digits(m) by {
                    lemma_digits(m);
                    if s@ == digits(m) {
                        assert(is_digit(digits(m)[i as int]));
                    }
                }
            }
            return None;
        }
        proof {
            assert(s@.take(i + 1).drop_last() =~= s@.take(i as int));
            lemma_pow10(i as nat);
        }
        n = n * 10 + (b - 48) as u64;
        i = i + 1;
    }
    proof {
        assert(s@.take(i as int) =~= s@);
    }
    if n > 0xFFFF_FFFF {
        proof {
            assert forall|m: nat| m < 0x1_0000_0000 implies s@ != #[trigger] digits(m) by {
                lemma_digits(m);
            }
        }
        return None;
    }
    let again = decimal(n as u32);
    if !same_bytes(s, again.as_slice()) {
        proof {
            assert forall|m: nat| m < 0x1_0000_0000 implies s@ != #[trigger] digits(m) by {
                lemma_digits(m);
            }
        }
        return None;
    }
    Some(n as u32)
}

/// Ten to the power `k`.
pub open spec fn pow10(k: nat) -> nat
    decreases k,
{
    if k == 0 {
        1
    } else {
        10 * pow10((k - 1) as nat)
    }
}

/// The powers of ten up to the tenth.
pub proof fn lemma_pow10(k: nat)
    ensures
        pow10(k + 1) == 10 * pow10(k),
        k <= 10 ==> pow10(k) <= 10_000_000_000,
{
    reveal_with_fuel(pow10, 12);
}

} // verus!

//! Combination indices and their base-3 digits.
//!
//! A combination index is a number below 3^9. Its nine base-3 digits, least
//! significant first, say how often each of the nine moves is applied. The
//! laws at the end of this module state that indices and digit tuples
//! correspond one to one.

use vstd::arithmetic::div_mod::lemma_div_denominator;
use vstd::prelude::*;

verus! {

/// The number of combination indices, 3^9.
pub const COMBINATIONS: u16 = 19683;

/// 3 to the power `p`.
pub open spec fn pow3(p: nat) -> nat
    decreases p,
{
    if p == 0 {
        1
    } else {
        3 * pow3((p - 1) as nat)
    }
}

/// The base-3 digit of `index` at position `p`, position 0 being the least
/// significant.
pub open spec fn digit(index: nat, p: nat) -> nat {
    (index / pow3(p)) % 3
}

/// The nine low base-3 digits of `index`, least significant first.
pub open spec fn digits_of(index: nat) -> Seq<u8> {
    Seq::new(9, |p: int| digit(index, p as nat) as u8)
}

/// Nine base-3 digits.
pub open spec fn valid_digits(digits: Seq<u8>) -> bool {
    &&& digits.len() == 9
    &&& forall|p: int| 0 <= p < 9 ==> digits[p] < 3
}

/// The number whose base-3 digits, least significant first, are `digits`.
pub open spec fn index_of(digits: Seq<u8>) -> nat {
    (digits[0] + 3 * digits[1] + 9 * digits[2] + 27 * digits[3] + 81 * digits[4] + 243
        * digits[5] + 729 * digits[6] + 2187 * digits[7] + 6561 * digits[8]) as nat
}

/// Dividing by 3 moves every digit one position down.
pub proof fn lemma_pow3_step(index: nat, p: nat)
    ensures
        pow3(p) > 0,
        index / pow3(p + 1) == (index / pow3(p)) / 3,
    decreases p,
{
    if p > 0 {
        lemma_pow3_step(index, (p - 1) as nat);
    }
    lemma_div_denominator(index as int, pow3(p) as int, 3);
}

/// Decodes a combination index into its nine base-3 digits, least
/// significant first. Digits above the ninth are ignored.
pub fn decode_index(index: u16) -> (digits: [u8; 9])
    ensures
        digits@ == digits_of(index as nat),
        valid_digits(digits@),
{
    let mut digits: [u8; 9] = [0; 9];
    let mut rest: u16 = index;
    let mut p: usize = 0;
    assert(pow3(0) == 1);
    while p < 9
        invariant
            p <= 9,
            rest == (index as nat) / pow3(p as nat),
            forall|k: int| 0 <= k < p ==> digits[k] == digit(index as nat, k as nat),
        decreases 9 - p,
    {
        proof {
            lemma_pow3_step(index as nat, p as nat);
        }
        digits[p] = (rest % 3) as u8;
        rest = rest / 3;
        p += 1;
    }
    assert(digits@ =~= digits_of(index as nat));
    digits
}

/// Encodes nine base-3 digits, least significant first, as a combination
/// index. Returns `None` when a digit is not one of 0, 1, 2.
pub fn encode_digits(digits: &[u8; 9]) -> (index: Option<u16>)
    ensures
        valid_digits(digits@) ==> index == Some(index_of(digits@) as u16) && index_of(digits@)
            < COMBINATIONS,
        !valid_digits(digits@) ==> index is None,
{
    let mut p: usize = 0;
    while p < 9
        invariant
            p <= 9,
            forall|k: int| 0 <= k < p ==> digits[k] < 3,
        decreases 9 - p,
    {
        if digits[p] >= 3 {
            return None;
        }
        p += 1;
    }
    let low: u16 = digits[0] as u16 + 3 * (digits[1] as u16) + 9 * (digits[2] as u16);
    let middle: u16 = 27 * (digits[3] as u16) + 81 * (digits[4] as u16) + 243 * (digits[5] as u16);
    let high: u16 = 729 * (digits[6] as u16) + 2187 * (digits[7] as u16) + 6561 * (
    digits[8] as u16);
    Some(low + middle + high)
}

/// The quotients `index / 3^p` for `p` from 0 to 9 form a chain in which
/// each is the one before divided by 3.
proof fn lemma_quotient_chain(index: nat)
    ensures
        index / pow3(0) == index,
        index / pow3(1) == (index / pow3(0)) / 3,
        index / pow3(2) == (index / pow3(1)) / 3,
        index / pow3(3) == (index / pow3(2)) / 3,
        index / pow3(4) == (index / pow3(3)) / 3,
        index / pow3(5) == (index / pow3(4)) / 3,
        index / pow3(6) == (index / pow3(5)) / 3,
        index / pow3(7) == (index / pow3(6)) / 3,
        index / pow3(8) == (index / pow3(7)) / 3,
        index / pow3(9) == (index / pow3(8)) / 3,
{
    assert(pow3(0) == 1);
    lemma_pow3_step(index, 0);
    lemma_pow3_step(index, 1);
    lemma_pow3_step(index, 2);
    lemma_pow3_step(index, 3);
    lemma_pow3_step(index, 4);
    lemma_pow3_step(index, 5);
    lemma_pow3_step(index, 6);
    lemma_pow3_step(index, 7);
    lemma_pow3_step(index, 8);
}

/// Decoding an index and encoding the digits again gives the index back.
pub proof fn lemma_decode_then_encode(index: nat)
    requires
        index < COMBINATIONS,
    ensures
        valid_digits(digits_of(index)),
        index_of(digits_of(index)) == index,
{
    lemma_quotient_chain(index);
    let digits = digits_of(index);
    let q0 = index / pow3(0);
    let q1 = index / pow3(1);
    let q2 = index / pow3(2);
    let q3 = index / pow3(3);
    let q4 = index / pow3(4);
    let q5 = index / pow3(5);
    let q6 = index / pow3(6);
    let q7 = index / pow3(7);
    let q8 = index / pow3(8);
    let q9 = index / pow3(9);
    assert(q1 == q0 / 3 && q2 == q1 / 3 && q3 == q2 / 3);
    assert(q4 == q3 / 3 && q5 == q4 / 3 && q6 == q5 / 3);
    assert(q7 == q6 / 3 && q8 == q7 / 3 && q9 == q8 / 3);
    assert(q9 == 0);
    assert(digits[0] == q0 % 3 && digits[1] == q1 % 3 && digits[2] == q2 % 3);
    assert(digits[3] == q3 % 3 && digits[4] == q4 % 3 && digits[5] == q5 % 3);
    assert(digits[6] == q6 % 3 && digits[7] == q7 % 3 && digits[8] == q8 % 3);
}

/// Encoding nine digits and decoding the index again gives the digits back,
/// and the index is below 3^9.
pub proof fn lemma_encode_then_decode(digits: Seq<u8>)
    requires
        valid_digits(digits),
    ensures
        index_of(digits) < COMBINATIONS,
        digits_of(index_of(digits)) == digits,
{
    let index = index_of(digits);
    lemma_quotient_chain(index);
    // The value of the digits from position p upwards, for p = 8 down to 0.
    let t8: int = digits[8] as int;
    let t7: int = digits[7] + 3 * t8;
    let t6: int = digits[6] + 3 * t7;
    let t5: int = digits[5] + 3 * t6;
    let t4: int = digits[4] + 3 * t5;
    let t3: int = digits[3] + 3 * t4;
    let t2: int = digits[2] + 3 * t3;
    let t1: int = digits[1] + 3 * t2;
    let t0: int = digits[0] + 3 * t1;
    assert(index == t0);
    assert(index / pow3(0) == t0);
    assert(t0 / 3 == t1 && t0 % 3 == digits[0]);
    assert(index / pow3(1) == t1);
    assert(t1 / 3 == t2 && t1 % 3 == digits[1]);
    assert(index / pow3(2) == t2);
    assert(t2 / 3 == t3 && t2 % 3 == digits[2]);
    assert(index / pow3(3) == t3);
    assert(t3 / 3 == t4 && t3 % 3 == digits[3]);
    assert(index / pow3(4) == t4);
    assert(t4 / 3 == t5 && t4 % 3 == digits[4]);
    assert(index / pow3(5) == t5);
    assert(t5 / 3 == t6 && t5 % 3 == digits[5]);
    assert(index / pow3(6) == t6);
    assert(t6 / 3 == t7 && t6 % 3 == digits[6]);
    assert(index / pow3(7) == t7);
    assert(t7 / 3 == t8 && t7 % 3 == digits[7]);
    assert(index / pow3(8) == t8);
    assert(t8 % 3 == digits[8]);
    assert forall|p: int| 0 <= p < 9 implies digits_of(index)[p] == digits[p] by {
        if p == 0 {
            assert(digit(index, 0) == digits[0]);
        } else if p == 1 {
            assert(digit(index, 1) == digits[1]);
        } else if p == 2 {
            assert(digit(index, 2) == digits[2]);
        } else if p == 3 {
            assert(digit(index, 3) == digits[3]);
        } else if p == 4 {
            assert(digit(index, 4) == digits[4]);
        } else if p == 5 {
            assert(digit(index, 5) == digits[5]);
        } else if p == 6 {
            assert(digit(index, 6) == digits[6]);
        } else if p == 7 {
            assert(digit(index, 7) == digits[7]);
        } else {
            assert(digit(index, 8) == digits[8]);
        }
    }
    assert(digits_of(index) =~= digits);
}

/// Index 0 stands for applying no move at all.
pub proof fn lemma_zero_has_zero_digits()
    ensures
        forall|p: int| 0 <= p < 9 ==> #[trigger] digits_of(0)[p] == 0,
{
    assert forall|p: int| 0 <= p < 9 implies #[trigger] digits_of(0)[p] == 0 by {
        lemma_pow3_step(0, p as nat);
    }
}

} // verus!

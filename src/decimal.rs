//! Decimal numbers as they cross the caller boundary: a string of ASCII
//! digits, parsed into a 256-bit pair or a width, with a defined failure on
//! anything else.
use vstd::arithmetic::power2::{
    lemma2_to64, lemma_pow2_adds, lemma_pow2_pos, lemma_pow2_strictly_increases, pow2,
};
use num_bigint::BigUint;
use std::str::FromStr;
use vstd::prelude::*;
use vstd::string::StringSliceAdditionalSpecFns;

use crate::codec::{lemma_pow2_le_128, HiLo};
use crate::error::Error;

verus! {

/// `c` is an ASCII decimal digit.
pub open spec fn is_digit(c: u8) -> bool {
    0x30 <= c <= 0x39
}

/// A non-empty string of ASCII decimal digits.
pub open spec fn is_decimal(b: Seq<u8>) -> bool {
    b.len() > 0 && forall|i: int| 0 <= i < b.len() ==> is_digit(#[trigger] b[i])
}

/// The number that a string of digits denotes, most significant first.
pub open spec fn decimal_value(b: Seq<u8>) -> nat
    decreases b.len(),
{
    if b.len() == 0 {
        0
    } else {
        decimal_value(b.drop_last()) * 10 + (b.last() - 0x30) as nat
    }
}

/// The value of 64-bit digits, least significant first.
pub open spec fn digits_value(d: Seq<u64>) -> nat
    decreases d.len(),
{
    if d.len() == 0 {
        0
    } else {
        d[0] as nat + pow2(64) * digits_value(d.drop_first())
    }
}

/// The digit at `k`, zero past the end.
pub open spec fn digit(d: Seq<u64>, k: int) -> nat {
    if 0 <= k < d.len() {
        d[k] as nat
    } else {
        0
    }
}

/// The digits from `k` on.
pub open spec fn tail(d: Seq<u64>, k: nat) -> Seq<u64> {
    if k >= d.len() {
        Seq::empty()
    } else {
        d.subrange(k as int, d.len() as int)
    }
}

/// Peeling the digit at `k` off the digits from `k` on.
proof fn lemma_tail_step(d: Seq<u64>, k: nat)
    ensures
        digits_value(tail(d, k)) == digit(d, k as int) + pow2(64) * digits_value(tail(d, k + 1)),
{
    if k < d.len() {
        assert(tail(d, k).drop_first() =~= tail(d, k + 1));
        assert(tail(d, k)[0] == d[k as int]);
    } else {
        assert(digits_value(Seq::<u64>::empty()) == 0);
        assert(pow2(64) * 0 == 0) by (nonlinear_arith);
    }
}

/// Digits that are all zero from `k` on add nothing.
proof fn lemma_zero_tail(d: Seq<u64>, k: nat)
    requires
        forall|j: int| k <= j < d.len() ==> d[j] == 0,
    ensures
        digits_value(tail(d, k)) == 0,
    decreases d.len() - k,
{
    lemma_tail_step(d, k);
    if k < d.len() {
        lemma_zero_tail(d, k + 1);
    } else {
        assert(digits_value(tail(d, k + 1)) == 0) by {
            assert(digits_value(Seq::<u64>::empty()) == 0);
        }
    }
}

/// A non-zero digit at `i >= k` makes the digits from `k` on worth at least one.
proof fn lemma_nonzero_tail(d: Seq<u64>, k: nat, i: nat)
    requires
        k <= i < d.len(),
        d[i as int] != 0,
    ensures
        digits_value(tail(d, k)) >= 1,
    decreases i - k,
{
    lemma_tail_step(d, k);
    lemma_pow2_pos(64);
    if k < i {
        lemma_nonzero_tail(d, k + 1, i);
        assert(pow2(64) * digits_value(tail(d, k + 1)) >= 1) by (nonlinear_arith)
            requires
                pow2(64) > 0,
                digits_value(tail(d, k + 1)) >= 1,
        ;
    }
}

/// The digits as four 64-bit limbs and what lies above them.
proof fn lemma_four_digits(d: Seq<u64>)
    ensures
        digits_value(d) == digit(d, 0) + pow2(64) * digit(d, 1) + pow2(128) * digit(d, 2) + pow2(192) * digit(
            d,
            3,
        ) + pow2(256) * digits_value(tail(d, 4)),
{
    assert(tail(d, 0) =~= d);
    lemma_tail_step(d, 0);
    lemma_tail_step(d, 1);
    lemma_tail_step(d, 2);
    lemma_tail_step(d, 3);
    lemma_pow2_adds(64, 64);
    lemma_pow2_adds(128, 64);
    lemma_pow2_adds(192, 64);
    let b = pow2(64);
    let t1 = digits_value(tail(d, 1));
    let t2 = digits_value(tail(d, 2));
    let t3 = digits_value(tail(d, 3));
    let t4 = digits_value(tail(d, 4));
    assert(digits_value(d) == digit(d, 0) + b * digit(d, 1) + (b * b) * digit(d, 2) + (b * b * b) * digit(d, 3)
        + (b * b * b * b) * t4) by (nonlinear_arith)
        requires
            digits_value(d) == digit(d, 0) + b * t1,
            t1 == digit(d, 1) + b * t2,
            t2 == digit(d, 2) + b * t3,
            t3 == digit(d, 3) + b * t4,
    ;
}

/// Relies on `BigUint::from_str`, which reads decimal digits, and
/// `BigUint::to_u64_digits`: the value of a string of ASCII digits as 64-bit
/// digits, least significant first.
#[verifier::external_body]
fn decimal_digits(s: &str) -> (r: Vec<u64>)
    requires
        is_decimal(s.spec_bytes()),
    ensures
        digits_value(r@) == decimal_value(s.spec_bytes()),
{
    BigUint::from_str(s).unwrap().to_u64_digits()
}

/// Whether the bytes are a non-empty string of ASCII decimal digits.
fn all_digits(b: &[u8]) -> (r: bool)
    ensures
        r == is_decimal(b@),
{
    if b.len() == 0 {
        return false;
    }
    let mut i: usize = 0;
    while i < b.len()
        invariant
            i <= b@.len(),
            forall|j: int| 0 <= j < i ==> is_digit(#[trigger] b@[j]),
        decreases b@.len() - i,
    {
        if b[i] < 0x30 || b[i] > 0x39 {
            return false;
        }
        i = i + 1;
    }
    true
}

/// The digit at `k`, zero past the end.
fn digit_at(d: &Vec<u64>, k: usize) -> (r: u64)
    ensures
        r == digit(d@, k as int),
{
    if k < d.len() {
        d[k]
    } else {
        0
    }
}

/// Parses a string of ASCII decimal digits into a 256-bit pair. Anything
/// else, the empty string and numbers of `2^256` or more included, is
/// `MalformedBigInteger`. Leading zeros are accepted.
pub fn parse_decimal(s: &str) -> (r: Result<HiLo, Error>)
    ensures
        r is Ok <==> is_decimal(s.spec_bytes()) && decimal_value(s.spec_bytes()) < pow2(256),
        r is Ok ==> r->Ok_0.value() == decimal_value(s.spec_bytes()),
        r is Err ==> r->Err_0 == Error::MalformedBigInteger,
{
    if !all_digits(s.as_bytes()) {
        return Err(Error::MalformedBigInteger);
    }
    let d = decimal_digits(s);
    let mut i: usize = 4;
    while i < d.len()
        invariant
            4 <= i,
            forall|j: int| 4 <= j < i && j < d@.len() ==> d@[j] == 0,
            is_decimal(s.spec_bytes()),
            digits_value(d@) == decimal_value(s.spec_bytes()),
        decreases d@.len() - i,
    {
        if d[i] != 0 {
            proof {
                lemma_four_digits(d@);
                lemma_pow2_pos(256);
                lemma_nonzero_tail(d@, 4, i as nat);
                assert(pow2(256) * digits_value(tail(d@, 4)) >= pow2(256)) by (nonlinear_arith)
                    requires
                        digits_value(tail(d@, 4)) >= 1,
                        pow2(256) > 0,
                ;
            }
            return Err(Error::MalformedBigInteger);
        }
        i = i + 1;
    }
    proof {
        lemma_four_digits(d@);
        lemma_zero_tail(d@, 4);
        assert(pow2(256) * 0 == 0) by (nonlinear_arith);
        lemma2_to64();
        lemma_pow2_adds(64, 64);
        lemma_pow2_adds(128, 64);
        lemma_pow2_le_128(0);
    }
    let (l0, l1, l2, l3) = (digit_at(&d, 0), digit_at(&d, 1), digit_at(&d, 2), digit_at(&d, 3));
    let lo = l0 as u128 + l1 as u128 * 0x1_0000_0000_0000_0000;
    let hi = l2 as u128 + l3 as u128 * 0x1_0000_0000_0000_0000;
    proof {
        assert(hi * pow2(128) + lo == digits_value(d@)) by (nonlinear_arith)
            requires
                lo == l0 + l1 * pow2(64),
                hi == l2 + l3 * pow2(64),
                pow2(128) == pow2(64) * pow2(64),
                pow2(192) == pow2(128) * pow2(64),
                digits_value(d@) == l0 + pow2(64) * l1 + pow2(128) * l2 + pow2(192) * l3,
        ;
        crate::codec::lemma_value_bound(HiLo { hi, lo });
    }
    Ok(HiLo { hi, lo })
}

/// Parses a width or a count given in decimal: `MalformedBigInteger` for
/// anything that is not a decimal number that fits `usize`.
pub fn parse_usize(s: &str) -> (r: Result<usize, Error>)
    ensures
        r is Ok <==> is_decimal(s.spec_bytes()) && decimal_value(s.spec_bytes()) <= usize::MAX,
        r is Ok ==> r->Ok_0 == decimal_value(s.spec_bytes()),
        r is Err ==> r->Err_0 == Error::MalformedBigInteger,
{
    proof {
        lemma_pow2_le_128(0);
        lemma2_to64();
        lemma_pow2_strictly_increases(128, 256);
    }
    match parse_decimal(s) {
        Ok(v) => {
            if v.hi == 0 && v.lo <= usize::MAX as u128 {
                Ok(v.lo as usize)
            } else {
                proof {
                    if v.hi != 0 {
                        assert(v.hi * pow2(128) >= pow2(128)) by (nonlinear_arith)
                            requires
                                v.hi >= 1,
                        ;
                    }
                }
                Err(Error::MalformedBigInteger)
            }
        },
        Err(e) => Err(e),
    }
}

} // verus!

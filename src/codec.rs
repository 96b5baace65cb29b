//! Host-level codec between a 256-bit integer carried as two 128-bit halves
//! (a hi/lo pair) and the three-limb layout used by foreign-field chips.
use vstd::arithmetic::div_mod::{
    lemma_fundamental_div_mod, lemma_fundamental_div_mod_converse, lemma_mod_bound,
};
use vstd::arithmetic::mul::lemma_mul_inequality;
use vstd::arithmetic::power2::{
    lemma2_to64, lemma2_to64_rest, lemma_pow2_adds, lemma_pow2_pos, lemma_pow2_strictly_increases,
    lemma_pow2_unfold, pow2,
};
use vstd::prelude::*;

use crate::error::Error;

verus! {

/// Width of each half of a hi/lo pair.
pub const HALF_BITS: u32 = 128;

/// Width of each limb in the layout used by the foreign-field chips.
pub const LIMB_BITS: u32 = 88;

/// Number of limbs in that layout.
pub const NUM_LIMBS: u32 = 3;

/// A 256-bit integer as two 128-bit halves: `hi * 2^128 + lo`.
#[derive(Clone, Copy, Debug, PartialEq, Eq, Structural)]
pub struct HiLo {
    pub hi: u128,
    pub lo: u128,
}

/// Three limbs `limb0 + limb1 * 2^b + limb2 * 2^(2b)` for a limb width `b`.
#[derive(Clone, Copy, Debug, PartialEq, Eq, Structural)]
pub struct LimbTriple {
    pub limb0: u128,
    pub limb1: u128,
    pub limb2: u128,
}

/// The limb widths that three limbs can use to carry 256 bits, with the
/// low half fitting in one limb plus part of the next: `64 < b <= 128`.
pub open spec fn valid_limb_bits(limb_bits: nat) -> bool {
    64 < limb_bits <= 128
}

impl HiLo {
    /// The integer that the pair denotes.
    pub open spec fn value(self) -> nat {
        self.hi as nat * pow2(128) + self.lo as nat
    }
}

impl LimbTriple {
    /// The integer that the limbs denote for limb width `limb_bits`.
    pub open spec fn value(self, limb_bits: nat) -> nat {
        self.limb0 as nat + self.limb1 as nat * pow2(limb_bits) + self.limb2 as nat * pow2(2 * limb_bits)
    }

    /// Each limb fits its width; the top limb holds what is left of 256 bits.
    pub open spec fn fits(self, limb_bits: nat) -> bool {
        &&& self.limb0 < pow2(limb_bits)
        &&& self.limb1 < pow2(limb_bits)
        &&& self.limb2 < pow2((256 - 2 * limb_bits) as nat)
    }
}

/// Bits of `hi` that go to the middle limb: `2b - 128`.
pub open spec fn hi_split_bits(limb_bits: nat) -> nat {
    (2 * limb_bits - 128) as nat
}

/// Bits of the middle limb that come from `lo`: `128 - b`.
pub open spec fn lo_carry_bits(limb_bits: nat) -> nat {
    (128 - limb_bits) as nat
}

/// The limbs of a hi/lo pair: `lo` is split at `b` bits, `hi` at `2b - 128`
/// bits, and the middle limb joins the low part of `hi` above the carry of `lo`.
pub open spec fn limbs_of(v: HiLo, limb_bits: nat) -> LimbTriple {
    let r = hi_split_bits(limb_bits);
    let c = lo_carry_bits(limb_bits);
    LimbTriple {
        limb0: (v.lo as nat % pow2(limb_bits)) as u128,
        limb1: ((v.hi as nat % pow2(r)) * pow2(c) + v.lo as nat / pow2(limb_bits)) as u128,
        limb2: (v.hi as nat / pow2(r)) as u128,
    }
}

/// The hi/lo pair of three limbs: the middle limb is split at `128 - b` bits;
/// its low part goes above `limb0` into `lo`, its high part below `limb2` into `hi`.
pub open spec fn hi_lo_of(t: LimbTriple, limb_bits: nat) -> HiLo {
    let r = hi_split_bits(limb_bits);
    let c = lo_carry_bits(limb_bits);
    HiLo {
        hi: (t.limb2 * pow2(r) + t.limb1 as nat / pow2(c)) as u128,
        lo: ((t.limb1 as nat % pow2(c)) * pow2(limb_bits) + t.limb0) as u128,
    }
}

/// `value < modulus` decided on the halves: `hi` below the modulus's high
/// half, or equal to it with `lo` below the modulus's low half.
pub open spec fn below_bound(v: HiLo, modulus: HiLo) -> bool {
    v.hi < modulus.hi || (v.hi == modulus.hi && v.lo < modulus.lo)
}

/// How the powers of two at the limb boundaries multiply to `2^128` and to
/// each other.
pub proof fn lemma_pow2_128_split(limb_bits: nat)
    requires
        valid_limb_bits(limb_bits),
    ensures
        pow2(hi_split_bits(limb_bits)) * pow2(lo_carry_bits(limb_bits)) == pow2(limb_bits),
        pow2(lo_carry_bits(limb_bits)) * pow2(limb_bits) == pow2(128),
        pow2(limb_bits) * pow2(limb_bits) == pow2(hi_split_bits(limb_bits)) * pow2(128),
        pow2(hi_split_bits(limb_bits)) * pow2((256 - 2 * limb_bits) as nat) == pow2(128),
        pow2(2 * limb_bits) == pow2(limb_bits) * pow2(limb_bits),
{
    lemma_pow2_adds(hi_split_bits(limb_bits), lo_carry_bits(limb_bits));
    lemma_pow2_adds(lo_carry_bits(limb_bits), limb_bits);
    lemma_pow2_adds(limb_bits, limb_bits);
    lemma_pow2_adds(hi_split_bits(limb_bits), 128);
    lemma_pow2_adds(hi_split_bits(limb_bits), (256 - 2 * limb_bits) as nat);
}

/// `pow2(n)` for `n <= 128` as a bound on 128-bit values.
pub proof fn lemma_pow2_le_128(n: nat)
    requires
        n <= 128,
    ensures
        pow2(n) <= pow2(128),
        pow2(128) == u128::MAX + 1,
{
    if n < 128 {
        lemma_pow2_strictly_increases(n, 128);
    }
    lemma2_to64_rest();
    lemma_pow2_adds(64, 64);
}


/// Limb equivalence: the limbs of a pair carry its value,
/// `limb0 + limb1 * 2^b + limb2 * 2^(2b) == hi * 2^128 + lo`, and fit their
/// widths.
pub proof fn lemma_limb_equivalence(v: HiLo, limb_bits: nat)
    requires
        valid_limb_bits(limb_bits),
    ensures
        limbs_of(v, limb_bits).value(limb_bits) == v.value(),
        limbs_of(v, limb_bits).fits(limb_bits),
        limbs_of(v, limb_bits).limb0 as nat == v.lo as nat % pow2(limb_bits),
        limbs_of(v, limb_bits).limb1 as nat == (v.hi as nat % pow2(hi_split_bits(limb_bits))) * pow2(
            lo_carry_bits(limb_bits),
        ) + v.lo as nat / pow2(limb_bits),
        limbs_of(v, limb_bits).limb2 as nat == v.hi as nat / pow2(hi_split_bits(limb_bits)),
{
    let p = pow2(limb_bits);
    let r = pow2(hi_split_bits(limb_bits));
    let c = pow2(lo_carry_bits(limb_bits));
    let t = pow2((256 - 2 * limb_bits) as nat);
    let m = pow2(128);
    lemma_pow2_128_split(limb_bits);
    lemma_pow2_pos(limb_bits);
    lemma_pow2_pos(hi_split_bits(limb_bits));
    lemma_pow2_pos(lo_carry_bits(limb_bits));
    lemma_pow2_pos((256 - 2 * limb_bits) as nat);
    lemma_pow2_le_128(limb_bits);
    let lo = v.lo as int;
    let hi = v.hi as int;
    let limb0 = lo % (p as int);
    let carry0 = lo / (p as int);
    let tmp1 = hi % (r as int);
    let limb2 = hi / (r as int);
    lemma_fundamental_div_mod(lo, p as int);
    lemma_fundamental_div_mod(hi, r as int);
    lemma_mod_bound(lo, p as int);
    lemma_mod_bound(hi, r as int);
    assert(0 <= carry0 < c) by {
        lemma_div_bound_of(lo, p as int, c as int);
    }
    assert(0 <= limb2 < t) by {
        lemma_div_bound_of(hi, r as int, t as int);
    }
    let limb1 = tmp1 * c + carry0;
    assert(0 <= limb1 < p) by {
        lemma_mul_le_pred(tmp1, r as int, c as int);
    }
    assert(limb0 + limb1 * p + limb2 * (p * p) == hi * m + lo) by (nonlinear_arith)
        requires
            lo == p * carry0 + limb0,
            hi == r * limb2 + tmp1,
            limb1 == tmp1 * c + carry0,
            c * p == m,
            p * p == r * m,
    ;
    assert(p <= m);
    assert(t <= m) by {
        lemma_pow2_le_128((256 - 2 * limb_bits) as nat);
    }
}

/// `x * d < b * d` for `0 <= x < b`, as `x * d + d <= b * d`.
proof fn lemma_mul_le_pred(x: int, b: int, d: int)
    requires
        0 <= x < b,
        d > 0,
    ensures
        0 <= x * d,
        x * d + d <= b * d,
{
    lemma_mul_inequality(x, b - 1, d);
    assert((b - 1) * d == b * d - d) by (nonlinear_arith);
    assert(0 <= x * d) by (nonlinear_arith)
        requires
            0 <= x,
            d > 0,
    ;
}

/// `x / d < b` whenever `x < 2^128 == d * b`.
proof fn lemma_div_bound_of(x: int, d: int, b: int)
    requires
        0 <= x < pow2(128),
        d > 0,
        b > 0,
        d * b == pow2(128),
    ensures
        0 <= x / d < b,
{
    lemma_fundamental_div_mod(x, d);
    lemma_mod_bound(x, d);
    if x / d >= b {
        lemma_mul_inequality(b, x / d, d);
        assert(d * (x / d) >= d * b) by (nonlinear_arith)
            requires
                x / d >= b,
                d > 0,
        ;
    }
    assert(x / d >= 0) by (nonlinear_arith)
        requires
            x >= 0,
            d > 0,
    ;
}

/// Three limbs that fit their widths give halves that carry their value.
pub proof fn lemma_hi_lo_of(t: LimbTriple, limb_bits: nat)
    requires
        valid_limb_bits(limb_bits),
        t.fits(limb_bits),
    ensures
        hi_lo_of(t, limb_bits).value() == t.value(limb_bits),
        t.limb2 * pow2(hi_split_bits(limb_bits)) + t.limb1 as nat / pow2(lo_carry_bits(limb_bits)) < pow2(128),
        (t.limb1 as nat % pow2(lo_carry_bits(limb_bits))) * pow2(limb_bits) + t.limb0 < pow2(128),
{
    let p = pow2(limb_bits);
    let r = pow2(hi_split_bits(limb_bits));
    let c = pow2(lo_carry_bits(limb_bits));
    let tt = pow2((256 - 2 * limb_bits) as nat);
    let m = pow2(128);
    lemma_pow2_128_split(limb_bits);
    lemma_pow2_pos(limb_bits);
    lemma_pow2_pos(hi_split_bits(limb_bits));
    lemma_pow2_pos(lo_carry_bits(limb_bits));
    lemma_pow2_le_128(limb_bits);
    let l0 = t.limb0 as int;
    let l1 = t.limb1 as int;
    let l2 = t.limb2 as int;
    let l1_hi = l1 / (c as int);
    let l1_lo = l1 % (c as int);
    lemma_fundamental_div_mod(l1, c as int);
    lemma_mod_bound(l1, c as int);
    assert(0 <= l1_hi < r) by {
        if l1_hi >= r {
            assert(c * l1_hi >= c * r) by (nonlinear_arith)
                requires
                    l1_hi >= r,
                    c > 0,
            ;
        }
        assert(l1_hi >= 0) by (nonlinear_arith)
            requires
                l1 >= 0,
                c > 0,
                l1_hi == l1 / (c as int),
        ;
    }
    let hi = l2 * r + l1_hi;
    let lo = l1_lo * p + l0;
    assert(hi < m) by {
        lemma_mul_le_pred(l2, tt as int, r as int);
        assert(tt * r == m) by (nonlinear_arith)
            requires
                r * tt == m,
        ;
    }
    assert(lo < m) by {
        lemma_mul_le_pred(l1_lo, c as int, p as int);
    }
    assert(hi * m + lo == l0 + l1 * p + l2 * (p * p)) by (nonlinear_arith)
        requires
            l1 == c * l1_hi + l1_lo,
            hi == l2 * r + l1_hi,
            lo == l1_lo * p + l0,
            c * p == m,
            p * p == r * m,
    ;
    assert(hi >= 0 && lo >= 0) by (nonlinear_arith)
        requires
            l2 >= 0,
            r > 0,
            l1_hi >= 0,
            l1_lo >= 0,
            p > 0,
            l0 >= 0,
            hi == l2 * r + l1_hi,
            lo == l1_lo * p + l0,
    ;
}

/// A pair is fixed by its value.
pub proof fn lemma_hi_lo_unique(a: HiLo, b: HiLo)
    requires
        a.value() == b.value(),
    ensures
        a == b,
{
    lemma_pow2_le_128(0);
    lemma_fundamental_div_mod_converse(a.value() as int, pow2(128) as int, a.hi as int, a.lo as int);
    lemma_fundamental_div_mod_converse(b.value() as int, pow2(128) as int, b.hi as int, b.lo as int);
}

/// Fits-in-`bits` test on a 128-bit value, for `bits <= 128`.
fn fits_bits(x: u128, bits: u32) -> (r: bool)
    requires
        bits <= 128,
    ensures
        r == (x < pow2(bits as nat)),
{
    if bits == 128 {
        proof {
            lemma_pow2_le_128(0);
        }
        true
    } else {
        x < pow2_u128(bits)
    }
}

/// `2^n` for `n < 128`.
pub(crate) fn pow2_u128(n: u32) -> (r: u128)
    requires
        n < 128,
    ensures
        r == pow2(n as nat),
{
    let mut p: u128 = 1;
    let mut i: u32 = 0;
    proof {
        lemma2_to64();
    }
    while i < n
        invariant
            i <= n < 128,
            p == pow2(i as nat),
        decreases n - i,
    {
        proof {
            lemma_pow2_unfold((i + 1) as nat);
            lemma_pow2_le_128((i + 1) as nat);
            lemma_pow2_strictly_increases((i + 1) as nat, 128);
        }
        p = p * 2;
        i = i + 1;
    }
    p
}

/// Quotient and remainder of `x` by `2^bits`, for `bits <= 128`.
fn div_mod_pow2(x: u128, bits: u32) -> (r: (u128, u128))
    requires
        bits <= 128,
    ensures
        r.0 == x as nat / pow2(bits as nat),
        r.1 == x as nat % pow2(bits as nat),
{
    if bits == 128 {
        proof {
            lemma_pow2_le_128(0);
            lemma_fundamental_div_mod_converse(x as int, pow2(128) as int, 0, x as int);
        }
        (0, x)
    } else {
        let d = pow2_u128(bits);
        proof {
            lemma_pow2_pos(bits as nat);
        }
        (x / d, x % d)
    }
}

/// `x * 2^bits`, for `bits <= 128` and a product that fits 128 bits.
fn mul_pow2(x: u128, bits: u32) -> (r: u128)
    requires
        bits <= 128,
        x * pow2(bits as nat) < pow2(128),
    ensures
        r == x * pow2(bits as nat),
{
    if bits == 128 {
        proof {
            lemma_pow2_le_128(0);
            assert(x == 0) by (nonlinear_arith)
                requires
                    x * pow2(128) < pow2(128),
                    pow2(128) > 0,
            ;
        }
        0
    } else {
        let d = pow2_u128(bits);
        proof {
            lemma_pow2_le_128(0);
        }
        x * d
    }
}

/// Splits a hi/lo pair into three limbs of `limb_bits` bits each.
///
/// `lo` is divided by `2^b`, giving `limb0` and a carry; `hi` is divided by
/// `2^(2b - 128)`, giving `limb2` and a low part that goes above the carry in
/// `limb1`. The limbs carry the pair's value and fit their widths.
pub fn decompose_hi_lo_to_limbs(hi: u128, lo: u128, limb_bits: u32) -> (r: LimbTriple)
    requires
        valid_limb_bits(limb_bits as nat),
    ensures
        r == limbs_of(HiLo { hi, lo }, limb_bits as nat),
        r.value(limb_bits as nat) == (HiLo { hi, lo }).value(),
        r.fits(limb_bits as nat),
{
    let ghost v = HiLo { hi, lo };
    proof {
        lemma_limb_equivalence(v, limb_bits as nat);
        lemma_pow2_128_split(limb_bits as nat);
    }
    let (carry0, limb0) = div_mod_pow2(lo, limb_bits);
    let rem_bits: u32 = limb_bits - (HALF_BITS - limb_bits);
    let (limb2, tmp1) = div_mod_pow2(hi, rem_bits);
    proof {
        lemma_pow2_pos(lo_carry_bits(limb_bits as nat));
        lemma_pow2_le_128(limb_bits as nat);
        assert(tmp1 * pow2(lo_carry_bits(limb_bits as nat)) < pow2(128)) by (nonlinear_arith)
            requires
                tmp1 * pow2(lo_carry_bits(limb_bits as nat)) + carry0 == limbs_of(v, limb_bits as nat).limb1,
                limbs_of(v, limb_bits as nat).limb1 < pow2(limb_bits as nat),
                pow2(limb_bits as nat) <= pow2(128),
                carry0 >= 0,
        ;
    }
    let shifted = mul_pow2(tmp1, HALF_BITS - limb_bits);
    let limb1 = shifted + carry0;
    LimbTriple { limb0, limb1, limb2 }
}

/// Joins three limbs of `limb_bits` bits into a hi/lo pair.
///
/// The middle limb is divided by `2^(128 - b)`: its remainder goes above
/// `limb0` in `lo`, its quotient below `limb2` in `hi`. Limbs that do not fit
/// their widths denote no pair and give `RangeViolation`.
pub fn compose_limbs_to_hi_lo(limbs: &LimbTriple, limb_bits: u32) -> (r: Result<HiLo, Error>)
    requires
        valid_limb_bits(limb_bits as nat),
    ensures
        r is Ok <==> limbs.fits(limb_bits as nat),
        r is Ok ==> r->Ok_0 == hi_lo_of(*limbs, limb_bits as nat),
        r is Ok ==> r->Ok_0.value() == limbs.value(limb_bits as nat),
        r is Err ==> r->Err_0 == Error::RangeViolation,
{
    let top_bits: u32 = 2 * HALF_BITS - 2 * limb_bits;
    if !(fits_bits(limbs.limb0, limb_bits) && fits_bits(limbs.limb1, limb_bits) && fits_bits(
        limbs.limb2,
        top_bits,
    )) {
        return Err(Error::RangeViolation);
    }
    proof {
        lemma_hi_lo_of(*limbs, limb_bits as nat);
        lemma_pow2_128_split(limb_bits as nat);
        lemma_pow2_pos(limb_bits as nat);
        lemma_pow2_pos(hi_split_bits(limb_bits as nat));
    }
    let lo_bits: u32 = HALF_BITS - limb_bits;
    let hi_bits: u32 = limb_bits - lo_bits;
    let (limb1_hi, limb1_lo) = div_mod_pow2(limbs.limb1, lo_bits);
    proof {
        lemma_pow2_le_128(0);
        assert(lo_bits as nat == lo_carry_bits(limb_bits as nat));
        assert(hi_bits as nat == hi_split_bits(limb_bits as nat));
        assert(limb1_lo * pow2(limb_bits as nat) < pow2(128));
        assert(limbs.limb2 * pow2(hi_split_bits(limb_bits as nat)) < pow2(128)) by (nonlinear_arith)
            requires
                limbs.limb2 * pow2(hi_split_bits(limb_bits as nat)) + limb1_hi < pow2(128),
                limb1_hi >= 0,
        ;
    }
    let lo_high = mul_pow2(limb1_lo, limb_bits);
    let hi_high = mul_pow2(limbs.limb2, hi_bits);
    assert(lo_high + limbs.limb0 < pow2(128));
    assert(hi_high + limb1_hi < pow2(128));
    let lo = lo_high + limbs.limb0;
    let hi = hi_high + limb1_hi;
    Ok(HiLo { hi, lo })
}

/// Whether a pair denotes an integer below `modulus`, decided on the halves
/// as `hi < hi_max || (hi == hi_max && lo < lo_max)`, where `hi_max` and
/// `lo_max` are the modulus's quotient and remainder by `2^128`.
pub fn below_modulus(value: &HiLo, modulus: &HiLo) -> (r: bool)
    ensures
        r == below_bound(*value, *modulus),
        r == (value.value() < modulus.value()),
{
    proof {
        lemma_below_bound(*value, *modulus);
    }
    value.hi < modulus.hi || (value.hi == modulus.hi && value.lo < modulus.lo)
}

/// The host-side check made before a pair is loaded as an element of the
/// field of `modulus`: the pair itself when its value is below the modulus,
/// `ModulusViolation` otherwise.
pub fn check_below_modulus(value: HiLo, modulus: &HiLo) -> (r: Result<HiLo, Error>)
    ensures
        r is Ok <==> value.value() < modulus.value(),
        r is Ok ==> r->Ok_0 == value,
        r is Err ==> r->Err_0 == Error::ModulusViolation,
{
    if below_modulus(&value, modulus) {
        Ok(value)
    } else {
        Err(Error::ModulusViolation)
    }
}

/// The boundary predicate on the halves is exactly `value < modulus`.
pub proof fn lemma_below_bound(v: HiLo, m: HiLo)
    ensures
        below_bound(v, m) <==> v.value() < m.value(),
{
    let b = pow2(128) as int;
    lemma_pow2_le_128(0);
    let (vh, vl, mh, ml) = (v.hi as int, v.lo as int, m.hi as int, m.lo as int);
    assert(below_bound(v, m) <==> vh * b + vl < mh * b + ml) by (nonlinear_arith)
        requires
            0 <= vl < b,
            0 <= ml < b,
            0 <= vh,
            0 <= mh,
            below_bound(v, m) <==> (vh < mh || (vh == mh && vl < ml)),
    {
        if vh < mh {
            assert(vh * b + b <= mh * b) by (nonlinear_arith)
                requires
                    vh + 1 <= mh,
                    b > 0,
            ;
        } else if vh > mh {
            assert(mh * b + b <= vh * b) by (nonlinear_arith)
                requires
                    mh + 1 <= vh,
                    b > 0,
            ;
        }
    }
}

/// The halves of a modulus are its quotient and remainder by `2^128`.
pub proof fn lemma_modulus_halves(m: HiLo)
    ensures
        m.hi == m.value() / pow2(128),
        m.lo == m.value() % pow2(128),
{
    lemma_pow2_le_128(0);
    lemma_fundamental_div_mod_converse(m.value() as int, pow2(128) as int, m.hi as int, m.lo as int);
}

/// Three limbs that fit their widths are fixed by their value.
pub proof fn lemma_limbs_unique(a: LimbTriple, b: LimbTriple, limb_bits: nat)
    requires
        valid_limb_bits(limb_bits),
        a.fits(limb_bits),
        b.fits(limb_bits),
        a.value(limb_bits) == b.value(limb_bits),
    ensures
        a == b,
{
    let p = pow2(limb_bits) as int;
    lemma_pow2_pos(limb_bits);
    lemma_pow2_128_split(limb_bits);
    let (a0, a1, a2) = (a.limb0 as int, a.limb1 as int, a.limb2 as int);
    let (b0, b1, b2) = (b.limb0 as int, b.limb1 as int, b.limb2 as int);
    let va = a.value(limb_bits) as int;
    assert(va == p * (a1 + p * a2) + a0 && va == p * (b1 + p * b2) + b0) by (nonlinear_arith)
        requires
            va == a0 + a1 * p + a2 * (p * p),
            va == b0 + b1 * p + b2 * (p * p),
    ;
    lemma_fundamental_div_mod_converse(va, p, a1 + p * a2, a0);
    lemma_fundamental_div_mod_converse(va, p, b1 + p * b2, b0);
    let rest = va / p;
    assert(rest == p * a2 + a1 && rest == p * b2 + b1);
    assert(a2 >= 0 && b2 >= 0);
    lemma_fundamental_div_mod_converse(rest, p, a2, a1);
    lemma_fundamental_div_mod_converse(rest, p, b2, b1);
}

/// Round trip: joining the limbs of a pair gives the pair back, and the
/// limbs always fit, so the join succeeds.
pub proof fn lemma_round_trip(v: HiLo, limb_bits: nat)
    requires
        valid_limb_bits(limb_bits),
    ensures
        limbs_of(v, limb_bits).fits(limb_bits),
        hi_lo_of(limbs_of(v, limb_bits), limb_bits) == v,
{
    lemma_limb_equivalence(v, limb_bits);
    lemma_hi_lo_of(limbs_of(v, limb_bits), limb_bits);
    lemma_hi_lo_unique(hi_lo_of(limbs_of(v, limb_bits), limb_bits), v);
}

/// The other way round: splitting the pair of three fitting limbs gives the
/// same limbs back.
pub proof fn lemma_round_trip_limbs(t: LimbTriple, limb_bits: nat)
    requires
        valid_limb_bits(limb_bits),
        t.fits(limb_bits),
    ensures
        limbs_of(hi_lo_of(t, limb_bits), limb_bits) == t,
{
    lemma_hi_lo_of(t, limb_bits);
    lemma_limb_equivalence(hi_lo_of(t, limb_bits), limb_bits);
    lemma_limbs_unique(limbs_of(hi_lo_of(t, limb_bits), limb_bits), t, limb_bits);
}

/// The boundary of a modulus `m` on the halves: the modulus itself is not
/// below it; `hi_max - 1` with `lo = 0`, and `hi_max` with `lo = lo_max - 1`,
/// are.
pub proof fn lemma_boundary(m: HiLo)
    ensures
        !below_bound(m, m),
        m.hi > 0 ==> below_bound(HiLo { hi: (m.hi - 1) as u128, lo: 0 }, m),
        m.lo > 0 ==> below_bound(HiLo { hi: m.hi, lo: (m.lo - 1) as u128 }, m),
{
}

/// A pair denotes a value below `2^256`.
pub proof fn lemma_value_bound(v: HiLo)
    ensures
        v.value() < pow2(256),
{
    let b = pow2(128) as int;
    lemma_pow2_le_128(0);
    lemma_pow2_adds(128, 128);
    lemma_mul_inequality(v.hi as int, b - 1, b);
    assert((b - 1) * b == b * b - b) by (nonlinear_arith);
}

/// `2^n` for `n <= 128`, as a pair.
pub fn pow2_pair(n: u32) -> (r: HiLo)
    requires
        n <= 128,
    ensures
        r.value() == pow2(n as nat),
        0 < r.value() <= pow2(128),
{
    proof {
        lemma_pow2_le_128(n as nat);
        lemma_pow2_pos(n as nat);
    }
    if n == 128 {
        HiLo { hi: 1, lo: 0 }
    } else {
        HiLo { hi: 0, lo: pow2_u128(n) }
    }
}

} // verus!

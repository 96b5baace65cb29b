//! The codec as constraints: the conversions between a hi/lo pair of cells
//! and three limb cells, and the proof that a pair lies below a modulus,
//! emitted into a witness store.
use vstd::arithmetic::div_mod::{lemma_div_denominator, lemma_fundamental_div_mod, lemma_mod_bound};
use vstd::arithmetic::power2::{lemma_pow2_adds, lemma_pow2_pos, pow2};
use vstd::prelude::*;

use crate::codec::{
    check_below_modulus, hi_lo_of, hi_split_bits, lemma_below_bound, lemma_hi_lo_of,
    lemma_limb_equivalence, lemma_limbs_unique, lemma_pow2_128_split, lemma_pow2_le_128, limbs_of,
    lo_carry_bits, pow2_pair, HiLo, LimbTriple, HALF_BITS, LIMB_BITS,
};
use crate::error::Error;
use vstd::arithmetic::div_mod::lemma_small_mod;
use crate::store::{
    native_modulus_halves, cell_values, grows, holds, keeps_satisfied, lemma_native_modulus_large, lookup_bits,
    native_field_modulus, native_modulus, records_positions, satisfied, usable_lookup_bits,
    ForeignField, WitnessStore,
};

verus! {

/// Both cells hold 128-bit values.
pub open spec fn halves_fit(s: WitnessStore, hi: usize, lo: usize) -> bool {
    &&& 0 <= cell_values(s)[hi as int] < pow2(128)
    &&& 0 <= cell_values(s)[lo as int] < pow2(128)
}

/// The pair that cells `hi` and `lo` hold.
pub open spec fn pair_at(s: WitnessStore, hi: usize, lo: usize) -> HiLo {
    HiLo { hi: cell_values(s)[hi as int] as u128, lo: cell_values(s)[lo as int] as u128 }
}

/// Each limb cell holds a value of its width.
pub open spec fn limbs_fit(s: WitnessStore, limbs: [usize; 3], limb_bits: nat) -> bool {
    &&& 0 <= cell_values(s)[limbs[0] as int] < pow2(limb_bits)
    &&& 0 <= cell_values(s)[limbs[1] as int] < pow2(limb_bits)
    &&& 0 <= cell_values(s)[limbs[2] as int] < pow2((256 - 2 * limb_bits) as nat)
}

/// The limbs that three cells hold.
pub open spec fn limbs_at(s: WitnessStore, limbs: [usize; 3]) -> LimbTriple {
    LimbTriple {
        limb0: cell_values(s)[limbs[0] as int] as u128,
        limb1: cell_values(s)[limbs[1] as int] as u128,
        limb2: cell_values(s)[limbs[2] as int] as u128,
    }
}

/// Three cells hold the three limbs of `t`.
pub open spec fn holds_limbs(s: WitnessStore, cells: [usize; 3], t: LimbTriple) -> bool {
    &&& holds(s, cells[0], t.limb0 as int)
    &&& holds(s, cells[1], t.limb1 as int)
    &&& holds(s, cells[2], t.limb2 as int)
}

/// Every handle names a committed cell.
pub open spec fn all_committed(s: WitnessStore, hs: [usize; 3]) -> bool {
    hs[0] < cell_values(s).len() && hs[1] < cell_values(s).len() && hs[2] < cell_values(s).len()
}

/// The pair in cells `hi` and `lo` has halves of 128 bits and lies below
/// `modulus`: what `assert_below_modulus` constrains.
pub open spec fn fits_below(s: WitnessStore, hi: usize, lo: usize, modulus: HiLo) -> bool {
    halves_fit(s, hi, lo) && pair_at(s, hi, lo).value() < modulus.value()
}

/// Every handle of `r` names a cell committed after the first `n`.
pub open spec fn all_fresh(n: nat, r: [usize; 3]) -> bool {
    r[0] >= n && r[1] >= n && r[2] >= n
}

/// A handle that an operation handed back, or `Uncommitted`.
fn committed_handle(h: Option<usize>) -> (r: Result<usize, Error>)
    ensures
        r is Ok <==> h is Some,
        r is Ok ==> r->Ok_0 == h->0,
        r is Err ==> r->Err_0 == Error::Uncommitted,
{
    match h {
        Some(x) => Ok(x),
        None => Err(Error::Uncommitted),
    }
}

/// A constant below `2^128` as a pair.
fn small(x: u128) -> (r: HiLo)
    ensures
        r.value() == x,
{
    HiLo { hi: 0, lo: x }
}

impl WitnessStore {
    /// Splits the pair in cells `hi` and `lo` into three limbs of
    /// `limb_bits` bits inside the circuit, and constrains each limb cell of
    /// `limbs` equal to the limb computed. Hands back the computed limb
    /// cells, new ones, which hold the limbs of the pair when both halves are
    /// 128-bit. For such halves the store's values meet what is emitted
    /// exactly when `limbs` hold those same limbs.
    pub fn constrain_limbs_equality(&mut self, hi: usize, lo: usize, limbs: [usize; 3], limb_bits: u32) -> (r:
        Result<[usize; 3], Error>)
        requires
            hi < cell_values(*old(self)).len(),
            lo < cell_values(*old(self)).len(),
            all_committed(*old(self), limbs),
            64 < limb_bits <= 128,
            usable_lookup_bits(lookup_bits(*old(self))),
        ensures
            grows(*old(self), *final(self)),
            r is Err ==> r->Err_0 == Error::Uncommitted,
            records_positions(*old(self)) ==> r is Ok,
            r is Ok && halves_fit(*old(self), hi, lo) ==> holds_limbs(
                *final(self),
                r->Ok_0,
                limbs_of(pair_at(*old(self), hi, lo), limb_bits as nat),
            ),
            r is Ok ==> all_fresh(cell_values(*old(self)).len(), r->Ok_0) && all_committed(*final(self), r->Ok_0),
            r is Ok && halves_fit(*old(self), hi, lo) && records_positions(*old(self)) && satisfied(
                *final(self),
            ) ==> limbs_at(*old(self), limbs).value(limb_bits as nat) == pair_at(*old(self), hi, lo).value(),
            r is Ok && halves_fit(*old(self), hi, lo) && satisfied(*old(self)) && holds_limbs(
                *old(self),
                limbs,
                limbs_of(pair_at(*old(self), hi, lo), limb_bits as nat),
            ) ==> satisfied(*final(self)),
            r is Ok && halves_fit(*old(self), hi, lo) && records_positions(*old(self)) && satisfied(
                *final(self),
            ) ==> holds_limbs(*old(self), limbs, limbs_of(pair_at(*old(self), hi, lo), limb_bits as nat)),
    {
        let ghost s0 = *self;
        let ghost lb = limb_bits as nat;
        proof {
            lemma_pow2_128_split(lb);
            lemma_pow2_pos(lb);
            lemma_pow2_pos(hi_split_bits(lb));
            lemma_pow2_pos(lo_carry_bits(lb));
            lemma_pow2_le_128(lb);
            lemma_native_modulus_large();
        }
        let (carry0, limb0) = self.div_mod(lo, pow2_pair(limb_bits), 128);
        let ghost s1 = *self;
        let rem_bits: u32 = limb_bits - (HALF_BITS - limb_bits);
        let (limb2, tmp1) = self.div_mod(hi, pow2_pair(rem_bits), 128);
        let ghost s2 = *self;
        let carry0 = committed_handle(carry0);
        let limb0 = committed_handle(limb0);
        let limb2 = committed_handle(limb2);
        let tmp1 = committed_handle(tmp1);
        if carry0.is_err() || limb0.is_err() || limb2.is_err() || tmp1.is_err() {
            return Err(Error::Uncommitted);
        }
        let (carry0, limb0, limb2, tmp1) = (carry0.unwrap(), limb0.unwrap(), limb2.unwrap(), tmp1.unwrap());
        let multiplier = pow2_pair(HALF_BITS - limb_bits);
        let limb1 = committed_handle(self.mul_add_const(tmp1, multiplier, carry0));
        let ghost s3 = *self;
        if limb1.is_err() {
            return Err(Error::Uncommitted);
        }
        let limb1 = limb1.unwrap();
        self.constrain_equal(limbs[0], limb0);
        let ghost s4 = *self;
        self.constrain_equal(limbs[1], limb1);
        let ghost s5 = *self;
        self.constrain_equal(limbs[2], limb2);
        proof {
            if halves_fit(s0, hi, lo) {
                let v = pair_at(s0, hi, lo);
                lemma_limb_equivalence(v, lb);
                let t = limbs_of(v, lb);
                let vhi = cell_values(s0)[hi as int];
                let vlo = cell_values(s0)[lo as int];
                assert(cell_values(s2)[carry0 as int] == vlo / pow2(lb) as int);
                assert(cell_values(s2)[tmp1 as int] == vhi % pow2(hi_split_bits(lb)) as int);
                let x = cell_values(s2)[tmp1 as int] * pow2(lo_carry_bits(lb)) + cell_values(s2)[carry0 as int];
                assert(x == t.limb1 as int);
                assert(0 <= x < native_modulus());
                assert(x % (native_modulus() as int) == x) by {
                    vstd::arithmetic::div_mod::lemma_small_mod(x as nat, native_modulus());
                }
                assert(cell_values(s3)[limb1 as int] == t.limb1 as int);
                assert(cell_values(s3)[limb0 as int] == t.limb0 as int);
                assert(cell_values(s3)[limb2 as int] == t.limb2 as int);
                assert(cell_values(s1)[hi as int] == vhi);
                let l0 = cell_values(s0)[limbs[0] as int];
                let l1 = cell_values(s0)[limbs[1] as int];
                let l2 = cell_values(s0)[limbs[2] as int];
                assert(cell_values(s3)[limbs[0] as int] == l0);
                assert(cell_values(s3)[limbs[1] as int] == l1);
                assert(cell_values(s3)[limbs[2] as int] == l2);
                if satisfied(s0) && holds_limbs(s0, limbs, t) {
                    assert(satisfied(s1));
                    assert(satisfied(s2));
                    assert(satisfied(s3));
                    assert(satisfied(s4));
                    assert(satisfied(s5));
                }
                if records_positions(s0) && satisfied(*self) {
                    assert(satisfied(s5));
                    assert(satisfied(s4));
                    assert(l2 == t.limb2 as int);
                    assert(l1 == t.limb1 as int);
                    assert(l0 == t.limb0 as int);
                    assert(limbs_at(s0, limbs) == t);
                }
            }
        }
        Ok([limb0, limb1, limb2])
    }

    /// Joins three limb cells of `limb_bits` bits into a hi/lo pair of cells
    /// inside the circuit: the middle limb is divided by `2^(128 - b)`, its
    /// remainder placed above `limb0` and its quotient below `limb2`. Hands
    /// back `(hi, lo)`, new cells, which hold the pair of the limbs when they
    /// fit; the store's values then meet what is emitted.
    pub fn convert_limbs_to_hi_lo(&mut self, limbs: [usize; 3], limb_bits: u32) -> (r: Result<(usize, usize), Error>)
        requires
            all_committed(*old(self), limbs),
            64 < limb_bits <= 128,
            usable_lookup_bits(lookup_bits(*old(self))),
        ensures
            grows(*old(self), *final(self)),
            r is Err ==> r->Err_0 == Error::Uncommitted,
            records_positions(*old(self)) ==> r is Ok,
            r is Ok && limbs_fit(*old(self), limbs, limb_bits as nat) ==> {
                let p = hi_lo_of(limbs_at(*old(self), limbs), limb_bits as nat);
                holds(*final(self), r->Ok_0.0, p.hi as int) && holds(*final(self), r->Ok_0.1, p.lo as int)
            },
            r is Ok ==> r->Ok_0.0 >= cell_values(*old(self)).len() && r->Ok_0.1 >= cell_values(*old(self)).len(),
            r is Ok ==> r->Ok_0.0 < cell_values(*final(self)).len() && r->Ok_0.1 < cell_values(*final(self)).len(),
            r is Ok && limbs_fit(*old(self), limbs, limb_bits as nat) ==> keeps_satisfied(*old(self), *final(self)),
    {
        let ghost s0 = *self;
        let ghost lb = limb_bits as nat;
        proof {
            lemma_pow2_128_split(lb);
            lemma_pow2_pos(lb);
            lemma_pow2_pos(hi_split_bits(lb));
            lemma_pow2_pos(lo_carry_bits(lb));
            lemma_pow2_le_128(lb);
            lemma_native_modulus_large();
        }
        let lo_bits: u32 = HALF_BITS - limb_bits;
        let hi_bits: u32 = limb_bits - lo_bits;
        let (limb1_hi, limb1_lo) = self.div_mod(limbs[1], pow2_pair(lo_bits), limb_bits as usize);
        let ghost s1 = *self;
        let limb1_hi = committed_handle(limb1_hi);
        let limb1_lo = committed_handle(limb1_lo);
        if limb1_hi.is_err() || limb1_lo.is_err() {
            return Err(Error::Uncommitted);
        }
        let (limb1_hi, limb1_lo) = (limb1_hi.unwrap(), limb1_lo.unwrap());
        let lo = committed_handle(self.mul_add_const(limb1_lo, pow2_pair(limb_bits), limbs[0]));
        let ghost s2 = *self;
        if lo.is_err() {
            return Err(Error::Uncommitted);
        }
        let lo = lo.unwrap();
        let hi = committed_handle(self.mul_add_const(limbs[2], pow2_pair(hi_bits), limb1_hi));
        if hi.is_err() {
            return Err(Error::Uncommitted);
        }
        let hi = hi.unwrap();
        proof {
            assert(lo_bits as nat == lo_carry_bits(lb));
            assert(hi_bits as nat == hi_split_bits(lb));
            if limbs_fit(s0, limbs, lb) {
                lemma_pow2_le_128((256 - 2 * lb) as nat);
                let t = limbs_at(s0, limbs);
                lemma_hi_lo_of(t, lb);
                let p = hi_lo_of(t, lb);
                let l0 = cell_values(s0)[limbs[0] as int];
                let l1 = cell_values(s0)[limbs[1] as int];
                let l2 = cell_values(s0)[limbs[2] as int];
                let x = cell_values(s1)[limb1_lo as int] * pow2(lb) + l0;
                assert(cell_values(s1)[limb1_lo as int] == l1 % pow2(lo_carry_bits(lb)) as int);
                assert(x == p.lo as int);
                assert(x % (native_modulus() as int) == x) by {
                    vstd::arithmetic::div_mod::lemma_small_mod(x as nat, native_modulus());
                }
                assert(satisfied(s0) ==> satisfied(s1));
                assert(satisfied(s1) ==> satisfied(s2));
                let y = l2 * pow2(hi_split_bits(lb)) + cell_values(s2)[limb1_hi as int];
                assert(cell_values(s2)[limb1_hi as int] == l1 / pow2(lo_carry_bits(lb)) as int);
                assert(y == p.hi as int);
                assert(y % (native_modulus() as int) == y) by {
                    vstd::arithmetic::div_mod::lemma_small_mod(y as nat, native_modulus());
                }
            }
        }
        Ok((hi, lo))
    }

    /// Constrains the pair in cells `hi` and `lo` to lie below `modulus`:
    /// both halves are range checked to 128 bits, then
    /// `hi < hi_max || (hi == hi_max && lo < lo_max)` is computed with a
    /// boolean OR and constrained to 1, where `hi_max` and `lo_max` are the
    /// modulus's quotient and remainder by `2^128`. Hands back the new cell
    /// of that disjunction. When both halves have 128 bits the cell holds 1
    /// exactly when the pair is below the modulus. Where the store records
    /// positions and its values met every earlier constraint, they meet what
    /// is emitted here exactly when both halves have 128 bits and the pair is
    /// below the modulus.
    pub fn assert_below_modulus(&mut self, hi: usize, lo: usize, modulus: &HiLo) -> (r: Result<usize, Error>)
        requires
            hi < cell_values(*old(self)).len(),
            lo < cell_values(*old(self)).len(),
            usable_lookup_bits(lookup_bits(*old(self))),
        ensures
            grows(*old(self), *final(self)),
            r is Err ==> r->Err_0 == Error::Uncommitted,
            records_positions(*old(self)) ==> r is Ok,
            r is Ok && halves_fit(*old(self), hi, lo) ==> holds(
                *final(self),
                r->Ok_0,
                if pair_at(*old(self), hi, lo).value() < modulus.value() {
                    1int
                } else {
                    0int
                },
            ),
            r is Ok ==> cell_values(*old(self)).len() <= r->Ok_0 < cell_values(*final(self)).len(),
            r is Ok && satisfied(*old(self)) && fits_below(*old(self), hi, lo, *modulus) ==> satisfied(
                *final(self),
            ),
            r is Ok && records_positions(*old(self)) && satisfied(*final(self)) ==> fits_below(
                *old(self),
                hi,
                lo,
                *modulus,
            ),
    {
        let ghost s0 = *self;
        proof {
            lemma_pow2_le_128(0);
            lemma_native_modulus_large();
        }
        self.range_check(hi, 128);
        let ghost sa = *self;
        let check_1 = committed_handle(self.is_less_than_const(hi, modulus.hi, 128));
        let ghost s1 = *self;
        if check_1.is_err() {
            return Err(Error::Uncommitted);
        }
        let check_1 = check_1.unwrap();
        let check_2_hi = committed_handle(self.is_equal_const(hi, modulus.hi));
        let ghost s2 = *self;
        if check_2_hi.is_err() {
            return Err(Error::Uncommitted);
        }
        let check_2_hi = check_2_hi.unwrap();
        self.range_check(lo, 128);
        let ghost sb = *self;
        let check_2_lo = committed_handle(self.is_less_than_const(lo, modulus.lo, 128));
        let ghost s3 = *self;
        if check_2_lo.is_err() {
            return Err(Error::Uncommitted);
        }
        let check_2_lo = check_2_lo.unwrap();
        let check_2 = committed_handle(self.and(check_2_hi, check_2_lo));
        let ghost s4 = *self;
        if check_2.is_err() {
            return Err(Error::Uncommitted);
        }
        let check_2 = check_2.unwrap();
        let check = committed_handle(self.or(check_1, check_2));
        let ghost s5 = *self;
        if check.is_err() {
            return Err(Error::Uncommitted);
        }
        let check = check.unwrap();
        self.assert_is_const(check, 1);
        proof {
            let vhi = cell_values(s0)[hi as int];
            let vlo = cell_values(s0)[lo as int];
            assert(cell_values(sa)[hi as int] == vhi);
            assert(cell_values(s2)[lo as int] == vlo);
            assert(cell_values(sb)[lo as int] == vlo);
            if records_positions(s0) && satisfied(*self) {
                assert(satisfied(s5));
                assert(satisfied(s4));
                assert(satisfied(s3));
                assert(satisfied(sb));
                assert(0 <= vlo < pow2(128));
                assert(satisfied(s2));
                assert(satisfied(s1));
                assert(satisfied(sa));
                assert(0 <= vhi < pow2(128));
            }
            if halves_fit(s0, hi, lo) {
                let v = pair_at(s0, hi, lo);
                lemma_below_bound(v, *modulus);
                let c1 = cell_values(s1)[check_1 as int];
                let c2h = cell_values(s2)[check_2_hi as int];
                let c2l = cell_values(s3)[check_2_lo as int];
                let c2 = cell_values(s4)[check_2 as int];
                assert(c1 == if v.hi < modulus.hi { 1int } else { 0int });
                assert(c2h == if v.hi == modulus.hi { 1int } else { 0int });
                assert(c2l == if v.lo < modulus.lo { 1int } else { 0int });
                let m = native_modulus();
                assert(0 <= c2h * c2l <= 1) by (nonlinear_arith)
                    requires
                        c2h == 0 || c2h == 1,
                        c2l == 0 || c2l == 1,
                ;
                vstd::arithmetic::div_mod::lemma_small_mod((c2h * c2l) as nat, m);
                assert(c2 == c2h * c2l);
                assert(c2 == 1 <==> (c2h == 1 && c2l == 1)) by (nonlinear_arith)
                    requires
                        c2 == c2h * c2l,
                        c2h == 0 || c2h == 1,
                        c2l == 0 || c2l == 1,
                ;
                assert(0 <= c1 + c2 - c1 * c2 <= 1 && (c1 + c2 - c1 * c2 == 1 <==> (c1 == 1 || c2 == 1)))
                    by (nonlinear_arith)
                    requires
                        c1 == 0 || c1 == 1,
                        c2 == 0 || c2 == 1,
                ;
                vstd::arithmetic::div_mod::lemma_small_mod((c1 + c2 - c1 * c2) as nat, m);
                assert(cell_values(s5)[check as int] == c1 + c2 - c1 * c2);
                if satisfied(s0) && v.value() < modulus.value() {
                    assert(satisfied(sa));
                    assert(satisfied(s1));
                    assert(satisfied(s2));
                    assert(satisfied(sb));
                    assert(satisfied(s3));
                    assert(satisfied(s4));
                    assert(satisfied(s5));
                    assert(cell_values(s5)[check as int] == 1);
                }
                if records_positions(s0) && satisfied(*self) {
                    assert(cell_values(s5)[check as int] == 1);
                }
            }
        }
        Ok(check)
    }

    /// Constrains the pair in cells `hi` and `lo` to lie below the native
    /// modulus, and hands back a cell that holds `hi * 2^128 + lo` in the
    /// field: the pair's value, when the halves are 128-bit.
    pub fn check_hi_lo(&mut self, hi: usize, lo: usize) -> (r: Result<usize, Error>)
        requires
            hi < cell_values(*old(self)).len(),
            lo < cell_values(*old(self)).len(),
            usable_lookup_bits(lookup_bits(*old(self))),
        ensures
            grows(*old(self), *final(self)),
            r is Err ==> r->Err_0 == Error::Uncommitted,
            records_positions(*old(self)) ==> r is Ok,
            r is Ok && halves_fit(*old(self), hi, lo) ==> holds(
                *final(self),
                r->Ok_0,
                pair_at(*old(self), hi, lo).value() as int % native_modulus() as int,
            ),
            r is Ok ==> r->Ok_0 >= cell_values(*old(self)).len(),
            r is Ok ==> holds(
                *final(self),
                r->Ok_0,
                (cell_values(*old(self))[hi as int] * pow2(128) + cell_values(*old(self))[lo as int]) % (
                native_modulus() as int),
            ),
            r is Ok && satisfied(*old(self)) && fits_below(*old(self), hi, lo, native_modulus_halves()) ==> satisfied(
                *final(self),
            ),
            r is Ok && records_positions(*old(self)) && satisfied(*final(self)) ==> fits_below(
                *old(self),
                hi,
                lo,
                native_modulus_halves(),
            ),
    {
        let ghost s0 = *self;
        let modulus = native_field_modulus();
        let check = self.assert_below_modulus(hi, lo, &modulus);
        if check.is_err() {
            return Err(Error::Uncommitted);
        }
        let ghost s1 = *self;
        proof {
            lemma_pow2_le_128(0);
            lemma_native_modulus_large();
        }
        let shift = HiLo { hi: 1, lo: 0 };
        let combined = committed_handle(self.mul_add_const(hi, shift, lo));
        if combined.is_err() {
            return Err(Error::Uncommitted);
        }
        proof {
            assert(satisfied(*self) ==> satisfied(s1));
            assert(satisfied(s1) ==> satisfied(*self));
        }
        combined
    }

    /// The cell that a hi/lo pair of cells denotes, constrained below the
    /// native modulus; `OutOfRange` when a handle names no cell.
    pub fn from_hi_lo(&mut self, hi: usize, lo: usize) -> (r: Result<usize, Error>)
        requires
            usable_lookup_bits(lookup_bits(*old(self))),
        ensures
            grows(*old(self), *final(self)),
            r == Err::<usize, Error>(Error::OutOfRange) <==> (hi >= cell_values(*old(self)).len() || lo
                >= cell_values(*old(self)).len()),
            r is Err ==> r->Err_0 == Error::OutOfRange || r->Err_0 == Error::Uncommitted,
            records_positions(*old(self)) ==> !(r is Err && r->Err_0 == Error::Uncommitted),
            r is Ok && halves_fit(*old(self), hi, lo) ==> holds(
                *final(self),
                r->Ok_0,
                pair_at(*old(self), hi, lo).value() as int % native_modulus() as int,
            ),
            r is Ok ==> r->Ok_0 >= cell_values(*old(self)).len(),
            r is Ok ==> holds(
                *final(self),
                r->Ok_0,
                (cell_values(*old(self))[hi as int] * pow2(128) + cell_values(*old(self))[lo as int]) % (
                native_modulus() as int),
            ),
            r is Ok && satisfied(*old(self)) && fits_below(*old(self), hi, lo, native_modulus_halves()) ==> satisfied(
                *final(self),
            ),
            r is Ok && records_positions(*old(self)) && satisfied(*final(self)) ==> fits_below(
                *old(self),
                hi,
                lo,
                native_modulus_halves(),
            ),
    {
        if hi >= self.committed() || lo >= self.committed() {
            return Err(Error::OutOfRange);
        }
        self.check_hi_lo(hi, lo)
    }

    /// Splits the cell at `a` into a hi/lo pair of new witness cells, and
    /// constrains the pair to lie below the native modulus and to denote the
    /// cell's value. Hands back `(hi, lo)`: `lo` is committed at the old cell
    /// count and `hi` right after it. `OutOfRange` when `a` names no cell.
    pub fn to_hi_lo(&mut self, a: usize) -> (r: Result<(usize, usize), Error>)
        requires
            usable_lookup_bits(lookup_bits(*old(self))),
        ensures
            grows(*old(self), *final(self)),
            r == Err::<(usize, usize), Error>(Error::OutOfRange) <==> a >= cell_values(*old(self)).len(),
            r is Err ==> r->Err_0 == Error::OutOfRange || r->Err_0 == Error::Uncommitted,
            records_positions(*old(self)) ==> !(r is Err && r->Err_0 == Error::Uncommitted),
            r is Ok ==> holds(*final(self), r->Ok_0.0, cell_values(*old(self))[a as int] / pow2(128) as int)
                && holds(*final(self), r->Ok_0.1, cell_values(*old(self))[a as int] % pow2(128) as int),
            r is Ok ==> r->Ok_0.1 == cell_values(*old(self)).len() && r->Ok_0.0 == cell_values(*old(self)).len()
                + 1,
            r is Ok ==> keeps_satisfied(*old(self), *final(self)),
    {
        if a >= self.committed() {
            return Err(Error::OutOfRange);
        }
        let ghost s0 = *self;
        let v = self.cell_value(a);
        proof {
            lemma_pow2_le_128(0);
            lemma_native_modulus_large();
            crate::codec::lemma_modulus_halves(v);
        }
        let lo = self.load_witness(small(v.lo));
        let ghost s1 = *self;
        let hi = self.load_witness(small(v.hi));
        let ghost s2 = *self;
        let lo = committed_handle(lo);
        let hi = committed_handle(hi);
        if lo.is_err() || hi.is_err() {
            return Err(Error::Uncommitted);
        }
        let (hi, lo) = (hi.unwrap(), lo.unwrap());
        assert(cell_values(s2)[lo as int] == v.lo);
        let combined = self.check_hi_lo(hi, lo);
        if combined.is_err() {
            return Err(Error::Uncommitted);
        }
        let combined = combined.unwrap();
        let ghost s3 = *self;
        self.constrain_equal(a, combined);
        proof {
            let x = cell_values(s0)[a as int];
            assert(v.value() == x);
            assert(fits_below(s2, hi, lo, native_modulus_halves()));
            assert(pair_at(s2, hi, lo) == v);
            lemma_small_mod(x as nat, native_modulus());
            assert(cell_values(s3)[combined as int] == x);
            assert(cell_values(s3)[a as int] == x);
            assert(satisfied(s0) ==> satisfied(s2));
            assert(satisfied(s2) ==> satisfied(s3));
        }
        Ok((hi, lo))
    }

    /// The value that the pair in cells `hi` and `lo` denotes, checked on the
    /// host before it is loaded as an element of `field`: `OutOfRange` when a
    /// handle names no cell, `MalformedBigInteger` when a half does not fit
    /// 128 bits, `ModulusViolation` when the pair is not below the field's
    /// modulus.
    pub fn field_element_value(&self, field: ForeignField, hi: usize, lo: usize) -> (r: Result<HiLo, Error>)
        ensures
            r == Err::<HiLo, Error>(Error::OutOfRange) <==> (hi >= cell_values(*self).len() || lo
                >= cell_values(*self).len()),
            hi < cell_values(*self).len() && lo < cell_values(*self).len() ==> (r == Err::<HiLo, Error>(
                Error::MalformedBigInteger,
            ) <==> !halves_fit(*self, hi, lo)),
            hi < cell_values(*self).len() && lo < cell_values(*self).len() && halves_fit(*self, hi, lo) ==> (r
                == Err::<HiLo, Error>(Error::ModulusViolation) <==> pair_at(*self, hi, lo).value()
                >= field.modulus().value()),
            r is Err ==> r->Err_0 == Error::OutOfRange || r->Err_0 == Error::MalformedBigInteger
                || r->Err_0 == Error::ModulusViolation,
            r is Ok ==> r->Ok_0 == pair_at(*self, hi, lo) && halves_fit(*self, hi, lo) && r->Ok_0.value()
                < field.modulus().value() && hi < cell_values(*self).len() && lo < cell_values(*self).len(),
    {
        if hi >= self.committed() || lo >= self.committed() {
            return Err(Error::OutOfRange);
        }
        let hi_val = self.cell_value(hi);
        let lo_val = self.cell_value(lo);
        proof {
            lemma_pow2_le_128(0);
            crate::codec::lemma_modulus_halves(hi_val);
            crate::codec::lemma_modulus_halves(lo_val);
            lemma_pow2_pos(128);
        }
        if hi_val.hi != 0 || lo_val.hi != 0 {
            proof {
                assert(!halves_fit(*self, hi, lo)) by (nonlinear_arith)
                    requires
                        hi_val.hi != 0 || lo_val.hi != 0,
                        hi_val.value() == cell_values(*self)[hi as int],
                        lo_val.value() == cell_values(*self)[lo as int],
                        hi_val.value() == hi_val.hi * pow2(128) + hi_val.lo,
                        lo_val.value() == lo_val.hi * pow2(128) + lo_val.lo,
                        pow2(128) > 0,
                ;
            }
            return Err(Error::MalformedBigInteger);
        }
        let value = HiLo { hi: hi_val.lo, lo: lo_val.lo };
        let modulus = field.field_modulus();
        check_below_modulus(value, &modulus)
    }

    /// Loads the pair in cells `hi` and `lo` as an element of `field`: three
    /// new limb cells of 88 bits, constrained equal to the limbs computed
    /// from the pair inside the circuit.
    ///
    /// Before anything is committed, the host checks the pair: `OutOfRange`
    /// when a handle names no cell, `MalformedBigInteger` when a half does
    /// not fit 128 bits, `ModulusViolation` when the pair is not below the
    /// field's modulus. On those errors the store is unchanged. A pair that
    /// passes them is loaded, where the store records positions, and the
    /// store's values meet what is emitted.
    pub fn hi_lo_to_field_element(&mut self, field: ForeignField, hi: usize, lo: usize) -> (r: Result<
        [usize; 3],
        Error,
    >)
        requires
            usable_lookup_bits(lookup_bits(*old(self))),
        ensures
            grows(*old(self), *final(self)),
            r == Err::<[usize; 3], Error>(Error::OutOfRange) <==> (hi >= cell_values(*old(self)).len() || lo
                >= cell_values(*old(self)).len()),
            hi < cell_values(*old(self)).len() && lo < cell_values(*old(self)).len() ==> (r == Err::<
                [usize; 3],
                Error,
            >(Error::MalformedBigInteger) <==> !halves_fit(*old(self), hi, lo)),
            hi < cell_values(*old(self)).len() && lo < cell_values(*old(self)).len() && halves_fit(
                *old(self),
                hi,
                lo,
            ) ==> (r == Err::<[usize; 3], Error>(Error::ModulusViolation) <==> pair_at(
                *old(self),
                hi,
                lo,
            ).value() >= field.modulus().value()),
            r is Err && r->Err_0 != Error::Uncommitted ==> cell_values(*final(self)) == cell_values(
                *old(self),
            ),
            records_positions(*old(self)) ==> !(r is Err && r->Err_0 == Error::Uncommitted),
            r is Ok ==> holds_limbs(*final(self), r->Ok_0, limbs_of(pair_at(*old(self), hi, lo), LIMB_BITS as nat))
                && limbs_of(pair_at(*old(self), hi, lo), LIMB_BITS as nat).value(LIMB_BITS as nat) == pair_at(
                *old(self),
                hi,
                lo,
            ).value(),
            r is Err ==> r->Err_0 == Error::OutOfRange || r->Err_0 == Error::MalformedBigInteger
                || r->Err_0 == Error::ModulusViolation || r->Err_0 == Error::Uncommitted,
            records_positions(*old(self)) && hi < cell_values(*old(self)).len() && lo < cell_values(
                *old(self),
            ).len() && fits_below(*old(self), hi, lo, field.modulus()) ==> r is Ok,
            r is Ok ==> all_fresh(cell_values(*old(self)).len(), r->Ok_0),
            r is Ok ==> (satisfied(*final(self)) <==> satisfied(*old(self))),
    {
        let value = self.field_element_value(field, hi, lo);
        if value.is_err() {
            return Err(value.unwrap_err());
        }
        let value = value.unwrap();
        let ghost s0 = *self;
        let loaded = self.load_foreign(field, value);
        let ghost s1 = *self;
        let l0 = committed_handle(loaded[0]);
        let l1 = committed_handle(loaded[1]);
        let l2 = committed_handle(loaded[2]);
        if l0.is_err() || l1.is_err() || l2.is_err() {
            return Err(Error::Uncommitted);
        }
        let limbs = [l0.unwrap(), l1.unwrap(), l2.unwrap()];
        proof {
            lemma_digits_are_limbs(value);
        }
        let recomputed = self.constrain_limbs_equality(hi, lo, limbs, LIMB_BITS);
        if recomputed.is_err() {
            return Err(Error::Uncommitted);
        }
        proof {
            lemma_limb_equivalence(value, LIMB_BITS as nat);
            let t = limbs_of(value, LIMB_BITS as nat);
            assert(holds_limbs(s1, limbs, t));
            assert(holds_limbs(*self, limbs, t));
            assert(holds_limbs(*self, recomputed.unwrap(), t));
            assert(satisfied(s0) ==> satisfied(s1));
            assert(satisfied(*self) ==> satisfied(s1));
            assert(satisfied(s1) ==> satisfied(s0));
        }
        Ok(limbs)
    }
}

/// The base-`2^88` digits of a 256-bit value are its limbs.
pub proof fn lemma_digits_are_limbs(v: HiLo)
    ensures
        limbs_of(v, 88).limb0 as int == v.value() as int % pow2(88) as int,
        limbs_of(v, 88).limb1 as int == (v.value() as int / pow2(88) as int) % pow2(88) as int,
        limbs_of(v, 88).limb2 as int == v.value() as int / pow2(176) as int,
{
    let p = pow2(88) as int;
    let x = v.value() as int;
    lemma_pow2_pos(88);
    lemma_pow2_adds(88, 88);
    lemma_pow2_adds(176, 80);
    lemma_pow2_adds(128, 128);
    lemma_pow2_le_128(0);
    lemma_pow2_le_128(88);
    lemma_pow2_le_128(80);
    lemma_limb_equivalence(v, 88);
    let d0 = x % p;
    let q = x / p;
    let d1 = q % p;
    let d2 = q / p;
    lemma_fundamental_div_mod(x, p);
    lemma_fundamental_div_mod(q, p);
    lemma_mod_bound(x, p);
    lemma_mod_bound(q, p);
    lemma_div_denominator(x, p, p);
    assert(x >= 0 && q >= 0 && d2 >= 0) by (nonlinear_arith)
        requires
            x == v.value(),
            p > 0,
            q == x / p,
            d2 == q / p,
    ;
    assert(x < pow2(256)) by {
        let b = pow2(128) as int;
        assert(v.hi * b <= (b - 1) * b) by {
            vstd::arithmetic::mul::lemma_mul_inequality(v.hi as int, b - 1, b);
        }
        assert((b - 1) * b == b * b - b) by (nonlinear_arith);
    }
    assert(d2 < pow2(80)) by {
        if d2 >= pow2(80) {
            assert(p * (p * d2) >= pow2(256)) by (nonlinear_arith)
                requires
                    d2 >= pow2(80),
                    p * p == pow2(176),
                    pow2(176) * pow2(80) == pow2(256),
                    p > 0,
            ;
            assert(x >= p * (p * d2)) by (nonlinear_arith)
                requires
                    x == p * q + d0,
                    q == p * d2 + d1,
                    d0 >= 0,
                    d1 >= 0,
                    p > 0,
            ;
        }
    }
    let t = LimbTriple { limb0: d0 as u128, limb1: d1 as u128, limb2: d2 as u128 };
    assert(t.value(88) == x) by (nonlinear_arith)
        requires
            x == p * q + d0,
            q == p * d2 + d1,
            t.limb0 == d0,
            t.limb1 == d1,
            t.limb2 == d2,
            t.value(88) == t.limb0 + t.limb1 * p + t.limb2 * pow2(176),
            pow2(176) == p * p,
    ;
    assert(t.fits(88));
    lemma_limbs_unique(t, limbs_of(v, 88), 88);
}

} // verus!
